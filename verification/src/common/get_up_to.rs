//! Finding the first occurrence of a byte.

use super::Uint8Buff;
use vstd::prelude::*;

verus! {

/// Whether `index` is the place of the first `target` in `buffer`.
pub open spec fn is_first_at(buffer: Seq<u8>, target: u8, index: int) -> bool {
    &&& 0 <= index < buffer.len()
    &&& buffer[index] == target
    &&& forall|j: int| 0 <= j < index ==> buffer[j] != target
}

/// The index of the first `target` in `buffer`, with the bytes before it;
/// `None` when `buffer` holds no `target`.
pub fn get_up_to(buffer: Uint8Buff, target: u8) -> (found: Option<(usize, Uint8Buff)>)
    ensures
        match found {
            Some((index, before)) => is_first_at(buffer@, target, index as int) && before@
                == buffer@.take(index as int),
            None => !buffer@.contains(target),
        },
{
    let mut before: Uint8Buff = Vec::new();
    let mut i: usize = 0;
    while i < buffer.len()
        invariant
            i <= buffer.len(),
            before@ == buffer@.take(i as int),
            forall|j: int| 0 <= j < i ==> buffer@[j] != target,
        decreases buffer.len() - i,
    {
        if buffer[i] == target {
            return Some((i, before));
        }
        before.push(buffer[i]);
        assert(buffer@.take(i + 1) =~= buffer@.take(i as int).push(buffer@[i as int]));
        i += 1;
    }
    None
}

} // verus!
