//! Assembling a buffer from single bytes and byte runs.

use super::Uint8Buff;
use vstd::prelude::*;

verus! {

/// A piece of a buffer under construction.
pub enum BuffPart {
    /// A run of bytes.
    Arr(Vec<u8>),
    /// A single byte.
    Val(u8),
}

impl View for BuffPart {
    type V = Seq<u8>;

    open spec fn view(&self) -> Seq<u8> {
        match self {
            BuffPart::Arr(bytes) => bytes@,
            BuffPart::Val(byte) => seq![*byte],
        }
    }
}

/// The bytes of all `parts`, in order.
pub open spec fn joined(parts: Seq<BuffPart>) -> Seq<u8>
    decreases parts.len(),
{
    if parts.len() == 0 {
        Seq::empty()
    } else {
        joined(parts.drop_last()) + parts.last()@
    }
}

/// Adding a part at the end adds its bytes at the end.
pub proof fn lemma_joined_push(parts: Seq<BuffPart>, part: BuffPart)
    ensures
        joined(parts.push(part)) == joined(parts) + part@,
{
    assert(parts.push(part).drop_last() =~= parts);
}

/// Appends `part` to `parts`.
pub fn push_part(parts: &mut Vec<BuffPart>, part: BuffPart)
    ensures
        final(parts)@ == old(parts)@.push(part),
        joined(final(parts)@) == joined(old(parts)@) + part@,
{
    proof {
        lemma_joined_push(parts@, part);
    }
    parts.push(part);
}

/// Concatenates the parts into one buffer.
pub fn join_parts(parts: Vec<BuffPart>) -> (joined_buff: Uint8Buff)
    ensures
        joined_buff@ == joined(parts@),
{
    let mut out: Uint8Buff = Vec::new();
    let mut i: usize = 0;
    while i < parts.len()
        invariant
            i <= parts.len(),
            out@ == joined(parts@.take(i as int)),
        decreases parts.len() - i,
    {
        proof {
            assert(parts@.take(i + 1).drop_last() =~= parts@.take(i as int));
        }
        match &parts[i] {
            BuffPart::Arr(bytes) => {
                let mut j: usize = 0;
                while j < bytes.len()
                    invariant
                        j <= bytes.len(),
                        out@ == joined(parts@.take(i as int)) + bytes@.take(j as int),
                    decreases bytes.len() - j,
                {
                    out.push(bytes[j]);
                    j += 1;
                    assert(bytes@.take(j as int) =~= bytes@.take(j - 1).push(bytes@[j - 1]));
                }
                assert(bytes@.take(j as int) =~= bytes@);
            },
            BuffPart::Val(byte) => {
                out.push(*byte);
                assert(out@ =~= joined(parts@.take(i as int)) + seq![*byte]);
            },
        }
        i += 1;
    }
    assert(parts@.take(i as int) =~= parts@);
    out
}

} // verus!
