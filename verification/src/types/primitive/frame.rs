//! The frame that every scalar encoding shares: tag, optional sign, one
//! record with the payload, and the end of the buffer.

use crate::common::Uint8Buff;
use crate::common::delimiters::{BUFFER_END, END_RECORD, START_RECORD};
use crate::common::errors::{not_enough, DecodingCause, DecodingErrors};
use crate::common::join_parts::{join_parts, joined, push_part, BuffPart};
use crate::common::modifiers::{MINUS, PLUS};
use crate::common::slice_records::{slice_records, sliced, views};
use vstd::prelude::*;

verus! {

/// The encoding of an unsigned scalar with the given tag and payload.
pub open spec fn framed(tag: u8, payload: Seq<u8>) -> Seq<u8> {
    seq![tag, START_RECORD] + payload + seq![END_RECORD, BUFFER_END]
}

/// The sign byte of a number.
pub open spec fn sign_byte(negative: bool) -> u8 {
    if negative {
        MINUS
    } else {
        PLUS
    }
}

/// The sign character of a number.
pub open spec fn sign_char(negative: bool) -> char {
    if negative {
        '-'
    } else {
        '+'
    }
}

/// The encoding of a signed scalar with the given tag, sign and payload.
pub open spec fn signed_framed(tag: u8, negative: bool, payload: Seq<u8>) -> Seq<u8> {
    seq![tag, sign_byte(negative), START_RECORD] + payload + seq![END_RECORD, BUFFER_END]
}

/// Frames the payload of an unsigned scalar.
pub(crate) fn frame(tag: u8, payload: Vec<u8>) -> (buff: Uint8Buff)
    ensures
        buff@ == framed(tag, payload@),
{
    let mut parts: Vec<BuffPart> = Vec::new();
    assert(joined(parts@) =~= Seq::<u8>::empty());
    push_part(&mut parts, BuffPart::Val(tag));
    push_part(&mut parts, BuffPart::Val(START_RECORD));
    push_part(&mut parts, BuffPart::Arr(payload));
    push_part(&mut parts, BuffPart::Val(END_RECORD));
    push_part(&mut parts, BuffPart::Val(BUFFER_END));
    assert(joined(parts@) =~= framed(tag, payload@));
    join_parts(parts)
}

/// Frames the payload of a signed scalar.
pub(crate) fn frame_signed(tag: u8, negative: bool, payload: Vec<u8>) -> (buff: Uint8Buff)
    ensures
        buff@ == signed_framed(tag, negative, payload@),
{
    let signal: u8 = if negative {
        MINUS
    } else {
        PLUS
    };
    let mut parts: Vec<BuffPart> = Vec::new();
    assert(joined(parts@) =~= Seq::<u8>::empty());
    push_part(&mut parts, BuffPart::Val(tag));
    push_part(&mut parts, BuffPart::Val(signal));
    push_part(&mut parts, BuffPart::Val(START_RECORD));
    push_part(&mut parts, BuffPart::Arr(payload));
    push_part(&mut parts, BuffPart::Val(END_RECORD));
    push_part(&mut parts, BuffPart::Val(BUFFER_END));
    assert(joined(parts@) =~= signed_framed(tag, negative, payload@));
    join_parts(parts)
}

/// The records of an unsigned scalar's buffer: those of the bytes after the
/// tag.  An empty buffer and a wrong tag are failures.
pub open spec fn opened(buff: Seq<u8>, kind: Seq<char>, tag: u8) -> Result<
    Seq<Seq<u8>>,
    DecodingCause,
> {
    if buff.len() == 0 {
        Err(not_enough("Bytes"@, 4, 0))
    } else if buff[0] != tag {
        Err(DecodingCause::FirstByteError(kind, tag, buff[0]))
    } else {
        Ok(sliced(buff.skip(1)))
    }
}

/// The bytes of a signed scalar's buffer after tag and sign.  A byte that is
/// no sign is left in place: the sign may be omitted.
pub open spec fn after_sign(buff: Seq<u8>) -> Seq<u8>
    recommends
        buff.len() >= 2,
{
    if buff[1] == MINUS || buff[1] == PLUS {
        buff.skip(2)
    } else {
        buff.skip(1)
    }
}

/// Whether a signed scalar's buffer is negative, and its records: those of
/// the bytes after tag and sign.  An empty buffer, a wrong tag and a buffer
/// that ends after the tag are failures.
pub open spec fn opened_signed(buff: Seq<u8>, kind: Seq<char>, tag: u8) -> Result<
    (bool, Seq<Seq<u8>>),
    DecodingCause,
> {
    if buff.len() == 0 {
        Err(not_enough("Bytes"@, 4, 0))
    } else if buff[0] != tag {
        Err(DecodingCause::FirstByteError(kind, tag, buff[0]))
    } else if buff.len() == 1 {
        Err(not_enough("Bytes"@, 4, 1))
    } else {
        Ok((buff[1] == MINUS, sliced(after_sign(buff))))
    }
}

/// The bytes of `buff` from index `from` on.
fn tail_of(buff: &Uint8Buff, from: usize) -> (tail: Uint8Buff)
    requires
        from <= buff.len(),
    ensures
        tail@ == buff@.skip(from as int),
{
    let mut tail: Uint8Buff = Vec::new();
    let mut i: usize = from;
    while i < buff.len()
        invariant
            from <= i <= buff.len(),
            tail@ == buff@.subrange(from as int, i as int),
        decreases buff.len() - i,
    {
        tail.push(buff[i]);
        assert(buff@.subrange(from as int, i + 1) =~= buff@.subrange(from as int, i as int).push(
            buff@[i as int],
        ));
        i += 1;
    }
    assert(buff@.subrange(from as int, i as int) =~= buff@.skip(from as int));
    tail
}

/// Checks the tag of an unsigned scalar and slices what follows it.
pub(crate) fn open_frame(value: &Uint8Buff, kind: &str, tag: u8) -> (records: Result<
    Vec<Uint8Buff>,
    DecodingErrors,
>)
    ensures
        match records {
            Ok(found) => opened(value@, kind@, tag) == Ok::<Seq<Seq<u8>>, DecodingCause>(
                views(found@),
            ),
            Err(cause) => opened(value@, kind@, tag) == Err::<Seq<Seq<u8>>, DecodingCause>(cause@),
        },
{
    if value.len() == 0 {
        return Err(DecodingErrors::not_enough("Bytes", 4, 0));
    }
    let first_byte = value[0];
    if first_byte != tag {
        return Err(DecodingErrors::FirstByteError(kind.to_string(), tag, first_byte));
    }
    Ok(slice_records(tail_of(value, 1)))
}

/// Checks the tag of a signed scalar, reads its sign and slices what
/// follows.
pub(crate) fn open_signed_frame(value: &Uint8Buff, kind: &str, tag: u8) -> (records: Result<
    (bool, Vec<Uint8Buff>),
    DecodingErrors,
>)
    ensures
        match records {
            Ok((negative, found)) => opened_signed(value@, kind@, tag) == Ok::<
                (bool, Seq<Seq<u8>>),
                DecodingCause,
            >((negative, views(found@))),
            Err(cause) => opened_signed(value@, kind@, tag) == Err::<
                (bool, Seq<Seq<u8>>),
                DecodingCause,
            >(cause@),
        },
{
    if value.len() == 0 {
        return Err(DecodingErrors::not_enough("Bytes", 4, 0));
    }
    let first_byte = value[0];
    if first_byte != tag {
        return Err(DecodingErrors::FirstByteError(kind.to_string(), tag, first_byte));
    }
    if value.len() == 1 {
        return Err(DecodingErrors::not_enough("Bytes", 4, 1));
    }
    let sign = value[1];
    let skip: usize = if sign == MINUS || sign == PLUS {
        2
    } else {
        1
    };
    Ok((sign == MINUS, slice_records(tail_of(value, skip))))
}

} // verus!
