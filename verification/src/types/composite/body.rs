//! What the composite kinds share: bodies made of sibling values.
//!
//! A composite body holds the encodings of its children, each without its
//! `BUFFER_END` and each followed by a `VALUE_DELIMITER`.  Decoding splits the
//! body at these delimiters and decodes each field that holds any byte.

use crate::common::Uint8Buff;
use crate::common::delimiters::VALUE_DELIMITER;
use crate::common::errors::{DecodingCause, DecodingErrors, TypeError, TypeFailure};
use crate::common::join_parts::{joined, push_part, BuffPart};
use crate::types::infer_buffer::inferred;
use crate::types::primitive::string::string_bytes;
use crate::types::primitive::supported_types::{
    scalar_views, scalar_written, ScalarValue, SupportedTypes,
};
use vstd::prelude::*;

verus! {

/// The encoding of a child inside a composite: its own encoding without the
/// `BUFFER_END`, followed by a `VALUE_DELIMITER`.
pub open spec fn sibling(written: Seq<u8>) -> Seq<u8> {
    written.drop_last().push(VALUE_DELIMITER)
}

/// The body that holds `values` as siblings, or the failure of the first
/// value that cannot be encoded.
pub open spec fn siblings_written(values: Seq<ScalarValue>) -> Result<Seq<u8>, TypeFailure>
    decreases values.len(),
{
    if values.len() == 0 {
        Ok(Seq::empty())
    } else {
        match siblings_written(values.drop_last()) {
            Err(failure) => Err(failure),
            Ok(before) => match scalar_written(values.last()) {
                Err(failure) => Err(failure),
                Ok(written) => Ok(before + sibling(written)),
            },
        }
    }
}

/// The body that holds `texts` as siblings.
pub open spec fn text_siblings(texts: Seq<Seq<char>>) -> Seq<u8>
    decreases texts.len(),
{
    if texts.len() == 0 {
        Seq::empty()
    } else {
        text_siblings(texts.drop_last()) + sibling(string_bytes(texts.last()))
    }
}

/// The scalars that `fields` hold, in order, or the failure of the first
/// field that holds none.  A field without bytes stands for no value.
pub open spec fn inferred_all(fields: Seq<Seq<u8>>) -> Result<Seq<ScalarValue>, DecodingCause>
    decreases fields.len(),
{
    if fields.len() == 0 {
        Ok(Seq::empty())
    } else {
        match inferred_all(fields.drop_last()) {
            Err(cause) => Err(cause),
            Ok(values) => if fields.last().len() == 0 {
                Ok(values)
            } else {
                match inferred(fields.last()) {
                    Err(cause) => Err(cause),
                    Ok(value) => Ok(values.push(value)),
                }
            },
        }
    }
}

/// Once a start of `fields` fails, all of `fields` fail for the same cause.
pub proof fn lemma_failure_reaches_end(fields: Seq<Seq<u8>>, shorter: int)
    requires
        0 <= shorter <= fields.len(),
        inferred_all(fields.take(shorter)) is Err,
    ensures
        inferred_all(fields) == inferred_all(fields.take(shorter)),
    decreases fields.len() - shorter,
{
    if shorter < fields.len() {
        assert(fields.take(shorter + 1).drop_last() =~= fields.take(shorter));
        lemma_failure_reaches_end(fields, shorter + 1);
    } else {
        assert(fields.take(shorter) =~= fields);
    }
}

/// Once a start of `values` cannot be encoded, all of `values` cannot, for
/// the same reason.
pub proof fn lemma_rejection_reaches_end(values: Seq<ScalarValue>, shorter: int)
    requires
        0 <= shorter <= values.len(),
        siblings_written(values.take(shorter)) is Err,
    ensures
        siblings_written(values) == siblings_written(values.take(shorter)),
    decreases values.len() - shorter,
{
    if shorter < values.len() {
        assert(values.take(shorter + 1).drop_last() =~= values.take(shorter));
        lemma_rejection_reaches_end(values, shorter + 1);
    } else {
        assert(values.take(shorter) =~= values);
    }
}

/// The encoding of a scalar holds at least the tag and the frame.
pub proof fn lemma_written_is_not_empty(value: ScalarValue)
    ensures
        scalar_written(value) matches Ok(written)
            ==> written.len() >= 4,
{
}

/// Appends `written`, the encoding of a child, to `parts` as a sibling.
pub(crate) fn push_sibling(parts: &mut Vec<BuffPart>, written: Uint8Buff)
    requires
        written@.len() > 0,
    ensures
        joined(final(parts)@) == joined(old(parts)@) + sibling(written@),
{
    let mut written = written;
    let ghost whole = written@;
    let ghost before = joined(parts@);
    written.pop();
    assert(written@ =~= whole.drop_last());
    push_part(parts, BuffPart::Arr(written));
    push_part(parts, BuffPart::Val(VALUE_DELIMITER));
    assert(joined(parts@) =~= before + sibling(whole));
}

/// Appends the encodings of `values` to `parts` as siblings.  Stops at the
/// first value that cannot be encoded and hands back its failure.
pub(crate) fn push_siblings(
    parts: &mut Vec<BuffPart>,
    values: &Vec<SupportedTypes>,
) -> (done: Result<(), TypeError>)
    ensures
        match done {
            Ok(_) => siblings_written(scalar_views(values@)) matches Ok(body) && joined(
                final(parts)@,
            ) == joined(old(parts)@) + body,
            Err(error) => siblings_written(scalar_views(values@)) == Err::<Seq<u8>, TypeFailure>(
                error@,
            ),
        },
{
    let ghost all = scalar_views(values@);
    let ghost start = joined(parts@);
    let ghost mut body: Seq<u8> = Seq::empty();
    assert(start + body =~= start);
    let mut i: usize = 0;
    while i < values.len()
        invariant
            i <= values.len(),
            all == scalar_views(values@),
            siblings_written(all.take(i as int)) == Ok::<Seq<u8>, TypeFailure>(body),
            joined(parts@) == start + body,
        decreases values.len() - i,
    {
        proof {
            assert(all.take(i + 1).drop_last() =~= all.take(i as int));
        }
        let encoded_value = match values[i].encode() {
            Ok(encoded_value) => encoded_value,
            Err(error) => {
                proof {
                    lemma_rejection_reaches_end(all, i + 1);
                }
                return Err(error);
            },
        };
        proof {
            lemma_written_is_not_empty(values[i as int]@);
            assert(start + (body + sibling(encoded_value@)) =~= start + body + sibling(
                encoded_value@,
            ));
            body = body + sibling(encoded_value@);
        }
        push_sibling(parts, encoded_value);
        i += 1;
    }
    assert(all.take(i as int) =~= all);
    Ok(())
}

/// The cause of a decoding error.
pub(crate) fn cause_of(error: TypeError) -> (cause: DecodingErrors)
    requires
        error@ is Decoding,
    ensures
        cause@ == error@->Decoding_0.cause,
{
    match error {
        TypeError::Decoding(decoding) => decoding.cause,
        TypeError::Encoding(_) => vstd::pervasive::unreached(),
    }
}

} // verus!
