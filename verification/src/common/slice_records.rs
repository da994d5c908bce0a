//! The record slicer: finds the top-level records of a buffer.
//!
//! A buffer is sliced in one pass from left to right with a depth counter.
//! A buffer whose delimiters do not match has no records at all.

use super::Uint8Buff;
use super::delimiters::{END_RECORD, START_RECORD, VALUE_DELIMITER};
use super::is_known_first_byte::is_known_first_byte;
use super::tags::is_tag;
use vstd::prelude::*;

verus! {

/// State of a left-to-right scan for records.
pub struct Scan {
    /// How many records are open at this point.
    pub depth: nat,
    /// The bytes read so far inside the open top-level record.
    pub open: Seq<u8>,
    /// The bodies of the top-level records that were closed so far.
    pub closed: Seq<Seq<u8>>,
    /// Whether an `END_RECORD` was read while no record was open.
    pub unmatched: bool,
}

/// The scan before any byte was read.
pub open spec fn scan_start() -> Scan {
    Scan { depth: 0, open: Seq::empty(), closed: Seq::empty(), unmatched: false }
}

/// The scan after one more byte.
///
/// At depth 0 a `START_RECORD` opens a top-level record, an `END_RECORD` has
/// no record to close, and every other byte is skipped.  Inside a record
/// `START_RECORD` and `END_RECORD` move the depth by one; the `END_RECORD`
/// that brings it back to 0 closes the top-level record, and every other
/// byte, nested delimiters included, belongs to its body.
pub open spec fn scan_byte(scan: Scan, byte: u8) -> Scan {
    if scan.depth == 0 {
        if byte == START_RECORD {
            Scan { depth: 1, open: Seq::empty(), ..scan }
        } else if byte == END_RECORD {
            Scan { unmatched: true, ..scan }
        } else {
            scan
        }
    } else if byte == END_RECORD && scan.depth == 1 {
        Scan { depth: 0, open: Seq::empty(), closed: scan.closed.push(scan.open), ..scan }
    } else {
        Scan {
            depth: if byte == START_RECORD {
                scan.depth + 1
            } else if byte == END_RECORD {
                (scan.depth - 1) as nat
            } else {
                scan.depth
            },
            open: scan.open.push(byte),
            ..scan
        }
    }
}

/// The scan after all of `bytes`, starting from `scan`.
pub open spec fn scan_bytes(scan: Scan, bytes: Seq<u8>) -> Scan
    decreases bytes.len(),
{
    if bytes.len() == 0 {
        scan
    } else {
        scan_byte(scan_bytes(scan, bytes.drop_last()), bytes.last())
    }
}

/// Whether the delimiters that a scan has read match: every record that was
/// opened is closed, and no `END_RECORD` stood outside of every record.
pub open spec fn is_matched(scan: Scan) -> bool {
    scan.depth == 0 && !scan.unmatched
}

/// The bodies of the top-level records of `buff`, in order; none at all if
/// the delimiters of `buff` do not match.
pub open spec fn top_level_records(buff: Seq<u8>) -> Seq<Seq<u8>> {
    let scan = scan_bytes(scan_start(), buff);
    if is_matched(scan) {
        scan.closed
    } else {
        Seq::empty()
    }
}

/// Whether `record` starts with a type tag.
pub open spec fn is_tagged(record: Seq<u8>) -> bool {
    record.len() > 0 && is_tag(record[0])
}

/// Those of `records` that start with a type tag, in order.
pub open spec fn tagged_only(records: Seq<Seq<u8>>) -> Seq<Seq<u8>>
    decreases records.len(),
{
    if records.len() == 0 {
        Seq::empty()
    } else if is_tagged(records.last()) {
        tagged_only(records.drop_last()).push(records.last())
    } else {
        tagged_only(records.drop_last())
    }
}

/// What the slicer returns for `buff`: its top-level records, and only the
/// tagged ones if `buff` holds a `VALUE_DELIMITER` anywhere.
pub open spec fn sliced(buff: Seq<u8>) -> Seq<Seq<u8>> {
    if buff.contains(VALUE_DELIMITER) {
        tagged_only(top_level_records(buff))
    } else {
        top_level_records(buff)
    }
}

/// The contents of a list of buffers.
pub open spec fn views(buffers: Seq<Vec<u8>>) -> Seq<Seq<u8>> {
    buffers.map_values(|buffer: Vec<u8>| buffer@)
}

/// Whether `frame` is a record body between its two delimiters.
pub open spec fn is_frame(frame: Seq<u8>) -> bool {
    frame.len() >= 2 && frame.first() == START_RECORD && frame.last() == END_RECORD
}

/// The body of a frame: `None` unless the first byte is `START_RECORD` and
/// the last one `END_RECORD`.
fn trim_record_delimiters(buff: Uint8Buff) -> (body: Option<Uint8Buff>)
    ensures
        match body {
            Some(bytes) => is_frame(buff@) && bytes@ == buff@.subrange(1, buff@.len() - 1),
            None => !is_frame(buff@),
        },
{
    let mut buff = buff;
    if buff.len() < 2 {
        return None;
    }
    let ghost whole = buff@;
    let first_byte = buff.remove(0);
    let last_byte = match buff.pop() {
        Some(lb) => lb,
        None => return None,
    };
    if first_byte != START_RECORD || last_byte != END_RECORD {
        return None;
    }
    assert(buff@ =~= whole.subrange(1, whole.len() - 1));
    Some(buff)
}

/// The body of a frame, if the body starts with a type tag.
fn inspect_record(buff: Uint8Buff) -> (body: Option<Uint8Buff>)
    ensures
        match body {
            Some(bytes) => is_frame(buff@) && bytes@ == buff@.subrange(1, buff@.len() - 1)
                && is_tagged(bytes@),
            None => !is_frame(buff@) || !is_tagged(buff@.subrange(1, buff@.len() - 1)),
        },
{
    if buff.is_empty() {
        return None;
    }
    let trimmed = match trim_record_delimiters(buff) {
        Some(t) => t,
        None => return None,
    };
    if trimmed.len() == 0 {
        return None;
    }
    if is_known_first_byte(trimmed[0]) {
        Some(trimmed)
    } else {
        None
    }
}

/// Whether the records of `buff` have to start with a type tag: they do as
/// soon as `buff` holds a `VALUE_DELIMITER`.
fn slicer_must_inspect_records(buff: &Uint8Buff) -> (must: bool)
    ensures
        must == buff@.contains(VALUE_DELIMITER),
{
    let mut i: usize = 0;
    while i < buff.len()
        invariant
            i <= buff.len(),
            forall|j: int| 0 <= j < i ==> buff@[j] != VALUE_DELIMITER,
        decreases buff.len() - i,
    {
        if buff[i] == VALUE_DELIMITER {
            return true;
        }
        i += 1;
    }
    false
}

/// The bytes of `buff` from `from` up to and including `to`.
fn copy_frame(buff: &Uint8Buff, from: usize, to: usize) -> (frame: Uint8Buff)
    requires
        from <= to < buff.len(),
    ensures
        frame@ == buff@.subrange(from as int, to + 1),
{
    let mut frame: Uint8Buff = Vec::new();
    let mut i: usize = from;
    while i <= to
        invariant
            from <= i <= to + 1,
            to < buff.len(),
            frame@ == buff@.subrange(from as int, i as int),
        decreases to + 1 - i,
    {
        frame.push(buff[i]);
        assert(buff@.subrange(from as int, i + 1) =~= buff@.subrange(from as int, i as int).push(
            buff@[i as int],
        ));
        i += 1;
    }
    frame
}

/// What the slicer keeps of the closed records.
pub open spec fn kept(closed: Seq<Seq<u8>>, inspect: bool) -> Seq<Seq<u8>> {
    if inspect {
        tagged_only(closed)
    } else {
        closed
    }
}

/// Returns the bodies of the top-level records of `buff`, without their
/// delimiters.  Bytes outside of records are skipped.  If `buff` holds a
/// `VALUE_DELIMITER`, records that do not start with a type tag are dropped.
/// Malformed input, in which a record is not closed or an `END_RECORD`
/// closes none, yields no records, never a failure.
pub fn slice_records(buff: Uint8Buff) -> (records: Vec<Uint8Buff>)
    ensures
        views(records@) == sliced(buff@),
{
    let should_inspect = slicer_must_inspect_records(&buff);
    let mut records: Vec<Uint8Buff> = Vec::new();
    let mut depth: usize = 0;
    let mut unmatched = false;
    let mut start: usize = 0;
    let mut idx: usize = 0;
    assert(views(records@) =~= Seq::<Seq<u8>>::empty());
    while idx < buff.len()
        invariant
            idx <= buff.len(),
            depth <= idx,
            should_inspect == buff@.contains(VALUE_DELIMITER),
            scan_bytes(scan_start(), buff@.take(idx as int)).depth == depth,
            scan_bytes(scan_start(), buff@.take(idx as int)).unmatched == unmatched,
            depth > 0 ==> start < idx && buff@[start as int] == START_RECORD && scan_bytes(
                scan_start(),
                buff@.take(idx as int),
            ).open == buff@.subrange(start + 1, idx as int),
            views(records@) == kept(
                scan_bytes(scan_start(), buff@.take(idx as int)).closed,
                should_inspect,
            ),
        decreases buff.len() - idx,
    {
        let byte = buff[idx];
        let ghost before = scan_bytes(scan_start(), buff@.take(idx as int));
        let ghost after = scan_byte(before, byte);
        proof {
            assert(buff@.take(idx + 1).drop_last() =~= buff@.take(idx as int));
            assert(scan_bytes(scan_start(), buff@.take(idx + 1)) == after);
        }
        if depth == 0 {
            if byte == START_RECORD {
                start = idx;
                depth = 1;
                assert(after.open =~= buff@.subrange(start + 1, idx + 1));
            } else if byte == END_RECORD {
                unmatched = true;
            }
        } else if byte == END_RECORD && depth == 1 {
            depth = 0;
            let found_record = copy_frame(&buff, start, idx);
            let ghost body = buff@.subrange(start + 1, idx as int);
            proof {
                assert(found_record@.subrange(1, found_record@.len() - 1) =~= body);
                assert(after.closed == before.closed.push(body));
                assert(after.closed.drop_last() =~= before.closed);
            }
            let ghost old_records = records@;
            if should_inspect {
                if let Some(b) = inspect_record(found_record) {
                    records.push(b);
                    assert(views(records@) =~= views(old_records).push(body));
                }
            } else if let Some(fr) = trim_record_delimiters(found_record) {
                records.push(fr);
                assert(views(records@) =~= views(old_records).push(body));
            }
        } else {
            if byte == START_RECORD {
                depth += 1;
            } else if byte == END_RECORD {
                depth -= 1;
            }
            assert(after.open =~= buff@.subrange(start + 1, idx + 1));
        }
        idx += 1;
    }
    assert(buff@.take(idx as int) =~= buff@);
    if depth != 0 || unmatched {
        let nothing: Vec<Uint8Buff> = Vec::new();
        assert(views(nothing@) =~= Seq::<Seq<u8>>::empty());
        return nothing;
    }
    records
}

} // verus!
