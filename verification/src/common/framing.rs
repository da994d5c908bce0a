//! Which bytes survive being framed: facts about the slicer and the splitter
//! on buffers that are put together from well-nested parts.

use super::delimiters::{is_framing_byte, END_RECORD, START_RECORD, VALUE_DELIMITER};
use super::slice_records::{
    is_tagged, scan_byte, scan_bytes, scan_start, sliced, tagged_only, top_level_records, Scan,
};
use super::split_values::{split_byte, split_bytes, Split};
use vstd::prelude::*;

verus! {

/// How many records `bytes` leave open, if they close none that they did
/// not open; `None` if they do.
pub open spec fn nesting(bytes: Seq<u8>) -> Option<nat>
    decreases bytes.len(),
{
    if bytes.len() == 0 {
        Some(0nat)
    } else {
        match nesting(bytes.drop_last()) {
            None => None,
            Some(depth) => if bytes.last() == START_RECORD {
                Some(depth + 1)
            } else if bytes.last() == END_RECORD {
                if depth == 0 {
                    None
                } else {
                    Some((depth - 1) as nat)
                }
            } else {
                Some(depth)
            },
        }
    }
}

/// Whether `bytes` are well nested: every record that they open they also
/// close, and they close no other.
pub open spec fn is_enclosed(bytes: Seq<u8>) -> bool {
    nesting(bytes) == Some(0nat)
}

/// Whether the payload of a scalar comes back from its frame unchanged: it
/// is well nested, and starts with a type tag if it holds a
/// `VALUE_DELIMITER`.
pub open spec fn survives_framing(payload: Seq<u8>) -> bool {
    is_enclosed(payload) && (payload.contains(VALUE_DELIMITER) ==> is_tagged(payload))
}

/// Whether `bytes` hold none of the bytes that the scanners react to.
pub open spec fn is_plain(bytes: Seq<u8>) -> bool {
    forall|i: int| 0 <= i < bytes.len() ==> !is_framing_byte(#[trigger] bytes[i])
}

/// A head, such as tag and sign, followed by one record with `payload`.
pub open spec fn atom(head: Seq<u8>, payload: Seq<u8>) -> Seq<u8> {
    head + seq![START_RECORD] + payload + seq![END_RECORD]
}

/// The nesting of two runs in a row is the sum of their nestings.
pub proof fn lemma_nesting_concat(a: Seq<u8>, b: Seq<u8>)
    requires
        nesting(a) is Some,
        nesting(b) is Some,
    ensures
        nesting(a + b) == Some(nesting(a)->Some_0 + nesting(b)->Some_0),
    decreases b.len(),
{
    if b.len() == 0 {
        assert(a + b =~= a);
    } else {
        assert((a + b).drop_last() =~= a + b.drop_last());
        lemma_nesting_concat(a, b.drop_last());
    }
}

/// Bytes without framing bytes are well nested.
pub proof fn lemma_plain_is_enclosed(bytes: Seq<u8>)
    requires
        is_plain(bytes),
    ensures
        is_enclosed(bytes),
    decreases bytes.len(),
{
    if bytes.len() > 0 {
        lemma_plain_is_enclosed(bytes.drop_last());
    }
}

/// A head without framing bytes and a record with a well-nested payload are
/// well nested together.
pub proof fn lemma_atom_is_enclosed(head: Seq<u8>, payload: Seq<u8>)
    requires
        is_plain(head),
        is_enclosed(payload),
    ensures
        is_enclosed(atom(head, payload)),
{
    lemma_plain_is_enclosed(head);
    let opened = head + seq![START_RECORD];
    assert(opened.drop_last() =~= head);
    assert(nesting(opened) == Some(1nat));
    lemma_nesting_concat(opened, payload);
    let inside = opened + payload;
    assert(atom(head, payload).drop_last() =~= inside);
}

/// Scanning one byte is one step of the scan.
pub proof fn lemma_scan_one(scan: Scan, byte: u8)
    ensures
        scan_bytes(scan, seq![byte]) == scan_byte(scan, byte),
{
    reveal_with_fuel(scan_bytes, 2);
    assert(seq![byte].drop_last() =~= Seq::<u8>::empty());
}

/// Splitting one byte is one step of the split.
pub proof fn lemma_split_one(split: Split, byte: u8)
    ensures
        split_bytes(split, seq![byte]) == split_byte(split, byte),
{
    reveal_with_fuel(split_bytes, 2);
    assert(seq![byte].drop_last() =~= Seq::<u8>::empty());
}

/// Scanning two runs in a row is scanning the second from where the first
/// ended.
pub proof fn lemma_scan_concat(scan: Scan, a: Seq<u8>, b: Seq<u8>)
    ensures
        scan_bytes(scan, a + b) == scan_bytes(scan_bytes(scan, a), b),
    decreases b.len(),
{
    if b.len() == 0 {
        assert(a + b =~= a);
    } else {
        assert((a + b).drop_last() =~= a + b.drop_last());
        lemma_scan_concat(scan, a, b.drop_last());
    }
}

/// Inside a record, bytes that close no record of others all go to the body
/// of the open top-level record.
pub proof fn lemma_scan_enclosed(scan: Scan, bytes: Seq<u8>)
    requires
        scan.depth >= 1,
        nesting(bytes) is Some,
    ensures
        scan_bytes(scan, bytes) == (Scan {
            depth: scan.depth + nesting(bytes)->Some_0,
            open: scan.open + bytes,
            ..scan
        }),
    decreases bytes.len(),
{
    if bytes.len() == 0 {
        assert(scan.open + bytes =~= scan.open);
    } else {
        lemma_scan_enclosed(scan, bytes.drop_last());
        assert((scan.open + bytes.drop_last()).push(bytes.last()) =~= scan.open + bytes);
    }
}

/// Outside of records, bytes that are no delimiters change nothing.
pub proof fn lemma_scan_stray(scan: Scan, bytes: Seq<u8>)
    requires
        scan.depth == 0,
        is_plain(bytes),
    ensures
        scan_bytes(scan, bytes) == scan,
    decreases bytes.len(),
{
    if bytes.len() > 0 {
        lemma_scan_stray(scan, bytes.drop_last());
    }
}

/// A frame with a well-nested payload, followed by bytes that are no
/// delimiters, holds the payload as its one top-level record.
pub proof fn lemma_top_level_frame(payload: Seq<u8>, tail: Seq<u8>)
    requires
        is_enclosed(payload),
        is_plain(tail),
    ensures
        top_level_records(seq![START_RECORD] + payload + seq![END_RECORD] + tail) == seq![
            payload,
        ],
{
    let opener = seq![START_RECORD];
    let closer = seq![END_RECORD];
    let start = scan_start();
    lemma_scan_one(start, START_RECORD);
    let opened = scan_bytes(start, opener);
    assert(opened == Scan { depth: 1, ..start });
    lemma_scan_concat(start, opener, payload);
    lemma_scan_enclosed(opened, payload);
    let inside = scan_bytes(start, opener + payload);
    assert(inside.open =~= payload);
    lemma_scan_concat(start, opener + payload, closer);
    lemma_scan_one(inside, END_RECORD);
    let closed = scan_bytes(start, opener + payload + closer);
    assert(closed == scan_byte(inside, END_RECORD));
    assert(closed.closed =~= seq![payload]);
    lemma_scan_concat(start, opener + payload + closer, tail);
    lemma_scan_stray(closed, tail);
}

/// A frame whose payload survives framing, followed by quiet bytes, is
/// sliced into the payload alone.
pub proof fn lemma_sliced_frame(payload: Seq<u8>, tail: Seq<u8>)
    requires
        survives_framing(payload),
        is_plain(tail),
    ensures
        sliced(seq![START_RECORD] + payload + seq![END_RECORD] + tail) == seq![payload],
{
    let buff = seq![START_RECORD] + payload + seq![END_RECORD] + tail;
    lemma_top_level_frame(payload, tail);
    if buff.contains(VALUE_DELIMITER) {
        let at = choose|i: int| 0 <= i < buff.len() && buff[i] == VALUE_DELIMITER;
        if at > payload.len() + 1 {
            assert(!is_framing_byte(tail[at - payload.len() - 2]));
        }
        assert(1 <= at <= payload.len());
        assert(payload[at - 1] == VALUE_DELIMITER);
        assert(payload.contains(VALUE_DELIMITER));
        let records = seq![payload];
        reveal_with_fuel(tagged_only, 2);
        assert(records.drop_last() =~= Seq::<Seq<u8>>::empty());
        assert(tagged_only(records) =~= records);
    }
}

/// Splitting two runs in a row is splitting the second from where the first
/// ended.
pub proof fn lemma_split_concat(split: Split, a: Seq<u8>, b: Seq<u8>)
    ensures
        split_bytes(split, a + b) == split_bytes(split_bytes(split, a), b),
    decreases b.len(),
{
    if b.len() == 0 {
        assert(a + b =~= a);
    } else {
        assert((a + b).drop_last() =~= a + b.drop_last());
        lemma_split_concat(split, a, b.drop_last());
    }
}

/// Inside a nested record, bytes that close no record of others all go to
/// the current field.
pub proof fn lemma_split_enclosed(split: Split, bytes: Seq<u8>)
    requires
        split.depth >= 1,
        nesting(bytes) is Some,
    ensures
        split_bytes(split, bytes) == (Split {
            depth: split.depth + nesting(bytes)->Some_0,
            field: split.field + bytes,
            fields: split.fields,
        }),
    decreases bytes.len(),
{
    if bytes.len() == 0 {
        assert(split.field + bytes =~= split.field);
    } else {
        lemma_split_enclosed(split, bytes.drop_last());
        assert((split.field + bytes.drop_last()).push(bytes.last()) =~= split.field + bytes);
    }
}

/// Outside of nested records, bytes without framing bytes all go to the
/// current field.
pub proof fn lemma_split_plain(split: Split, bytes: Seq<u8>)
    requires
        split.depth == 0,
        is_plain(bytes),
    ensures
        split_bytes(split, bytes) == (Split {
            depth: 0,
            field: split.field + bytes,
            fields: split.fields,
        }),
    decreases bytes.len(),
{
    if bytes.len() == 0 {
        assert(split.field + bytes =~= split.field);
    } else {
        lemma_split_plain(split, bytes.drop_last());
        assert((split.field + bytes.drop_last()).push(bytes.last()) =~= split.field + bytes);
    }
}

/// Outside of nested records, an atom all goes to the current field.
pub proof fn lemma_split_atom(split: Split, head: Seq<u8>, payload: Seq<u8>)
    requires
        split.depth == 0,
        is_plain(head),
        is_enclosed(payload),
    ensures
        split_bytes(split, atom(head, payload)) == (Split {
            depth: 0,
            field: split.field + atom(head, payload),
            fields: split.fields,
        }),
{
    let opener = seq![START_RECORD];
    let closer = seq![END_RECORD];
    lemma_split_plain(split, head);
    let after_head = split_bytes(split, head);
    lemma_split_concat(split, head, opener);
    lemma_split_one(after_head, START_RECORD);
    let opened = split_bytes(split, head + opener);
    assert(opened == split_byte(after_head, START_RECORD));
    lemma_split_concat(split, head + opener, payload);
    lemma_split_enclosed(opened, payload);
    let inside = split_bytes(split, head + opener + payload);
    lemma_split_concat(split, head + opener + payload, closer);
    lemma_split_one(inside, END_RECORD);
    let done = split_bytes(split, atom(head, payload));
    assert(done == split_byte(inside, END_RECORD));
    assert(done.field =~= split.field + atom(head, payload));
}

/// Outside of nested records, a `VALUE_DELIMITER` ends the current field.
pub proof fn lemma_split_delimiter(split: Split)
    requires
        split.depth == 0,
    ensures
        split_bytes(split, seq![VALUE_DELIMITER]) == (Split {
            depth: 0,
            field: Seq::empty(),
            fields: split.fields.push(split.field),
        }),
{
    lemma_split_one(split, VALUE_DELIMITER);
}

/// What holds of every scan of the bytes `buff`: every closed record is well
/// nested, the open record has closed none but its own, and a
/// `VALUE_DELIMITER` inside a record is one of `buff`.
pub open spec fn scan_is_sound(buff: Seq<u8>, scan: Scan) -> bool {
    &&& forall|i: int|
        0 <= i < scan.closed.len() ==> is_enclosed(#[trigger] scan.closed[i]) && (
        scan.closed[i].contains(VALUE_DELIMITER) ==> buff.contains(VALUE_DELIMITER))
    &&& scan.depth >= 1 ==> nesting(scan.open) == Some((scan.depth - 1) as nat) && (
    scan.open.contains(VALUE_DELIMITER) ==> buff.contains(VALUE_DELIMITER))
}

/// A `VALUE_DELIMITER` in a start of `buff` is one of `buff`.
pub proof fn lemma_delimiter_stays(buff: Seq<u8>)
    requires
        buff.len() > 0,
        buff.drop_last().contains(VALUE_DELIMITER),
    ensures
        buff.contains(VALUE_DELIMITER),
{
    let before = buff.drop_last();
    let at = choose|i: int| 0 <= i < before.len() && before[i] == VALUE_DELIMITER;
    assert(buff[at] == VALUE_DELIMITER);
}

/// The scan of any buffer is sound.
pub proof fn lemma_scan_is_sound(buff: Seq<u8>)
    ensures
        scan_is_sound(buff, scan_bytes(scan_start(), buff)),
    decreases buff.len(),
{
    let scan = scan_bytes(scan_start(), buff);
    if buff.len() > 0 {
        let before = buff.drop_last();
        let reached = scan_bytes(scan_start(), before);
        let byte = buff.last();
        lemma_scan_is_sound(before);
        if before.contains(VALUE_DELIMITER) {
            lemma_delimiter_stays(buff);
        }
        if byte == VALUE_DELIMITER {
            assert(buff[buff.len() - 1] == VALUE_DELIMITER);
        }
        if reached.depth >= 1 {
            if byte == END_RECORD && reached.depth == 1 {
                assert forall|i: int| 0 <= i < scan.closed.len() implies is_enclosed(
                    #[trigger] scan.closed[i],
                ) && (scan.closed[i].contains(VALUE_DELIMITER) ==> buff.contains(
                    VALUE_DELIMITER,
                )) by {
                    if i < reached.closed.len() {
                        assert(scan.closed[i] == reached.closed[i]);
                    }
                }
            } else {
                assert(scan.open.drop_last() =~= reached.open);
                if scan.open.contains(VALUE_DELIMITER) {
                    let at = choose|i: int|
                        0 <= i < scan.open.len() && scan.open[i] == VALUE_DELIMITER;
                    if at < reached.open.len() {
                        assert(reached.open[at] == VALUE_DELIMITER);
                    }
                }
            }
        }
    }
}

/// Every record that passes for tagged is one of the records and is tagged.
pub proof fn lemma_tagged_only_is_part(records: Seq<Seq<u8>>, record: Seq<u8>)
    requires
        tagged_only(records).contains(record),
    ensures
        records.contains(record),
        is_tagged(record),
    decreases records.len(),
{
    if records.len() > 0 {
        let kept = tagged_only(records);
        let at = choose|i: int| 0 <= i < kept.len() && kept[i] == record;
        if is_tagged(records.last()) && at == kept.len() - 1 {
            assert(records[records.len() - 1] == record);
        } else {
            assert(tagged_only(records.drop_last())[at] == record);
            lemma_tagged_only_is_part(records.drop_last(), record);
            let inner = choose|i: int|
                0 <= i < records.drop_last().len() && records.drop_last()[i] == record;
            assert(records[inner] == record);
        }
    }
}

/// Whatever the slicer returns survives framing: every record that it finds
/// in any buffer is well nested, and starts with a type tag if it holds a
/// `VALUE_DELIMITER`.
pub proof fn lemma_sliced_records_survive(buff: Seq<u8>, record: Seq<u8>)
    requires
        sliced(buff).contains(record),
    ensures
        survives_framing(record),
{
    let scan = scan_bytes(scan_start(), buff);
    let records = top_level_records(buff);
    lemma_scan_is_sound(buff);
    if buff.contains(VALUE_DELIMITER) {
        lemma_tagged_only_is_part(records, record);
    }
    let at = choose|i: int| 0 <= i < records.len() && records[i] == record;
    assert(scan.closed[at] == record);
}

} // verus!
