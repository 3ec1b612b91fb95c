//! What is written can be read back: the laws that tie the decoder to the
//! encoder.

use crate::decoder::{
    batch_ok, batch_span, batch_updates, decoded, first_record, item_at, item_ok, item_update,
    main_section, prefixed, ref_len_of, ref_seq_of, ref_ts_of, scan,
};
use crate::endian::{be_bytes, lemma_be_bytes_len, lemma_be_nat_of_be_bytes, lemma_radix_values};
use crate::layout::{
    anchor, batch_bytes, encodable, file_bytes, fill, fits, fits_anchor, flag_byte, has_magic,
    header_bytes, header_fields, header_ok, in_width, item_bytes, items_bytes,
    lemma_anchor_bounds, lemma_anchor_prefix, lemma_anchor_run, lemma_item_len, lemma_items_len,
    lemma_reference_len, magic, main_bytes, padded_symbol, padded_text, reference_bytes,
    stored_len, stored_max_ts, stored_symbol, BATCH_CAPACITY, FIELDS_END, ITEM_LEN, MAIN_OFFSET,
    SEQ_SPAN, SYMBOL_LEN, TS_SPAN,
};
use crate::update::{lemma_max_ts, max_ts};
use vstd::utf8::{
    encode_utf8, encode_utf8_decode_utf8, encode_utf8_valid_utf8, is_ascii_chars,
    is_ascii_chars_encode_utf8,
};
use crate::update::Update;
use vstd::prelude::*;

verus! {

/// A run of updates that one batch can hold: it is not empty, it has no
/// more updates than a reference record can count, and every update lies
/// at or after the first, within the width of the delta fields.
pub open spec fn batch_valid(b: Seq<Update>) -> bool {
    &&& 0 < b.len() <= BATCH_CAPACITY
    &&& forall|k: int|
        0 <= k < b.len() ==> fits(b[0].ts, b[0].seq, #[trigger] b[k]) && in_width(
            b[0].ts,
            b[0].seq,
            b[k],
        )
}

/// A delta record written for an update that fits its reference is well
/// formed, and reads back as that update.
pub proof fn lemma_item_roundtrip(u: Update, ref_ts: u32, ref_seq: u16)
    requires
        fits(ref_ts, ref_seq, u),
        in_width(ref_ts, ref_seq, u),
    ensures
        item_ok(item_bytes(u, ref_ts, ref_seq), ref_ts, ref_seq),
        item_update(item_bytes(u, ref_ts, ref_seq), ref_ts, ref_seq) == u,
{
    let item = item_bytes(u, ref_ts, ref_seq);
    let dts = (u.ts - ref_ts) as nat;
    lemma_radix_values();
    lemma_be_bytes_len(dts, 2);
    lemma_be_bytes_len(u.price as nat, 4);
    lemma_be_bytes_len(u.size as nat, 4);
    lemma_be_nat_of_be_bytes(dts, 2);
    lemma_be_nat_of_be_bytes(u.price as nat, 4);
    lemma_be_nat_of_be_bytes(u.size as nat, 4);
    assert(item.subrange(1, 3) =~= be_bytes(dts, 2));
    assert(item.subrange(6, 10) =~= be_bytes(u.price as nat, 4));
    assert(item.subrange(10, 14) =~= be_bytes(u.size as nat, 4));
    assert(item[0] == 0);
    assert(item[3] == (u.seq - ref_seq) as u8);
    assert(item[4] == flag_byte(u.is_trade));
    assert(item[5] == flag_byte(u.is_bid));
}

/// The `k`-th delta record of a run of records is the record of the
/// `k`-th update.
pub proof fn lemma_items_index(b: Seq<Update>, ref_ts: u32, ref_seq: u16, k: int)
    requires
        0 <= k < b.len(),
    ensures
        items_bytes(b, ref_ts, ref_seq).len() == ITEM_LEN * b.len(),
        items_bytes(b, ref_ts, ref_seq).subrange(ITEM_LEN * k, ITEM_LEN * (k + 1)) == item_bytes(
            b[k],
            ref_ts,
            ref_seq,
        ),
    decreases b.len(),
{
    let all = items_bytes(b, ref_ts, ref_seq);
    let init = items_bytes(b.drop_last(), ref_ts, ref_seq);
    let last = item_bytes(b.last(), ref_ts, ref_seq);
    lemma_items_len(b, ref_ts, ref_seq);
    lemma_items_len(b.drop_last(), ref_ts, ref_seq);
    lemma_item_len(b.last(), ref_ts, ref_seq);
    if k == b.len() - 1 {
        assert(all.subrange(ITEM_LEN * k, ITEM_LEN * (k + 1)) =~= last);
    } else {
        lemma_items_index(b.drop_last(), ref_ts, ref_seq, k);
        assert(all.subrange(ITEM_LEN * k, ITEM_LEN * (k + 1)) =~= init.subrange(
            ITEM_LEN * k,
            ITEM_LEN * (k + 1),
        ));
    }
}

/// Bytes that start with the encoding of a batch start with a
/// well-formed batch: its updates are those that were encoded, and it
/// ends where the encoding ends.
pub proof fn lemma_batch_roundtrip(b: Seq<Update>, tail: Seq<u8>)
    requires
        batch_valid(b),
    ensures
        (batch_bytes(b) + tail)[0] == 1,
        batch_ok(batch_bytes(b) + tail),
        batch_updates(batch_bytes(b) + tail) == b,
        batch_span(batch_bytes(b) + tail) == batch_bytes(b).len(),
{
    let ref_ts = b[0].ts;
    let ref_seq = b[0].seq;
    let n = b.len() as u16;
    let r = reference_bytes(ref_ts, ref_seq, n);
    let items = items_bytes(b, ref_ts, ref_seq);
    let s = batch_bytes(b) + tail;
    lemma_radix_values();
    lemma_reference_len(ref_ts, ref_seq, n);
    lemma_items_len(b, ref_ts, ref_seq);
    lemma_be_bytes_len(ref_ts as nat, 4);
    lemma_be_bytes_len(ref_seq as nat, 2);
    lemma_be_bytes_len(n as nat, 2);
    lemma_be_nat_of_be_bytes(ref_ts as nat, 4);
    lemma_be_nat_of_be_bytes(ref_seq as nat, 2);
    lemma_be_nat_of_be_bytes(n as nat, 2);
    assert(s.subrange(1, 5) =~= be_bytes(ref_ts as nat, 4));
    assert(s.subrange(5, 7) =~= be_bytes(ref_seq as nat, 2));
    assert(s.subrange(7, 9) =~= be_bytes(n as nat, 2));
    assert(ref_ts_of(s) == ref_ts);
    assert(ref_seq_of(s) == ref_seq);
    assert(ref_len_of(s) == b.len());
    assert forall|k: int| 0 <= k < b.len() implies #[trigger] item_at(s, k) == item_bytes(
        b[k],
        ref_ts,
        ref_seq,
    ) by {
        lemma_items_index(b, ref_ts, ref_seq, k);
        assert(item_at(s, k) =~= items.subrange(ITEM_LEN * k, ITEM_LEN * (k + 1)));
    }
    assert forall|k: int| 0 <= k < ref_len_of(s) implies item_ok(
        #[trigger] item_at(s, k),
        ref_ts_of(s),
        ref_seq_of(s),
    ) && item_update(item_at(s, k), ref_ts_of(s), ref_seq_of(s)) == b[k] by {
        lemma_item_roundtrip(b[k], ref_ts, ref_seq);
    }
    assert(batch_updates(s) =~= b);
}

/// A well-formed batch stays the same batch when more bytes follow it.
pub proof fn lemma_batch_extend(x: Seq<u8>, y: Seq<u8>)
    requires
        batch_ok(x),
    ensures
        batch_ok(x + y),
        batch_updates(x + y) == batch_updates(x),
        batch_span(x + y) == batch_span(x),
{
    let s = x + y;
    assert(s.subrange(1, 5) =~= x.subrange(1, 5));
    assert(s.subrange(5, 7) =~= x.subrange(5, 7));
    assert(s.subrange(7, 9) =~= x.subrange(7, 9));
    assert forall|k: int| 0 <= k < ref_len_of(x) implies #[trigger] item_at(s, k) == item_at(
        x,
        k,
    ) by {
        assert(item_at(s, k) =~= item_at(x, k));
    }
    assert forall|k: int| 0 <= k < ref_len_of(s) implies item_ok(
        #[trigger] item_at(s, k),
        ref_ts_of(s),
        ref_seq_of(s),
    ) by {
        assert(item_ok(item_at(x, k), ref_ts_of(x), ref_seq_of(x)));
    }
    assert(batch_updates(s) =~= batch_updates(x));
}

/// Reading two main sections laid end to end gives the updates of the
/// first, then those of the second, provided the first can be read.
pub proof fn lemma_scan_concat(x: Seq<u8>, y: Seq<u8>)
    requires
        scan(x) is Some,
    ensures
        scan(x + y) == prefixed(scan(x).unwrap(), scan(y)),
    decreases x.len(),
{
    let s = x + y;
    if x.len() == 0 {
        assert(s =~= y);
        if scan(y) is Some {
            assert(Seq::<Update>::empty() + scan(y).unwrap() =~= scan(y).unwrap());
        }
    } else if x[0] != 1 {
        assert(s.skip(1) =~= x.skip(1) + y);
        lemma_scan_concat(x.skip(1), y);
    } else {
        let n = batch_span(x);
        lemma_batch_extend(x, y);
        assert(s.skip(n) =~= x.skip(n) + y);
        lemma_scan_concat(x.skip(n), y);
        let head = batch_updates(x);
        let mid = scan(x.skip(n)).unwrap();
        if scan(y) is Some {
            assert(head + (mid + scan(y).unwrap()) =~= (head + mid) + scan(y).unwrap());
        }
    }
}

/// The last batch of updates that can be stored is a run that one batch
/// can hold, and what comes before it can be stored too.
pub proof fn lemma_last_batch(ups: Seq<Update>)
    requires
        ups.len() > 0,
        encodable(ups),
    ensures
        0 <= anchor(ups, ups.len() - 1) < ups.len(),
        batch_valid(ups.skip(anchor(ups, ups.len() - 1))),
        encodable(ups.take(anchor(ups, ups.len() - 1))),
{
    let last = ups.len() - 1;
    let a = anchor(ups, last);
    let b = ups.skip(a);
    lemma_anchor_bounds(ups, last);
    assert forall|k: int| 0 <= k < b.len() implies fits(b[0].ts, b[0].seq, #[trigger] b[k])
        && in_width(b[0].ts, b[0].seq, b[k]) by {
        lemma_anchor_run(ups, last, a + k);
        assert(fits_anchor(ups, a + k));
        if k > 0 {
            lemma_anchor_bounds(ups, a + k - 1);
        }
    }
    assert(b.len() <= BATCH_CAPACITY) by {
        lemma_anchor_run(ups, last, last);
        if last > a {
            lemma_anchor_bounds(ups, last - 1);
        }
    }
    assert forall|i: int| 0 <= i < a implies #[trigger] fits_anchor(ups.take(a), i) by {
        lemma_anchor_prefix(ups, a, i);
        lemma_anchor_bounds(ups, i);
        assert(fits_anchor(ups, i));
    }
}

/// Reading the main section written for `ups` gives `ups`.
pub proof fn lemma_main_roundtrip(ups: Seq<Update>)
    requires
        encodable(ups),
    ensures
        scan(main_bytes(ups)) == Some(ups),
    decreases ups.len(),
{
    if ups.len() > 0 {
        let a = anchor(ups, ups.len() - 1);
        let front = ups.take(a);
        let back = ups.skip(a);
        lemma_last_batch(ups);
        lemma_main_roundtrip(front);
        lemma_scan_batch(back);
        lemma_scan_concat(main_bytes(front), batch_bytes(back));
        assert(front + back =~= ups);
    }
}

/// Reading the encoding of one batch gives its updates.
pub proof fn lemma_scan_batch(b: Seq<Update>)
    requires
        batch_valid(b),
    ensures
        scan(batch_bytes(b)) == Some(b),
{
    let s = batch_bytes(b);
    lemma_batch_roundtrip(b, Seq::empty());
    assert(s + Seq::<u8>::empty() =~= s);
    assert(s.skip(s.len() as int) =~= Seq::<u8>::empty());
    assert(scan(Seq::<u8>::empty()) == Some(Seq::<Update>::empty()));
    assert(b + Seq::<Update>::empty() =~= b);
}

/// The UTF-8 bytes of two texts laid end to end are the bytes of the
/// first, then those of the second.
pub proof fn lemma_encode_concat(a: Seq<char>, b: Seq<char>)
    ensures
        encode_utf8(a + b) == encode_utf8(a) + encode_utf8(b),
    decreases a.len(),
{
    if a.len() == 0 {
        assert(a + b =~= b);
        assert(encode_utf8(a) + encode_utf8(b) =~= encode_utf8(b));
    } else {
        lemma_encode_concat(a.drop_first(), b);
        assert((a + b).drop_first() =~= a.drop_first() + b);
        assert(encode_utf8(a + b) =~= encode_utf8(a) + encode_utf8(b));
    }
}

/// The stored symbol is the UTF-8 encoding of the padded text.
pub proof fn lemma_padded_symbol(symbol: Seq<char>)
    requires
        encode_utf8(symbol).len() <= SYMBOL_LEN,
    ensures
        padded_symbol(symbol) == encode_utf8(padded_text(symbol)),
        padded_symbol(symbol).len() == SYMBOL_LEN,
{
    let n = (SYMBOL_LEN - encode_utf8(symbol).len()) as nat;
    let spaces = Seq::new(n, |i: int| ' ');
    lemma_encode_concat(symbol, spaces);
    assert(is_ascii_chars(spaces));
    is_ascii_chars_encode_utf8(spaces);
    assert(encode_utf8(spaces) =~= fill(0x20, n));
}

/// The header written for a symbol, a count and a timestamp reads back as
/// the padded symbol, that count and that timestamp, whatever main section
/// follows it; and the main section found behind it is the one that was
/// put there.
pub proof fn lemma_header_roundtrip(symbol: Seq<char>, count: nat, max: u32, main: Seq<u8>)
    requires
        encode_utf8(symbol).len() <= SYMBOL_LEN,
    ensures
        header_bytes(symbol, count, max).len() == MAIN_OFFSET,
        header_ok(header_bytes(symbol, count, max) + main),
        stored_symbol(header_bytes(symbol, count, max) + main) == Some(padded_text(symbol)),
        count <= u64::MAX ==> stored_len(header_bytes(symbol, count, max) + main) == Some(
            count as u64,
        ),
        stored_max_ts(header_bytes(symbol, count, max) + main) == Some(max),
        main_section(header_bytes(symbol, count, max) + main) == main,
{
    let file = header_bytes(symbol, count, max) + main;
    lemma_padded_symbol(symbol);
    lemma_radix_values();
    lemma_be_bytes_len(count, 8);
    lemma_be_bytes_len(max as nat, 4);
    lemma_be_nat_of_be_bytes(max as nat, 4);
    if count <= u64::MAX {
        lemma_be_nat_of_be_bytes(count, 8);
    }
    encode_utf8_valid_utf8(padded_text(symbol));
    encode_utf8_decode_utf8(padded_text(symbol));
    assert(header_fields(symbol, count, max).len() == FIELDS_END);
    assert(file.take(5) =~= magic());
    assert(file.subrange(5, 14) =~= padded_symbol(symbol));
    assert(file.subrange(14, 22) =~= be_bytes(count, 8));
    assert(file.subrange(22, 26) =~= be_bytes(max as nat, 4));
    assert(file.skip(MAIN_OFFSET as int) =~= main);
}

/// The main section written for updates that can be stored opens with a
/// batch whose first update is the first of them.
pub proof fn lemma_first_batch(ups: Seq<Update>)
    requires
        ups.len() > 0,
        encodable(ups),
    ensures
        main_bytes(ups).len() > 0,
        main_bytes(ups)[0] == 1,
        batch_ok(main_bytes(ups)),
        batch_updates(main_bytes(ups)).len() > 0,
        batch_updates(main_bytes(ups))[0] == ups[0],
    decreases ups.len(),
{
    let a = anchor(ups, ups.len() - 1);
    let front = ups.take(a);
    let back = ups.skip(a);
    lemma_last_batch(ups);
    if a == 0 {
        lemma_batch_roundtrip(back, Seq::empty());
        assert(main_bytes(front) =~= Seq::<u8>::empty());
        assert(batch_bytes(back) + Seq::<u8>::empty() =~= batch_bytes(back));
        assert(main_bytes(ups) =~= batch_bytes(back));
    } else {
        lemma_first_batch(front);
        lemma_batch_extend(main_bytes(front), batch_bytes(back));
    }
}

/// Round trip: a file written for updates that can be stored reads back
/// as exactly those updates, in the same order.
pub proof fn lemma_file_roundtrip(symbol: Seq<char>, ups: Seq<Update>)
    requires
        encode_utf8(symbol).len() <= SYMBOL_LEN,
        encodable(ups),
    ensures
        decoded(file_bytes(symbol, ups)) == Some(ups),
{
    lemma_header_roundtrip(symbol, ups.len(), max_ts(ups), main_bytes(ups));
    lemma_main_roundtrip(ups);
}

/// Whether both the sequence numbers and the timestamps of `ups` never
/// decrease from one update to the next.
pub open spec fn ascending(ups: Seq<Update>) -> bool {
    forall|i: int, j: int|
        0 <= i <= j < ups.len() ==> (#[trigger] ups[i]).seq <= (#[trigger] ups[j]).seq && ups[i].ts
            <= ups[j].ts
}

/// Updates sorted by sequence number whose timestamps never decrease can
/// be stored.
pub proof fn lemma_ascending_encodable(ups: Seq<Update>)
    requires
        ascending(ups),
    ensures
        encodable(ups),
{
    assert forall|i: int| 0 <= i < ups.len() implies #[trigger] fits_anchor(ups, i) by {
        lemma_anchor_bounds(ups, i);
    }
}

/// Round trip for sorted input: updates sorted by sequence number, with
/// timestamps that never decrease, read back from the file written for
/// them exactly as they were given.
pub proof fn lemma_sorted_roundtrip(symbol: Seq<char>, ups: Seq<Update>)
    requires
        encode_utf8(symbol).len() <= SYMBOL_LEN,
        ascending(ups),
    ensures
        encodable(ups),
        decoded(file_bytes(symbol, ups)) == Some(ups),
{
    lemma_ascending_encodable(ups);
    lemma_file_roundtrip(symbol, ups);
}

/// Header integrity: the header of a written file stores the number of
/// updates, their largest timestamp, and the symbol padded with spaces to
/// `SYMBOL_LEN` bytes.
pub proof fn lemma_header_integrity(symbol: Seq<char>, ups: Seq<Update>)
    requires
        encode_utf8(symbol).len() <= SYMBOL_LEN,
        ups.len() <= u64::MAX,
    ensures
        stored_len(file_bytes(symbol, ups)) == Some(ups.len() as u64),
        stored_max_ts(file_bytes(symbol, ups)) == Some(max_ts(ups)),
        forall|i: int| 0 <= i < ups.len() ==> (#[trigger] ups[i]).ts <= max_ts(ups),
        ups.len() > 0 ==> exists|i: int| 0 <= i < ups.len() && (#[trigger] ups[i]).ts == max_ts(ups),
        stored_symbol(file_bytes(symbol, ups)) == Some(padded_text(symbol)),
        encode_utf8(padded_text(symbol)).len() == SYMBOL_LEN,
{
    lemma_header_roundtrip(symbol, ups.len(), max_ts(ups), main_bytes(ups));
    lemma_padded_symbol(symbol);
    lemma_max_ts(ups);
}

/// First-record access: the first record of a written file is the first
/// of the updates; a file written for no updates has no first record.
pub proof fn lemma_first_record(symbol: Seq<char>, ups: Seq<Update>)
    requires
        encode_utf8(symbol).len() <= SYMBOL_LEN,
        encodable(ups),
    ensures
        first_record(file_bytes(symbol, ups)) == if ups.len() > 0 {
            Some(ups[0])
        } else {
            None
        },
{
    lemma_header_roundtrip(symbol, ups.len(), max_ts(ups), main_bytes(ups));
    if ups.len() > 0 {
        lemma_first_batch(ups);
    }
}

/// First-record access for sorted input: the first record of the file
/// is the first update given, and no update has a smaller sequence number.
pub proof fn lemma_sorted_first_record(symbol: Seq<char>, ups: Seq<Update>)
    requires
        encode_utf8(symbol).len() <= SYMBOL_LEN,
        ascending(ups),
        ups.len() > 0,
    ensures
        first_record(file_bytes(symbol, ups)) == Some(ups[0]),
        forall|j: int| 0 <= j < ups.len() ==> ups[0].seq <= (#[trigger] ups[j]).seq,
{
    lemma_ascending_encodable(ups);
    lemma_first_record(symbol, ups);
}

/// The anchors of later updates are never earlier.
pub proof fn lemma_anchor_monotone(ups: Seq<Update>, i: int, k: int)
    requires
        0 <= i <= k,
    ensures
        anchor(ups, i) <= anchor(ups, k),
    decreases k - i,
{
    if i < k {
        lemma_anchor_monotone(ups, i, k - 1);
        lemma_anchor_bounds(ups, k - 1);
    }
}

/// Batch boundary: an update that lies `TS_SPAN` or more in time, or
/// `SEQ_SPAN` or more in sequence, beyond the reference of an earlier
/// update's batch is stored in a later batch, so the main section holds
/// more than one batch: its last batch is not its first.
pub proof fn lemma_far_apart_split(ups: Seq<Update>, i: int, k: int)
    requires
        0 <= i <= k < ups.len(),
        ups[k].ts - ups[anchor(ups, i)].ts >= TS_SPAN || ups[k].seq - ups[anchor(ups, i)].seq
            >= SEQ_SPAN,
    ensures
        anchor(ups, i) < anchor(ups, k),
        0 < anchor(ups, ups.len() - 1),
{
    lemma_anchor_monotone(ups, i, k);
    lemma_anchor_monotone(ups, k, ups.len() - 1);
    lemma_anchor_bounds(ups, i);
    if k > 0 {
        lemma_anchor_bounds(ups, k - 1);
        lemma_anchor_monotone(ups, i, k - 1);
    }
}

/// Magic mismatch: a file that does not open with the magic value stores
/// nothing that can be read.
pub proof fn lemma_bad_magic(file: Seq<u8>)
    requires
        !has_magic(file),
    ensures
        decoded(file) is None,
{
}

} // verus!
