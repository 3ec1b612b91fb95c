//! The byte layout of a file: the fixed header, then the main section, a
//! run of batches. Each batch is a reference record followed by the delta
//! records that are stored relative to it.

use crate::endian::{be_bytes, be_nat, lemma_be_bytes_len};
use crate::update::{max_ts, Update};
use vstd::prelude::*;
use vstd::utf8::{decode_utf8, encode_utf8, valid_utf8};

verus! {

/// Length of the magic value that opens every file.
pub const MAGIC_LEN: usize = 5;

/// Length of the stored symbol.
pub const SYMBOL_LEN: usize = 9;

/// Offset of the stored symbol.
pub const SYMBOL_OFFSET: usize = 5;

/// Offset of the record count.
pub const LEN_OFFSET: usize = 14;

/// Offset of the largest timestamp.
pub const MAX_TS_OFFSET: usize = 22;

/// Offset of the first byte after the header fields.
pub const FIELDS_END: usize = 26;

/// Offset at which the main section starts.
pub const MAIN_OFFSET: usize = 80;

/// Length of a reference record.
pub const REFERENCE_LEN: usize = 9;

/// Length of an update stored relative to a reference.
pub const DELTA_LEN: usize = 13;

/// Length of a delta record: a flag byte, then the stored update.
pub const ITEM_LEN: usize = 14;

/// A batch holds only updates whose timestamp is less than this far from
/// the reference timestamp.
pub const TS_SPAN: u32 = 65535;

/// A batch holds only updates whose sequence number is less than this far
/// from the reference sequence number.
pub const SEQ_SPAN: u16 = 255;

/// The largest number of delta records that one reference record can count.
pub const BATCH_CAPACITY: u16 = 65535;

/// The magic value: the bytes that identify the format and its version.
pub const MAGIC_VALUE: [u8; 5] = [0x44, 0x54, 0x46, 0x90, 0x01];

/// The magic value as a sequence of bytes.
pub open spec fn magic() -> Seq<u8> {
    MAGIC_VALUE@
}

/// The byte that stores a boolean.
pub open spec fn flag_byte(b: bool) -> u8 {
    if b {
        1
    } else {
        0
    }
}

/// `n` copies of `b`.
pub open spec fn fill(b: u8, n: nat) -> Seq<u8> {
    Seq::new(n, |i: int| b)
}

/// The symbol as stored: its UTF-8 bytes, padded on the right with spaces
/// to `SYMBOL_LEN` bytes.
pub open spec fn padded_symbol(symbol: Seq<char>) -> Seq<u8> {
    encode_utf8(symbol) + fill(0x20, (SYMBOL_LEN - encode_utf8(symbol).len()) as nat)
}

/// The symbol as text, padded on the right with spaces until its UTF-8
/// bytes number `SYMBOL_LEN`: what a reader gets back.
pub open spec fn padded_text(symbol: Seq<char>) -> Seq<char> {
    symbol + Seq::new((SYMBOL_LEN - encode_utf8(symbol).len()) as nat, |i: int| ' ')
}

/// The fields of the header, from the magic value to the largest timestamp.
pub open spec fn header_fields(symbol: Seq<char>, count: nat, max: u32) -> Seq<u8> {
    magic() + padded_symbol(symbol) + be_bytes(count, 8) + be_bytes(max as nat, 4)
}

/// The whole header: its fields, then zeros up to the main section.
pub open spec fn header_bytes(symbol: Seq<char>, count: nat, max: u32) -> Seq<u8> {
    header_fields(symbol, count, max) + fill(0, (MAIN_OFFSET - FIELDS_END) as nat)
}

/// Whether `file` opens with the magic value.
pub open spec fn has_magic(file: Seq<u8>) -> bool {
    file.len() >= MAGIC_LEN && file.take(MAGIC_LEN as int) == magic()
}

/// The `len` bytes of `file` at `offset`, if the file reaches that far.
pub open spec fn field(file: Seq<u8>, offset: int, len: int) -> Option<Seq<u8>> {
    if offset + len <= file.len() {
        Some(file.subrange(offset, offset + len))
    } else {
        None
    }
}

/// The symbol that the header of `file` stores, padding included, if the
/// file reaches that far and the bytes are text.
pub open spec fn stored_symbol(file: Seq<u8>) -> Option<Seq<char>> {
    match field(file, SYMBOL_OFFSET as int, SYMBOL_LEN as int) {
        Some(b) => if valid_utf8(b) {
            Some(decode_utf8(b))
        } else {
            None
        },
        None => None,
    }
}

/// The record count that the header of `file` stores.
pub open spec fn stored_len(file: Seq<u8>) -> Option<u64> {
    match field(file, LEN_OFFSET as int, 8) {
        Some(b) => Some(be_nat(b) as u64),
        None => None,
    }
}

/// The largest timestamp that the header of `file` stores.
pub open spec fn stored_max_ts(file: Seq<u8>) -> Option<u32> {
    match field(file, MAX_TS_OFFSET as int, 4) {
        Some(b) => Some(be_nat(b) as u32),
        None => None,
    }
}

/// Whether the header of `file` can be read: the magic value is there, and
/// so is every field, the symbol being text.
pub open spec fn header_ok(file: Seq<u8>) -> bool {
    has_magic(file) && stored_symbol(file) is Some && stored_len(file) is Some && stored_max_ts(
        file,
    ) is Some
}

/// A reference record.
pub open spec fn reference_bytes(ref_ts: u32, ref_seq: u16, len: u16) -> Seq<u8> {
    seq![1u8] + be_bytes(ref_ts as nat, 4) + be_bytes(ref_seq as nat, 2) + be_bytes(len as nat, 2)
}

/// The `DELTA_LEN` bytes that store `u` relative to a reference.
pub open spec fn delta_bytes(u: Update, ref_ts: u32, ref_seq: u16) -> Seq<u8> {
    be_bytes((u.ts - ref_ts) as nat, 2) + seq![(u.seq - ref_seq) as u8] + seq![
        flag_byte(u.is_trade),
        flag_byte(u.is_bid),
    ] + be_bytes(u.price as nat, 4) + be_bytes(u.size as nat, 4)
}

/// A delta record: a zero flag byte, then the update relative to a reference.
pub open spec fn item_bytes(u: Update, ref_ts: u32, ref_seq: u16) -> Seq<u8> {
    seq![0u8] + delta_bytes(u, ref_ts, ref_seq)
}

/// The delta records of `ups`, in order, all relative to one reference.
pub open spec fn items_bytes(ups: Seq<Update>, ref_ts: u32, ref_seq: u16) -> Seq<u8>
    decreases ups.len(),
{
    if ups.len() == 0 {
        Seq::empty()
    } else {
        items_bytes(ups.drop_last(), ref_ts, ref_seq) + item_bytes(ups.last(), ref_ts, ref_seq)
    }
}

/// One batch: the reference record taken from the first update, then every
/// update of the batch, the first included, as a delta record.
pub open spec fn batch_bytes(batch: Seq<Update>) -> Seq<u8> {
    reference_bytes(batch[0].ts, batch[0].seq, batch.len() as u16) + items_bytes(
        batch,
        batch[0].ts,
        batch[0].seq,
    )
}

/// Whether `u` must open a new batch, when the current batch has the
/// reference `(ref_ts, ref_seq)` and already holds `count` records: it is
/// too far from the reference, or the batch is full.
pub open spec fn splits(ref_ts: u32, ref_seq: u16, count: int, u: Update) -> bool {
    u.ts - ref_ts >= TS_SPAN || u.seq - ref_seq >= SEQ_SPAN || count >= BATCH_CAPACITY
}

/// Whether `u` lies at or after the reference `(ref_ts, ref_seq)`, both in
/// time and in sequence.
pub open spec fn fits(ref_ts: u32, ref_seq: u16, u: Update) -> bool {
    ref_ts <= u.ts && ref_seq <= u.seq
}

/// Whether the distances of `u` from the reference are small enough for
/// the fields that store them.
pub open spec fn in_width(ref_ts: u32, ref_seq: u16, u: Update) -> bool {
    u.ts - ref_ts <= 0xffff && u.seq - ref_seq <= 0xff
}

/// The index of the update that anchors the batch of `ups[i]`: batches are
/// formed greedily from the front, each as long as `splits` allows.
pub open spec fn anchor(ups: Seq<Update>, i: int) -> int
    decreases i,
{
    if i <= 0 {
        0
    } else {
        let a = anchor(ups, i - 1);
        if splits(ups[a].ts, ups[a].seq, i - a, ups[i]) {
            i
        } else {
            a
        }
    }
}

/// Whether `ups[i]` can be stored relative to the anchor of its batch.
pub open spec fn fits_anchor(ups: Seq<Update>, i: int) -> bool {
    fits(ups[anchor(ups, i)].ts, ups[anchor(ups, i)].seq, ups[i])
}

/// Whether the format can store `ups` in this order: no update precedes
/// the reference of its batch in time or in sequence.
pub open spec fn encodable(ups: Seq<Update>) -> bool {
    forall|i: int| 0 <= i < ups.len() ==> #[trigger] fits_anchor(ups, i)
}

/// What a writer holds once it is positioned at the main section: its
/// first `MAIN_OFFSET` bytes, with zeros for those it did not have.
pub open spec fn up_to_main(written: Seq<u8>) -> Seq<u8> {
    if written.len() >= MAIN_OFFSET {
        written.take(MAIN_OFFSET as int)
    } else {
        written + fill(0, (MAIN_OFFSET - written.len()) as nat)
    }
}

/// The main section for `ups`: what comes before the last batch, encoded
/// the same way, then the last batch.
pub open spec fn main_bytes(ups: Seq<Update>) -> Seq<u8>
    decreases ups.len(),
{
    if ups.len() == 0 {
        Seq::empty()
    } else {
        let a = anchor(ups, ups.len() - 1);
        proof {
            lemma_anchor_bounds(ups, ups.len() - 1);
        }
        main_bytes(ups.take(a)) + batch_bytes(ups.skip(a))
    }
}

/// The whole file for `ups` under `symbol`.
pub open spec fn file_bytes(symbol: Seq<char>, ups: Seq<Update>) -> Seq<u8> {
    header_bytes(symbol, ups.len(), max_ts(ups)) + main_bytes(ups)
}

/// An anchor lies at or before the update it anchors.
pub proof fn lemma_anchor_bounds(ups: Seq<Update>, i: int)
    requires
        0 <= i,
    ensures
        0 <= anchor(ups, i) <= i,
    decreases i,
{
    if i > 0 {
        lemma_anchor_bounds(ups, i - 1);
    }
}

/// The anchor of an update depends only on the updates up to it.
pub proof fn lemma_anchor_prefix(ups: Seq<Update>, n: int, i: int)
    requires
        0 <= i < n <= ups.len(),
    ensures
        anchor(ups.take(n), i) == anchor(ups, i),
    decreases i,
{
    if i > 0 {
        lemma_anchor_prefix(ups, n, i - 1);
        lemma_anchor_bounds(ups, i - 1);
    }
}

/// Every update from an anchor up to the update it anchors has that anchor.
pub proof fn lemma_anchor_run(ups: Seq<Update>, i: int, k: int)
    requires
        0 <= i,
        anchor(ups, i) <= k <= i,
    ensures
        anchor(ups, k) == anchor(ups, i),
    decreases i - k,
{
    if k < i {
        lemma_anchor_bounds(ups, i - 1);
        if anchor(ups, i) == i {
        } else {
            lemma_anchor_run(ups, i - 1, k);
        }
    }
}

/// A run of delta records takes `ITEM_LEN` bytes for each update.
pub proof fn lemma_items_len(ups: Seq<Update>, ref_ts: u32, ref_seq: u16)
    ensures
        items_bytes(ups, ref_ts, ref_seq).len() == ITEM_LEN * ups.len(),
    decreases ups.len(),
{
    if ups.len() > 0 {
        lemma_items_len(ups.drop_last(), ref_ts, ref_seq);
        lemma_item_len(ups.last(), ref_ts, ref_seq);
    }
}

/// A delta record takes `ITEM_LEN` bytes, `DELTA_LEN` of them behind the flag.
pub proof fn lemma_item_len(u: Update, ref_ts: u32, ref_seq: u16)
    ensures
        item_bytes(u, ref_ts, ref_seq).len() == ITEM_LEN,
        delta_bytes(u, ref_ts, ref_seq).len() == DELTA_LEN,
{
    lemma_be_bytes_len((u.ts - ref_ts) as nat, 2);
    lemma_be_bytes_len(u.price as nat, 4);
    lemma_be_bytes_len(u.size as nat, 4);
}

/// A reference record takes `REFERENCE_LEN` bytes.
pub proof fn lemma_reference_len(ref_ts: u32, ref_seq: u16, len: u16)
    ensures
        reference_bytes(ref_ts, ref_seq, len).len() == REFERENCE_LEN,
{
    lemma_be_bytes_len(ref_ts as nat, 4);
    lemma_be_bytes_len(ref_seq as nat, 2);
    lemma_be_bytes_len(len as nat, 2);
}

/// The main section of the first `i` updates ends with their last batch.
pub proof fn lemma_main_bytes_prefix(ups: Seq<Update>, i: int)
    requires
        0 < i <= ups.len(),
    ensures
        main_bytes(ups.take(i)) == main_bytes(ups.take(anchor(ups, i - 1))) + batch_bytes(
            ups.subrange(anchor(ups, i - 1), i),
        ),
{
    let a = anchor(ups, i - 1);
    lemma_anchor_bounds(ups, i - 1);
    lemma_anchor_prefix(ups, i, i - 1);
    assert(ups.take(i).take(a) =~= ups.take(a));
    assert(ups.take(i).skip(a) =~= ups.subrange(a, i));
}

} // verus!
