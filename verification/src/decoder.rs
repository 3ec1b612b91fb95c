//! Reading the main section: batches are found by their leading flag byte,
//! and every delta record is turned back into an absolute update.

use crate::endian::be_nat;
use crate::error::DtfError;
use crate::header::{file_reader, read_len, read_max_ts, read_symbol};
use crate::layout::{has_magic, header_ok, ITEM_LEN, MAIN_OFFSET, REFERENCE_LEN};
use crate::reader::Reader;
use crate::update::Update;
use vstd::prelude::*;

verus! {

/// Whether the delta record `item` is well formed relative to the
/// reference: its flag byte is zero, and adding its distances to the
/// reference stays within the range of a timestamp and a sequence number.
pub open spec fn item_ok(item: Seq<u8>, ref_ts: u32, ref_seq: u16) -> bool {
    item[0] == 0 && ref_ts + be_nat(item.subrange(1, 3)) <= u32::MAX && ref_seq + item[3]
        <= u16::MAX
}

/// The update that the delta record `item` stores relative to the reference.
pub open spec fn item_update(item: Seq<u8>, ref_ts: u32, ref_seq: u16) -> Update {
    Update {
        ts: (ref_ts + be_nat(item.subrange(1, 3))) as u32,
        seq: (ref_seq + item[3]) as u16,
        is_trade: item[4] == 1,
        is_bid: item[5] == 1,
        price: be_nat(item.subrange(6, 10)) as u32,
        size: be_nat(item.subrange(10, 14)) as u32,
    }
}

/// The timestamp of the reference record at the start of `s`.
pub open spec fn ref_ts_of(s: Seq<u8>) -> u32 {
    be_nat(s.subrange(1, 5)) as u32
}

/// The sequence number of the reference record at the start of `s`.
pub open spec fn ref_seq_of(s: Seq<u8>) -> u16 {
    be_nat(s.subrange(5, 7)) as u16
}

/// The number of delta records that the reference record at the start of
/// `s` announces.
pub open spec fn ref_len_of(s: Seq<u8>) -> nat {
    be_nat(s.subrange(7, 9))
}

/// The `k`-th delta record after the reference record at the start of `s`.
pub open spec fn item_at(s: Seq<u8>, k: int) -> Seq<u8> {
    s.subrange(REFERENCE_LEN + ITEM_LEN * k, REFERENCE_LEN + ITEM_LEN * (k + 1))
}

/// The number of bytes of the batch at the start of `s`.
pub open spec fn batch_span(s: Seq<u8>) -> int {
    REFERENCE_LEN + ITEM_LEN * ref_len_of(s)
}

/// Whether `s` starts with a complete, well-formed batch.
pub open spec fn batch_ok(s: Seq<u8>) -> bool {
    &&& s.len() >= REFERENCE_LEN
    &&& s.len() >= batch_span(s)
    &&& forall|k: int|
        0 <= k < ref_len_of(s) ==> item_ok(#[trigger] item_at(s, k), ref_ts_of(s), ref_seq_of(s))
}

/// The updates of the batch at the start of `s`.
pub open spec fn batch_updates(s: Seq<u8>) -> Seq<Update> {
    Seq::new(ref_len_of(s), |k: int| item_update(item_at(s, k), ref_ts_of(s), ref_seq_of(s)))
}

/// What reading one batch from `s` gives: the updates and the number of
/// bytes read. A leading byte other than the reference flag is read as a
/// batch without updates.
pub open spec fn one_batch(s: Seq<u8>) -> Option<(Seq<Update>, int)> {
    if s.len() == 0 {
        None
    } else if s[0] != 1 {
        Some((Seq::empty(), 1))
    } else if batch_ok(s) {
        Some((batch_updates(s), batch_span(s)))
    } else {
        None
    }
}

/// `head` followed by `tail`, if there is a `tail`.
pub open spec fn prefixed(head: Seq<Update>, tail: Option<Seq<Update>>) -> Option<Seq<Update>> {
    match tail {
        Some(t) => Some(head + t),
        None => None,
    }
}

/// The updates of the main section `s`: those of every batch, in file
/// order. Bytes between batches that are not a reference flag are passed
/// over; a batch that is cut short or malformed spoils the whole section.
pub open spec fn scan(s: Seq<u8>) -> Option<Seq<Update>>
    decreases s.len(),
{
    if s.len() == 0 {
        Some(Seq::empty())
    } else if s[0] != 1 {
        scan(s.skip(1))
    } else if batch_ok(s) {
        prefixed(batch_updates(s), scan(s.skip(batch_span(s))))
    } else {
        None
    }
}

/// The main section of `file`: everything from `MAIN_OFFSET` on.
pub open spec fn main_section(file: Seq<u8>) -> Seq<u8> {
    if file.len() >= MAIN_OFFSET {
        file.skip(MAIN_OFFSET as int)
    } else {
        Seq::empty()
    }
}

/// The updates that `file` stores, if it is a well-formed file.
pub open spec fn decoded(file: Seq<u8>) -> Option<Seq<Update>> {
    if header_ok(file) {
        scan(main_section(file))
    } else {
        None
    }
}

/// The first update of the first batch of `file`, if there is one.
pub open spec fn first_record(file: Seq<u8>) -> Option<Update> {
    match one_batch(main_section(file)) {
        Some((ups, _)) => if ups.len() > 0 {
            Some(ups[0])
        } else {
            None
        },
        None => None,
    }
}

/// The number of bytes that reading the first batch of `file` takes: none
/// when it cannot be read.
pub open spec fn first_batch_span(file: Seq<u8>) -> int {
    match one_batch(main_section(file)) {
        Some((_, n)) => n,
        None => 0,
    }
}

/// Reads one delta record and rebuilds the update it stores relative to
/// the reference `(ref_ts, ref_seq)`. When the record is cut short or
/// malformed, the cursor stays where it was.
pub fn read_item(rdr: &mut Reader, ref_ts: u32, ref_seq: u16) -> (r: Result<Update, DtfError>)
    ensures
        final(rdr).bytes() == old(rdr).bytes(),
        match r {
            Ok(u) => {
                &&& old(rdr).remaining().len() >= ITEM_LEN
                &&& item_ok(old(rdr).remaining().take(ITEM_LEN as int), ref_ts, ref_seq)
                &&& u == item_update(old(rdr).remaining().take(ITEM_LEN as int), ref_ts, ref_seq)
                &&& final(rdr).pos() == old(rdr).pos() + ITEM_LEN
            },
            Err(e) => {
                &&& e == DtfError::FormatViolation
                &&& final(rdr).pos() == old(rdr).pos()
                &&& old(rdr).remaining().len() < ITEM_LEN || !item_ok(
                    old(rdr).remaining().take(ITEM_LEN as int),
                    ref_ts,
                    ref_seq,
                )
            },
        },
{
    let start = rdr.position();
    let item = match rdr.read_exact(ITEM_LEN) {
        Some(item) => item,
        None => {
            return Err(DtfError::FormatViolation);
        },
    };
    let mut fields = Reader::new(item);
    proof {
        assert(fields.remaining() =~= item@);
    }
    let flag = fields.read_u8();
    let dts = fields.read_u16();
    let dseq = fields.read_u8();
    let is_trade = fields.read_u8();
    let is_bid = fields.read_u8();
    let price = fields.read_u32();
    let size = fields.read_u32();
    proof {
        assert(item@.skip(1).take(2) =~= item@.subrange(1, 3));
        assert(item@.skip(6).take(4) =~= item@.subrange(6, 10));
        assert(item@.skip(10).take(4) =~= item@.subrange(10, 14));
    }
    match (flag, dts, dseq, is_trade, is_bid, price, size) {
        (
            Some(flag),
            Some(dts),
            Some(dseq),
            Some(is_trade),
            Some(is_bid),
            Some(price),
            Some(size),
        ) => {
            let ts = ref_ts.checked_add(dts as u32);
            let seq = ref_seq.checked_add(dseq as u16);
            match (flag, ts, seq) {
                (0, Some(ts), Some(seq)) => Ok(
                    Update { ts, seq, is_trade: is_trade == 1, is_bid: is_bid == 1, price, size },
                ),
                _ => {
                    rdr.seek(start);
                    Err(DtfError::FormatViolation)
                },
            }
        },
        _ => {
            rdr.seek(start);
            Err(DtfError::FormatViolation)
        },
    }
}

/// Reads one batch at the cursor: a reference record, then as many delta
/// records as it announces. A leading byte other than the reference flag is
/// read alone, as a batch without updates. When the batch is cut short or
/// malformed, nothing is returned and the cursor is put back.
pub fn read_one_batch(rdr: &mut Reader) -> (r: Result<Vec<Update>, DtfError>)
    ensures
        final(rdr).bytes() == old(rdr).bytes(),
        match r {
            Ok(v) => one_batch(old(rdr).remaining()) matches Some((ups, n)) && v@ == ups
                && final(rdr).pos() == old(rdr).pos() + n,
            Err(e) => one_batch(old(rdr).remaining()) is None && e == DtfError::FormatViolation
                && final(rdr).pos() == old(rdr).pos(),
        },
{
    let start = rdr.position();
    let ghost s = rdr.remaining();
    let mut v: Vec<Update> = Vec::new();
    let flag = rdr.read_u8();
    if flag.is_none() {
        return Err(DtfError::FormatViolation);
    }
    if flag.unwrap() != 1 {
        return Ok(v);
    }
    let reference = match rdr.read_exact(REFERENCE_LEN - 1) {
        Some(reference) => reference,
        None => {
            rdr.seek(start);
            return Err(DtfError::FormatViolation);
        },
    };
    let mut fields = Reader::new(reference);
    let ref_ts = fields.read_u32();
    let ref_seq = fields.read_u16();
    let how_many = fields.read_u16();
    proof {
        assert(rdr.bytes().skip(start as int).skip(1) =~= rdr.bytes().skip(start + 1));
        assert(reference@ =~= s.subrange(1, 9));
        assert(fields.bytes().skip(0) =~= reference@);
        assert(reference@.take(4) =~= s.subrange(1, 5));
        assert(reference@.skip(4).take(2) =~= s.subrange(5, 7));
        assert(reference@.skip(6).take(2) =~= s.subrange(7, 9));
    }
    match (ref_ts, ref_seq, how_many) {
        (Some(ref_ts), Some(ref_seq), Some(how_many)) => {
            let mut k: u16 = 0;
            while k < how_many
                invariant
                    rdr.bytes() == old(rdr).bytes(),
                    s == old(rdr).remaining(),
                    s.len() >= REFERENCE_LEN,
                    s[0] == 1,
                    start == old(rdr).pos(),
                    start + s.len() == rdr.bytes().len(),
                    ref_ts == ref_ts_of(s),
                    ref_seq == ref_seq_of(s),
                    how_many == ref_len_of(s),
                    0 <= k <= how_many,
                    rdr.pos() == start + REFERENCE_LEN + ITEM_LEN * k,
                    rdr.pos() <= rdr.bytes().len(),
                    v@.len() == k,
                    forall|j: int|
                        0 <= j < k ==> item_ok(#[trigger] item_at(s, j), ref_ts, ref_seq) && v@[j]
                            == item_update(item_at(s, j), ref_ts, ref_seq),
                decreases how_many - k,
            {
                let ghost rest = rdr.remaining();
                proof {
                    if rest.len() >= ITEM_LEN {
                        assert(rest.take(ITEM_LEN as int) =~= item_at(s, k as int));
                    }
                }
                match read_item(rdr, ref_ts, ref_seq) {
                    Ok(u) => {
                        v.push(u);
                    },
                    Err(e) => {
                        proof {
                            if rest.len() >= ITEM_LEN {
                                assert(!item_ok(item_at(s, k as int), ref_ts, ref_seq));
                            }
                            assert(!batch_ok(s));
                        }
                        rdr.seek(start);
                        return Err(e);
                    },
                }
                k += 1;
            }
            proof {
                assert(v@ =~= batch_updates(s));
            }
            Ok(v)
        },
        _ => {
            rdr.seek(start);
            Err(DtfError::FormatViolation)
        },
    }
}

/// Reads the first batch of the main section.
pub fn read_first_batch(rdr: &mut Reader) -> (r: Result<Vec<Update>, DtfError>)
    ensures
        final(rdr).bytes() == old(rdr).bytes(),
        match r {
            Ok(v) => one_batch(main_section(old(rdr).bytes())) matches Some((ups, n)) && v@ == ups
                && final(rdr).pos() == MAIN_OFFSET + n,
            Err(e) => one_batch(main_section(old(rdr).bytes())) is None && e
                == DtfError::FormatViolation && final(rdr).pos() == MAIN_OFFSET,
        },
{
    rdr.seek(MAIN_OFFSET);
    read_one_batch(rdr)
}

/// Reads the first update of the main section without reading the rest of
/// the file. A file without a first update is refused. The cursor is left
/// behind the first batch, as far as that could be read.
pub fn read_first(rdr: &mut Reader) -> (r: Result<Update, DtfError>)
    ensures
        final(rdr).bytes() == old(rdr).bytes(),
        final(rdr).pos() == MAIN_OFFSET + first_batch_span(old(rdr).bytes()),
        match r {
            Ok(u) => first_record(old(rdr).bytes()) == Some(u),
            Err(e) => first_record(old(rdr).bytes()) is None && e == DtfError::FormatViolation,
        },
{
    let batch = read_first_batch(rdr)?;
    if batch.len() == 0 {
        return Err(DtfError::FormatViolation);
    }
    Ok(batch[0])
}

/// Reads the timestamp of the first update of the main section. The
/// cursor is left behind the first batch, as far as that could be read.
pub fn read_min_ts(rdr: &mut Reader) -> (r: Result<u32, DtfError>)
    ensures
        final(rdr).bytes() == old(rdr).bytes(),
        final(rdr).pos() == MAIN_OFFSET + first_batch_span(old(rdr).bytes()),
        match r {
            Ok(ts) => first_record(old(rdr).bytes()) matches Some(u) && ts == u.ts,
            Err(e) => first_record(old(rdr).bytes()) is None && e == DtfError::FormatViolation,
        },
{
    let first = read_first(rdr)?;
    Ok(first.ts)
}

/// Reads every update that `bytes` stores, in file order.
///
/// The header must be complete and open with the magic value. The main
/// section is read to its end: bytes between batches that are not a
/// reference flag are passed over, and a batch that is cut short or
/// malformed makes the whole file unreadable.
pub fn decode(bytes: &[u8]) -> (r: Result<Vec<Update>, DtfError>)
    ensures
        match r {
            Ok(v) => decoded(bytes@) == Some(v@),
            Err(e) => decoded(bytes@) is None && e == DtfError::FormatViolation,
        },
        !has_magic(bytes@) ==> r is Err,
{
    let mut v: Vec<Update> = Vec::new();
    let mut rdr = file_reader(bytes)?;
    let _symbol = read_symbol(&mut rdr)?;
    let _nums = read_len(&mut rdr)?;
    let _max_ts = read_max_ts(&mut rdr)?;
    rdr.seek(MAIN_OFFSET);
    loop
        invariant
            rdr.bytes() == bytes@,
            header_ok(bytes@),
            decoded(bytes@) == prefixed(v@, scan(rdr.remaining())),
        decreases rdr.remaining().len(),
    {
        let at = rdr.position();
        let ghost s = rdr.remaining();
        match rdr.read_u8() {
            None => {
                proof {
                    assert(v@ + Seq::<Update>::empty() =~= v@);
                }
                return Ok(v);
            },
            Some(flag) => {
                if flag == 1 {
                    rdr.seek(at);
                    let mut batch = read_one_batch(&mut rdr)?;
                    proof {
                        assert(v@ + (batch@ + scan(s.skip(batch_span(s))).unwrap()) =~= v@ + batch@
                            + scan(s.skip(batch_span(s))).unwrap());
                        assert(rdr.remaining() =~= s.skip(batch_span(s)));
                    }
                    v.append(&mut batch);
                } else {
                    proof {
                        assert(rdr.remaining() =~= s.skip(1));
                    }
                }
            },
        }
    }
}

} // verus!
