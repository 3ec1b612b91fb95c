//! Writing the main section: updates are gathered into batches, each
//! stored as a reference record and the delta records relative to it.

use crate::endian::{lemma_be_bytes_len, put_u16, put_u32};
use crate::error::DtfError;
use crate::header::{write_magic_value, write_metadata, write_symbol};
use crate::decoder::decoded;
use crate::layout::{
    anchor, delta_bytes, encodable, file_bytes, fill, fits, fits_anchor, in_width, item_bytes,
    items_bytes, lemma_main_bytes_prefix, main_bytes, padded_text, reference_bytes, stored_len,
    stored_max_ts, stored_symbol, up_to_main, BATCH_CAPACITY, MAIN_OFFSET, SEQ_SPAN, SYMBOL_LEN,
    TS_SPAN,
};
use crate::roundtrip::{lemma_file_roundtrip, lemma_header_integrity};
use crate::update::{max_ts, Update};
use vstd::prelude::*;
use vstd::utf8::encode_utf8;

verus! {

impl Update {
    /// The bytes that store this update relative to the reference
    /// `(ref_ts, ref_seq)`. An update that precedes the reference is out of
    /// order; one too far behind it does not fit the fields.
    pub fn serialize(&self, ref_ts: u32, ref_seq: u16) -> (r: Result<Vec<u8>, DtfError>)
        ensures
            match r {
                Ok(buf) => fits(ref_ts, ref_seq, *self) && in_width(ref_ts, ref_seq, *self)
                    && buf@ == delta_bytes(*self, ref_ts, ref_seq),
                Err(DtfError::OrderingViolation) => !fits(ref_ts, ref_seq, *self),
                Err(DtfError::FormatViolation) => fits(ref_ts, ref_seq, *self) && !in_width(
                    ref_ts,
                    ref_seq,
                    *self,
                ),
            },
    {
        if self.ts < ref_ts || self.seq < ref_seq {
            return Err(DtfError::OrderingViolation);
        }
        let dts: u32 = self.ts - ref_ts;
        let dseq: u16 = self.seq - ref_seq;
        if dts > 0xffff || dseq > 0xff {
            return Err(DtfError::FormatViolation);
        }
        let mut buf: Vec<u8> = Vec::new();
        put_u16(&mut buf, dts as u16);
        buf.push(dseq as u8);
        buf.push(if self.is_trade { 1 } else { 0 });
        buf.push(if self.is_bid { 1 } else { 0 });
        put_u32(&mut buf, self.price);
        put_u32(&mut buf, self.size);
        proof {
            assert(buf@ =~= delta_bytes(*self, ref_ts, ref_seq));
        }
        Ok(buf)
    }
}

/// Appends a reference record.
pub fn write_reference(wtr: &mut Vec<u8>, ref_ts: u32, ref_seq: u16, len: u16)
    ensures
        final(wtr)@ == old(wtr)@ + reference_bytes(ref_ts, ref_seq, len),
{
    wtr.push(1);
    put_u32(wtr, ref_ts);
    put_u16(wtr, ref_seq);
    put_u16(wtr, len);
    proof {
        assert(wtr@ =~= old(wtr)@ + reference_bytes(ref_ts, ref_seq, len));
    }
}

/// Positions the writer at the main section: what lies at or beyond
/// `MAIN_OFFSET` is dropped, and a shorter writer is filled up with zeros.
pub fn seek_main(wtr: &mut Vec<u8>)
    ensures
        final(wtr)@ == up_to_main(old(wtr)@),
{
    if wtr.len() >= MAIN_OFFSET {
        wtr.truncate(MAIN_OFFSET);
        proof {
            assert(wtr@ =~= old(wtr)@.take(MAIN_OFFSET as int));
        }
    } else {
        let ghost start = wtr@;
        while wtr.len() < MAIN_OFFSET
            invariant
                start.len() <= wtr@.len() <= MAIN_OFFSET,
                wtr@ == start + fill(0, (wtr@.len() - start.len()) as nat),
            decreases MAIN_OFFSET - wtr@.len(),
        {
            wtr.push(0);
            proof {
                assert(wtr@ =~= start + fill(0, (wtr@.len() - start.len()) as nat));
            }
        }
    }
}

/// Gathers `ups` into batches and returns their bytes: the main section.
///
/// The updates are taken in the order given. Each batch runs as far as it
/// can: an update opens a new batch when its timestamp is `TS_SPAN` or more
/// beyond the reference, when its sequence number is `SEQ_SPAN` or more
/// beyond it, or when the batch already holds `BATCH_CAPACITY` records.
/// An update that precedes the reference of its batch cannot be stored.
pub fn encode_batches(ups: &[Update]) -> (r: Result<Vec<u8>, DtfError>)
    ensures
        match r {
            Ok(out) => encodable(ups@) && out@ == main_bytes(ups@),
            Err(e) => !encodable(ups@) && e == DtfError::OrderingViolation,
        },
{
    let mut out: Vec<u8> = Vec::new();
    if ups.len() == 0 {
        return Ok(out);
    }
    let mut buf: Vec<u8> = Vec::new();
    let mut ref_ts: u32 = ups[0].ts;
    let mut ref_seq: u16 = ups[0].seq;
    let mut count: u16 = 0;
    let mut i: usize = 0;
    let ghost mut a: int = 0;
    while i < ups.len()
        invariant
            0 <= a <= i <= ups@.len(),
            ups@.len() > 0,
            i > 0 ==> a == anchor(ups@, i - 1),
            count == i - a,
            ref_ts == ups@[a].ts,
            ref_seq == ups@[a].seq,
            out@ == main_bytes(ups@.take(a)),
            buf@ == items_bytes(ups@.subrange(a, i as int), ref_ts, ref_seq),
            forall|j: int| 0 <= j < i ==> #[trigger] fits_anchor(ups@, j),
        decreases ups@.len() - i,
    {
        let elem = &ups[i];
        let far = elem.ts >= ref_ts && elem.ts - ref_ts >= TS_SPAN || elem.seq >= ref_seq
            && elem.seq - ref_seq >= SEQ_SPAN;
        if count != 0 && (far || count == BATCH_CAPACITY) {
            proof {
                lemma_main_bytes_prefix(ups@, i as int);
                assert(ups@.subrange(a, i as int)[0] == ups@[a]);
            }
            write_reference(&mut out, ref_ts, ref_seq, count);
            out.extend_from_slice(buf.as_slice());
            buf.clear();
            ref_ts = elem.ts;
            ref_seq = elem.seq;
            count = 0;
            proof {
                a = i as int;
                assert(out@ =~= main_bytes(ups@.take(a)));
                assert(ups@.subrange(a, i as int) =~= Seq::<Update>::empty());
            }
        }
        assert(a == anchor(ups@, i as int));
        match elem.serialize(ref_ts, ref_seq) {
            Ok(delta) => {
                buf.push(0);
                buf.extend_from_slice(delta.as_slice());
                proof {
                    let next = ups@.subrange(a, i + 1);
                    assert(next.drop_last() =~= ups@.subrange(a, i as int));
                    assert(next.last() == *elem);
                    assert(buf@ =~= items_bytes(next.drop_last(), ref_ts, ref_seq) + item_bytes(
                        *elem,
                        ref_ts,
                        ref_seq,
                    ));
                }
            },
            Err(_) => {
                proof {
                    assert(!fits_anchor(ups@, i as int));
                }
                return Err(DtfError::OrderingViolation);
            },
        }
        count += 1;
        i += 1;
    }
    proof {
        lemma_main_bytes_prefix(ups@, i as int);
        assert(ups@.take(i as int) =~= ups@);
        assert(ups@.subrange(a, i as int)[0] == ups@[a]);
    }
    write_reference(&mut out, ref_ts, ref_seq, count);
    out.extend_from_slice(buf.as_slice());
    Ok(out)
}

/// Writes the main section for `ups` at `MAIN_OFFSET`: the writer is
/// positioned there, and the batches follow. When the updates cannot be
/// stored the writer is left as it was.
pub fn write_main(wtr: &mut Vec<u8>, ups: &[Update]) -> (r: Result<(), DtfError>)
    ensures
        match r {
            Ok(_) => encodable(ups@) && final(wtr)@ == up_to_main(old(wtr)@) + main_bytes(ups@),
            Err(e) => !encodable(ups@) && e == DtfError::OrderingViolation && final(wtr)@ == old(
                wtr,
            )@,
        },
{
    let main = encode_batches(ups)?;
    seek_main(wtr);
    wtr.extend_from_slice(main.as_slice());
    Ok(())
}

/// Builds the whole file for `ups` under `symbol`: the header, then the
/// main section.
///
/// The symbol must fit `SYMBOL_LEN` bytes, and the updates must come in an
/// order that the batches can hold. The symbol is looked at first.
pub fn encode(symbol: &str, ups: &[Update]) -> (r: Result<Vec<u8>, DtfError>)
    ensures
        match r {
            Ok(file) => {
                &&& encode_utf8(symbol@).len() <= SYMBOL_LEN
                &&& encodable(ups@)
                &&& file@ == file_bytes(symbol@, ups@)
                &&& decoded(file@) == Some(ups@)
                &&& stored_symbol(file@) == Some(padded_text(symbol@))
                &&& stored_len(file@) == Some(ups@.len() as u64)
                &&& stored_max_ts(file@) == Some(max_ts(ups@))
            },
            Err(DtfError::FormatViolation) => encode_utf8(symbol@).len() > SYMBOL_LEN,
            Err(DtfError::OrderingViolation) => encode_utf8(symbol@).len() <= SYMBOL_LEN
                && !encodable(ups@),
        },
{
    let mut wtr: Vec<u8> = Vec::new();
    write_magic_value(&mut wtr);
    match write_symbol(&mut wtr, symbol) {
        Ok(_) => {},
        Err(e) => {
            return Err(e);
        },
    }
    write_metadata(&mut wtr, ups);
    proof {
        lemma_be_bytes_len(ups@.len(), 8);
        lemma_be_bytes_len(max_ts(ups@) as nat, 4);
    }
    match write_main(&mut wtr, ups) {
        Ok(_) => {},
        Err(e) => {
            return Err(e);
        },
    }
    proof {
        assert(wtr@ =~= file_bytes(symbol@, ups@));
        assert(ups@.len() == ups.len());
        lemma_file_roundtrip(symbol@, ups@);
        lemma_header_integrity(symbol@, ups@);
    }
    Ok(wtr)
}

} // verus!
