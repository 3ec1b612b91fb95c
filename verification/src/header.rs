//! Writing and reading the fixed header of a file.

use crate::endian::{be_bytes, put_u32, put_u64};
use crate::error::DtfError;
use crate::layout::{
    field, fill, has_magic, magic, padded_symbol, stored_len, stored_max_ts, stored_symbol,
    LEN_OFFSET, MAGIC_LEN, MAGIC_VALUE, MAX_TS_OFFSET, SYMBOL_LEN, SYMBOL_OFFSET,
};
use crate::reader::Reader;
use crate::update::{get_max_ts, max_ts, Update};
use vstd::prelude::*;
use vstd::utf8::{decode_utf8, encode_utf8, valid_utf8};

verus! {

/// `std::str::from_utf8`: the bytes as text when they are valid UTF-8, and
/// nothing when they are not.
#[verifier::external_body]
fn text_from_utf8(bytes: &[u8]) -> (out: Option<&str>)
    ensures
        out is Some <==> valid_utf8(bytes@),
        out matches Some(s) ==> s@ == decode_utf8(bytes@),
{
    std::str::from_utf8(bytes).ok()
}

/// Appends the magic value.
pub fn write_magic_value(wtr: &mut Vec<u8>)
    ensures
        final(wtr)@ == old(wtr)@ + magic(),
{
    wtr.extend_from_slice(MAGIC_VALUE.as_slice());
}

/// Appends the symbol, padded on the right with spaces to `SYMBOL_LEN`
/// bytes. A symbol longer than that is refused and nothing is written.
pub fn write_symbol(wtr: &mut Vec<u8>, symbol: &str) -> (r: Result<(), DtfError>)
    ensures
        encode_utf8(symbol@).len() <= SYMBOL_LEN ==> r is Ok && final(wtr)@ == old(wtr)@
            + padded_symbol(symbol@),
        encode_utf8(symbol@).len() > SYMBOL_LEN ==> r == Err::<(), DtfError>(
            DtfError::FormatViolation,
        ) && final(wtr)@ == old(wtr)@,
{
    let bytes = symbol.as_bytes();
    if bytes.len() > SYMBOL_LEN {
        return Err(DtfError::FormatViolation);
    }
    wtr.extend_from_slice(bytes);
    let mut n: usize = bytes.len();
    while n < SYMBOL_LEN
        invariant
            bytes@.len() <= n <= SYMBOL_LEN,
            wtr@ == old(wtr)@ + bytes@ + fill(0x20, (n - bytes@.len()) as nat),
        decreases SYMBOL_LEN - n,
    {
        wtr.push(0x20);
        n += 1;
        proof {
            assert(wtr@ =~= old(wtr)@ + bytes@ + fill(0x20, (n - bytes@.len()) as nat));
        }
    }
    proof {
        assert(wtr@ =~= old(wtr)@ + padded_symbol(symbol@));
    }
    Ok(())
}

/// Appends the record count and the largest timestamp of `ups`.
pub fn write_metadata(wtr: &mut Vec<u8>, ups: &[Update])
    ensures
        final(wtr)@ == old(wtr)@ + be_bytes(ups@.len(), 8) + be_bytes(max_ts(ups@) as nat, 4),
{
    put_u64(wtr, ups.len() as u64);
    let max = get_max_ts(ups);
    put_u32(wtr, max);
}

/// Opens `bytes` for reading: checks the magic value and leaves the cursor
/// behind it. Anything else at the start of the file, or a file too short
/// to hold it, is refused.
pub fn file_reader<'a>(bytes: &'a [u8]) -> (r: Result<Reader<'a>, DtfError>)
    ensures
        has_magic(bytes@) <==> r is Ok,
        r matches Ok(rdr) ==> rdr.bytes() == bytes@ && rdr.pos() == MAGIC_LEN,
        r matches Err(e) ==> e == DtfError::FormatViolation,
{
    let mut rdr = Reader::new(bytes);
    rdr.seek(0);
    match rdr.read_exact(MAGIC_LEN) {
        Some(m) => {
            proof {
                assert(rdr.bytes().skip(0) =~= rdr.bytes());
            }
            if same_bytes(m, MAGIC_VALUE.as_slice()) {
                Ok(rdr)
            } else {
                Err(DtfError::FormatViolation)
            }
        },
        None => {
            proof {
                assert(rdr.bytes().skip(0) =~= rdr.bytes());
            }
            Err(DtfError::FormatViolation)
        },
    }
}

/// Reads the stored symbol, trailing padding included.
pub fn read_symbol(rdr: &mut Reader) -> (r: Result<String, DtfError>)
    ensures
        final(rdr).bytes() == old(rdr).bytes(),
        match r {
            Ok(s) => stored_symbol(old(rdr).bytes()) == Some(s@) && final(rdr).pos()
                == SYMBOL_OFFSET + SYMBOL_LEN,
            Err(e) => stored_symbol(old(rdr).bytes()) is None && e == DtfError::FormatViolation
                && final(rdr).pos() == SYMBOL_OFFSET,
        },
{
    rdr.seek(SYMBOL_OFFSET);
    match rdr.read_exact(SYMBOL_LEN) {
        Some(b) => {
            proof {
                lemma_field_at(rdr.bytes(), SYMBOL_OFFSET as int, SYMBOL_LEN as int);
            }
            match text_from_utf8(b) {
                Some(s) => Ok(s.to_owned()),
                None => {
                    rdr.seek(SYMBOL_OFFSET);
                    Err(DtfError::FormatViolation)
                },
            }
        },
        None => Err(DtfError::FormatViolation),
    }
}

/// Reads the stored record count.
pub fn read_len(rdr: &mut Reader) -> (r: Result<u64, DtfError>)
    ensures
        final(rdr).bytes() == old(rdr).bytes(),
        match r {
            Ok(n) => stored_len(old(rdr).bytes()) == Some(n) && final(rdr).pos() == LEN_OFFSET + 8,
            Err(e) => stored_len(old(rdr).bytes()) is None && e == DtfError::FormatViolation
                && final(rdr).pos() == LEN_OFFSET,
        },
{
    rdr.seek(LEN_OFFSET);
    match rdr.read_u64() {
        Some(n) => {
            proof {
                lemma_field_at(rdr.bytes(), LEN_OFFSET as int, 8);
            }
            Ok(n)
        },
        None => Err(DtfError::FormatViolation),
    }
}

/// Reads the stored largest timestamp.
pub fn read_max_ts(rdr: &mut Reader) -> (r: Result<u32, DtfError>)
    ensures
        final(rdr).bytes() == old(rdr).bytes(),
        match r {
            Ok(n) => stored_max_ts(old(rdr).bytes()) == Some(n) && final(rdr).pos() == MAX_TS_OFFSET
                + 4,
            Err(e) => stored_max_ts(old(rdr).bytes()) is None && e == DtfError::FormatViolation
                && final(rdr).pos() == MAX_TS_OFFSET,
        },
{
    rdr.seek(MAX_TS_OFFSET);
    match rdr.read_u32() {
        Some(n) => {
            proof {
                lemma_field_at(rdr.bytes(), MAX_TS_OFFSET as int, 4);
            }
            Ok(n)
        },
        None => Err(DtfError::FormatViolation),
    }
}

/// Whether two runs of bytes are the same.
fn same_bytes(a: &[u8], b: &[u8]) -> (same: bool)
    ensures
        same == (a@ == b@),
{
    if a.len() != b.len() {
        return false;
    }
    let mut i: usize = 0;
    while i < a.len()
        invariant
            a@.len() == b@.len(),
            i <= a@.len(),
            a@.take(i as int) == b@.take(i as int),
        decreases a@.len() - i,
    {
        if a[i] != b[i] {
            return false;
        }
        i += 1;
        proof {
            assert(a@.take(i as int) =~= a@.take(i - 1).push(a@[i - 1]));
            assert(b@.take(i as int) =~= b@.take(i - 1).push(b@[i - 1]));
        }
    }
    proof {
        assert(a@.take(i as int) =~= a@);
        assert(b@.take(i as int) =~= b@);
    }
    true
}

/// What a cursor at `offset` reads next is the field at `offset`.
proof fn lemma_field_at(file: Seq<u8>, offset: int, len: int)
    requires
        0 <= offset,
        0 <= len,
        offset + len <= file.len(),
    ensures
        field(file, offset, len) == Some(file.skip(offset).take(len)),
{
    assert(file.skip(offset).take(len) =~= file.subrange(offset, offset + len));
}

} // verus!
