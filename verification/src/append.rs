//! Extending a file: new updates are checked against what the file
//! holds, stored as further batches behind the last one, and the header
//! is brought up to date.

use crate::decoder::{decode, decoded, main_section};
use crate::encoder::encode_batches;
use crate::endian::{
    be_bytes, lemma_be_bytes_len, lemma_be_nat_of_be_bytes, lemma_radix_values, put_u32, put_u64,
};
use crate::error::DtfError;
use crate::header::{file_reader, read_len, read_max_ts};
use crate::layout::{
    encodable, fill, main_bytes, stored_len, stored_max_ts, stored_symbol, FIELDS_END, LEN_OFFSET,
    MAIN_OFFSET,
};
use crate::roundtrip::{lemma_main_roundtrip, lemma_scan_concat};
use crate::order::{sort_by_sequence, sorted, with_sequence};
use crate::update::{get_max_ts, max_ts, Update};
use vstd::prelude::*;
use vstd::slice::slice_to_vec;

verus! {

/// Whether `new` strictly follows what a file holds: every new timestamp
/// lies beyond the largest timestamp `max` that the file records, and
/// every new sequence number beyond every sequence number of `existing`.
pub open spec fn follows(max: u32, existing: Seq<Update>, new: Seq<Update>) -> bool {
    &&& forall|j: int| 0 <= j < new.len() ==> (#[trigger] new[j]).ts > max
    &&& forall|i: int, j: int|
        0 <= i < existing.len() && 0 <= j < new.len() ==> (#[trigger] existing[i]).seq
            < (#[trigger] new[j]).seq
}

/// `file`, filled up with zeros to the start of the main section if it
/// is shorter than that.
pub open spec fn extended(file: Seq<u8>) -> Seq<u8> {
    if file.len() >= MAIN_OFFSET {
        file
    } else {
        file + fill(0, (MAIN_OFFSET - file.len()) as nat)
    }
}

/// `file` with the record count and the largest timestamp of its header
/// replaced.
pub open spec fn with_metadata(file: Seq<u8>, count: nat, max: u32) -> Seq<u8> {
    file.take(LEN_OFFSET as int) + be_bytes(count, 8) + be_bytes(max as nat, 4) + file.skip(
        FIELDS_END as int,
    )
}

/// The larger of two timestamps.
pub open spec fn later(a: u32, b: u32) -> u32 {
    if a >= b {
        a
    } else {
        b
    }
}

/// The file that results from appending `new` to `file`: the batches of
/// `new` stand behind everything that `file` holds, the record count has
/// grown by their number, and the largest timestamp covers them.
pub open spec fn appended(file: Seq<u8>, new: Seq<Update>) -> Seq<u8> {
    with_metadata(
        extended(file) + main_bytes(new),
        stored_len(file).unwrap() as nat + new.len(),
        later(stored_max_ts(file).unwrap(), max_ts(new)),
    )
}

/// Whether every timestamp of `ups` lies beyond `max`.
pub fn all_after(max: u32, ups: &[Update]) -> (ok: bool)
    ensures
        ok <==> forall|j: int| 0 <= j < ups@.len() ==> (#[trigger] ups@[j]).ts > max,
{
    let mut j: usize = 0;
    while j < ups.len()
        invariant
            j <= ups@.len(),
            forall|k: int| 0 <= k < j ==> (#[trigger] ups@[k]).ts > max,
        decreases ups@.len() - j,
    {
        if ups[j].ts <= max {
            return false;
        }
        j += 1;
    }
    true
}

/// The largest sequence number in `ups`, or nothing when `ups` is empty.
pub fn last_sequence(ups: &[Update]) -> (r: Option<u16>)
    ensures
        r is None <==> ups@.len() == 0,
        r matches Some(m) ==> (forall|i: int| 0 <= i < ups@.len() ==> (#[trigger] ups@[i]).seq <= m)
            && exists|i: int| 0 <= i < ups@.len() && (#[trigger] ups@[i]).seq == m,
{
    if ups.len() == 0 {
        return None;
    }
    let mut m: u16 = ups[0].seq;
    let mut i: usize = 1;
    while i < ups.len()
        invariant
            1 <= i <= ups@.len(),
            forall|k: int| 0 <= k < i ==> (#[trigger] ups@[k]).seq <= m,
            exists|k: int| 0 <= k < i && (#[trigger] ups@[k]).seq == m,
        decreases ups@.len() - i,
    {
        if ups[i].seq > m {
            m = ups[i].seq;
        }
        i += 1;
    }
    Some(m)
}

/// The smallest sequence number in `ups`, or nothing when `ups` is empty.
pub fn first_sequence(ups: &[Update]) -> (r: Option<u16>)
    ensures
        r is None <==> ups@.len() == 0,
        r matches Some(m) ==> (forall|i: int| 0 <= i < ups@.len() ==> (#[trigger] ups@[i]).seq >= m)
            && exists|i: int| 0 <= i < ups@.len() && (#[trigger] ups@[i]).seq == m,
{
    if ups.len() == 0 {
        return None;
    }
    let mut m: u16 = ups[0].seq;
    let mut i: usize = 1;
    while i < ups.len()
        invariant
            1 <= i <= ups@.len(),
            forall|k: int| 0 <= k < i ==> (#[trigger] ups@[k]).seq >= m,
            exists|k: int| 0 <= k < i && (#[trigger] ups@[k]).seq == m,
        decreases ups@.len() - i,
    {
        if ups[i].seq < m {
            m = ups[i].seq;
        }
        i += 1;
    }
    Some(m)
}

/// Whether `new` strictly follows a file that records `max` as its
/// largest timestamp and holds the updates `existing`.
pub fn can_follow(max: u32, existing: &[Update], new: &[Update]) -> (ok: bool)
    ensures
        ok == follows(max, existing@, new@),
{
    if !all_after(max, new) {
        return false;
    }
    match (last_sequence(existing), first_sequence(new)) {
        (Some(last), Some(first)) => last < first,
        _ => true,
    }
}

/// Replaces the bytes of `out` from `offset` on by those of `src`.
fn overwrite(out: &mut Vec<u8>, offset: usize, src: &[u8])
    requires
        offset + src@.len() <= old(out)@.len(),
    ensures
        final(out)@ == old(out)@.take(offset as int) + src@ + old(out)@.skip(
            offset + src@.len(),
        ),
{
    let total: usize = out.len();
    let mut j: usize = 0;
    while j < src.len()
        invariant
            j <= src@.len(),
            offset + src@.len() <= total,
            out@.len() == total,
            total == old(out)@.len(),
            out@ == old(out)@.take(offset as int) + src@.take(j as int) + old(out)@.skip(
                offset + j,
            ),
        decreases src@.len() - j,
    {
        out[offset + j] = src[j];
        j += 1;
        proof {
            assert(out@ =~= old(out)@.take(offset as int) + src@.take(j as int) + old(out)@.skip(
                offset + j,
            ));
        }
    }
    proof {
        assert(src@.take(j as int) =~= src@);
    }
}

/// Whether `new` may be appended to `file`: the file can be read, `new`
/// strictly follows what it holds, and `new` can be stored in this order.
pub open spec fn admits(file: Seq<u8>, new: Seq<Update>) -> bool {
    &&& decoded(file) is Some
    &&& follows(stored_max_ts(file).unwrap(), decoded(file).unwrap(), new)
    &&& encodable(new)
}

/// Whether the record count of `file` can grow by the number of `new`.
pub open spec fn count_fits(file: Seq<u8>, new: Seq<Update>) -> bool {
    stored_len(file).unwrap() + new.len() <= u64::MAX
}

/// Appending keeps what the file held and adds the new updates behind it:
/// the result reads back as the old updates followed by the new ones, its
/// header keeps the symbol, counts both, and records the largest timestamp
/// of both.
pub proof fn lemma_append_roundtrip(file: Seq<u8>, new: Seq<Update>)
    requires
        decoded(file) is Some,
        encodable(new),
    ensures
        decoded(appended(file, new)) == Some(decoded(file).unwrap() + new),
        stored_symbol(appended(file, new)) == stored_symbol(file),
        count_fits(file, new) ==> stored_len(appended(file, new)) == Some(
            (stored_len(file).unwrap() + new.len()) as u64,
        ),
        stored_max_ts(appended(file, new)) == Some(
            later(stored_max_ts(file).unwrap(), max_ts(new)),
        ),
{
    let count = stored_len(file).unwrap() as nat + new.len();
    let max = later(stored_max_ts(file).unwrap(), max_ts(new));
    let base = extended(file) + main_bytes(new);
    let out = appended(file, new);
    lemma_radix_values();
    lemma_be_bytes_len(count, 8);
    lemma_be_bytes_len(max as nat, 4);
    lemma_be_nat_of_be_bytes(max as nat, 4);
    if count_fits(file, new) {
        lemma_be_nat_of_be_bytes(count, 8);
    }
    assert(out.take(5) =~= file.take(5));
    assert(out.subrange(5, 14) =~= file.subrange(5, 14));
    assert(out.subrange(14, 22) =~= be_bytes(count, 8));
    assert(out.subrange(22, 26) =~= be_bytes(max as nat, 4));
    assert(main_section(out) =~= main_section(file) + main_bytes(new));
    lemma_main_roundtrip(new);
    lemma_scan_concat(main_section(file), main_bytes(new));
}

/// Appending keeps the order: when the updates of the file are sorted,
/// the new ones are sorted, and the new ones strictly follow the old, then
/// the old followed by the new are sorted.
pub proof fn lemma_append_sorted(max: u32, existing: Seq<Update>, new: Seq<Update>)
    requires
        sorted(existing),
        sorted(new),
        follows(max, existing, new),
    ensures
        sorted(existing + new),
{
    let all = existing + new;
    assert forall|i: int, j: int| 0 <= i <= j < all.len() implies (#[trigger] all[i]).seq <= (
    #[trigger] all[j]).seq by {
        if j < existing.len() {
            assert(all[i] == existing[i] && all[j] == existing[j]);
        } else if i < existing.len() {
            assert(all[i] == existing[i] && all[j] == new[j - existing.len()]);
        } else {
            assert(all[i] == new[i - existing.len()] && all[j] == new[j - existing.len()]);
        }
    }
}

/// Appends `ups` to the file `bytes` and returns the file that results.
///
/// The new updates are first sorted by sequence number, those with equal
/// sequence numbers keeping their order. They must strictly follow what
/// the file holds: every timestamp beyond the largest that the header
/// records, every sequence number beyond those stored. Then they are
/// stored as further batches behind the last one, and the record count and
/// the largest timestamp of the header are rewritten.
///
/// A file that cannot be read, or whose record count cannot grow by the
/// number of new updates, is a format violation; new updates that do not
/// follow, or that cannot be stored in their order, are an ordering
/// violation. The unreadable file is reported first, the count last.
pub fn append(bytes: &[u8], ups: &mut Vec<Update>) -> (r: Result<Vec<u8>, DtfError>)
    ensures
        final(ups)@.to_multiset() == old(ups)@.to_multiset(),
        sorted(final(ups)@),
        forall|k: u16| #[trigger] with_sequence(final(ups)@, k) == with_sequence(old(ups)@, k),
        match r {
            Ok(out) => {
                &&& admits(bytes@, final(ups)@)
                &&& count_fits(bytes@, final(ups)@)
                &&& out@ == appended(bytes@, final(ups)@)
                &&& decoded(out@) == Some(decoded(bytes@).unwrap() + final(ups)@)
            },
            Err(DtfError::FormatViolation) => decoded(bytes@) is None || (admits(
                bytes@,
                final(ups)@,
            ) && !count_fits(bytes@, final(ups)@)),
            Err(DtfError::OrderingViolation) => decoded(bytes@) is Some && !admits(
                bytes@,
                final(ups)@,
            ),
        },
{
    sort_by_sequence(ups);
    let existing = decode(bytes)?;
    let mut rdr = file_reader(bytes)?;
    let count = read_len(&mut rdr)?;
    let max = read_max_ts(&mut rdr)?;
    if !can_follow(max, existing.as_slice(), ups.as_slice()) {
        return Err(DtfError::OrderingViolation);
    }
    let main = encode_batches(ups.as_slice())?;
    let new_count = match count.checked_add(ups.len() as u64) {
        Some(n) => n,
        None => {
            return Err(DtfError::FormatViolation);
        },
    };
    let new_max = get_max_ts(ups.as_slice());
    let new_max = if max >= new_max {
        max
    } else {
        new_max
    };
    let mut out = slice_to_vec(bytes);
    while out.len() < MAIN_OFFSET
        invariant
            bytes@.len() <= out@.len(),
            out@.len() <= MAIN_OFFSET || out@.len() == bytes@.len(),
            out@ == bytes@ + fill(0, (out@.len() - bytes@.len()) as nat),
        decreases MAIN_OFFSET - out@.len(),
    {
        out.push(0);
        proof {
            assert(out@ =~= bytes@ + fill(0, (out@.len() - bytes@.len()) as nat));
        }
    }
    proof {
        assert(out@ =~= extended(bytes@));
    }
    out.extend_from_slice(main.as_slice());
    let mut fields: Vec<u8> = Vec::new();
    put_u64(&mut fields, new_count);
    put_u32(&mut fields, new_max);
    proof {
        lemma_be_bytes_len(new_count as nat, 8);
        lemma_be_bytes_len(new_max as nat, 4);
    }
    overwrite(&mut out, LEN_OFFSET, fields.as_slice());
    proof {
        assert(out@ =~= appended(bytes@, ups@));
        lemma_append_roundtrip(bytes@, ups@);
    }
    Ok(out)
}

} // verus!
