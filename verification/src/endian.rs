//! Big-endian integers: what they mean as bytes, and the calls that read
//! and write them.

use byteorder::{BigEndian, ByteOrder, WriteBytesExt};
use vstd::prelude::*;

verus! {

/// The number that `b` spells when read as base-256 digits, most
/// significant digit first.
pub open spec fn be_nat(b: Seq<u8>) -> nat
    decreases b.len(),
{
    if b.len() == 0 {
        0
    } else {
        be_nat(b.drop_last()) * 256 + b.last() as nat
    }
}

/// The `width` least significant base-256 digits of `n`, most significant
/// digit first.
pub open spec fn be_bytes(n: nat, width: nat) -> Seq<u8>
    decreases width,
{
    if width == 0 {
        Seq::empty()
    } else {
        be_bytes(n / 256, (width - 1) as nat).push((n % 256) as u8)
    }
}

/// 256 to the power `width`: one more than the largest number that
/// `width` bytes can spell.
pub open spec fn radix(width: nat) -> nat
    decreases width,
{
    if width == 0 {
        1
    } else {
        256 * radix((width - 1) as nat)
    }
}

/// A number written in `width` bytes takes `width` bytes.
pub proof fn lemma_be_bytes_len(n: nat, width: nat)
    ensures
        be_bytes(n, width).len() == width,
    decreases width,
{
    if width > 0 {
        lemma_be_bytes_len(n / 256, (width - 1) as nat);
    }
}

/// Reading back what was written gives the number, when it fits the width.
pub proof fn lemma_be_nat_of_be_bytes(n: nat, width: nat)
    requires
        n < radix(width),
    ensures
        be_nat(be_bytes(n, width)) == n,
    decreases width,
{
    if width > 0 {
        let w = (width - 1) as nat;
        lemma_be_nat_of_be_bytes(n / 256, w);
        assert(be_bytes(n, width).drop_last() =~= be_bytes(n / 256, w));
    }
}

/// The values of `radix` for the widths of the integers of the format.
pub proof fn lemma_radix_values()
    ensures
        radix(1) == 0x100,
        radix(2) == 0x1_0000,
        radix(4) == 0x1_0000_0000,
        radix(8) == 0x1_0000_0000_0000_0000,
{
    reveal_with_fuel(radix, 9);
}

/// `byteorder::WriteBytesExt::write_u16::<BigEndian>` on a `Vec<u8>`: appends
/// the two bytes of `n`, most significant first. Writing to a vector cannot fail.
#[verifier::external_body]
pub(crate) fn put_u16(buf: &mut Vec<u8>, n: u16)
    ensures
        final(buf)@ == old(buf)@ + be_bytes(n as nat, 2),
{
    let _ = buf.write_u16::<BigEndian>(n);
}

/// `byteorder::WriteBytesExt::write_u32::<BigEndian>` on a `Vec<u8>`: appends
/// the four bytes of `n`, most significant first.
#[verifier::external_body]
pub(crate) fn put_u32(buf: &mut Vec<u8>, n: u32)
    ensures
        final(buf)@ == old(buf)@ + be_bytes(n as nat, 4),
{
    let _ = buf.write_u32::<BigEndian>(n);
}

/// `byteorder::WriteBytesExt::write_u64::<BigEndian>` on a `Vec<u8>`: appends
/// the eight bytes of `n`, most significant first.
#[verifier::external_body]
pub(crate) fn put_u64(buf: &mut Vec<u8>, n: u64)
    ensures
        final(buf)@ == old(buf)@ + be_bytes(n as nat, 8),
{
    let _ = buf.write_u64::<BigEndian>(n);
}

/// `<byteorder::BigEndian as ByteOrder>::read_u16`: the number spelled by the
/// first two bytes of `buf`. It panics on a shorter slice.
#[verifier::external_body]
pub(crate) fn get_u16(buf: &[u8]) -> (n: u16)
    requires
        buf@.len() >= 2,
    ensures
        n as nat == be_nat(buf@.take(2)),
{
    BigEndian::read_u16(buf)
}

/// `<byteorder::BigEndian as ByteOrder>::read_u32`: the number spelled by the
/// first four bytes of `buf`. It panics on a shorter slice.
#[verifier::external_body]
pub(crate) fn get_u32(buf: &[u8]) -> (n: u32)
    requires
        buf@.len() >= 4,
    ensures
        n as nat == be_nat(buf@.take(4)),
{
    BigEndian::read_u32(buf)
}

/// `<byteorder::BigEndian as ByteOrder>::read_u64`: the number spelled by the
/// first eight bytes of `buf`. It panics on a shorter slice.
#[verifier::external_body]
pub(crate) fn get_u64(buf: &[u8]) -> (n: u64)
    requires
        buf@.len() >= 8,
    ensures
        n as nat == be_nat(buf@.take(8)),
{
    BigEndian::read_u64(buf)
}

} // verus!
