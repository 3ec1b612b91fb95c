//! A read cursor over the bytes of a file held in memory.

use crate::endian::{be_nat, get_u16, get_u32, get_u64};
use vstd::prelude::*;
use vstd::slice::slice_subrange;

verus! {

/// The bytes of a file together with a read position. The position may lie
/// beyond the end of the bytes; every read there fails.
pub struct Reader<'a> {
    data: &'a [u8],
    pos: usize,
}

impl<'a> Reader<'a> {
    /// All the bytes of the file.
    pub closed spec fn bytes(&self) -> Seq<u8> {
        self.data@
    }

    /// The offset of the next byte to be read.
    pub closed spec fn pos(&self) -> nat {
        self.pos as nat
    }

    /// The bytes from the read position to the end of the file.
    pub open spec fn remaining(&self) -> Seq<u8> {
        if self.pos() <= self.bytes().len() {
            self.bytes().skip(self.pos() as int)
        } else {
            Seq::empty()
        }
    }

    /// A cursor at the start of `data`.
    pub fn new(data: &'a [u8]) -> (rdr: Self)
        ensures
            rdr.bytes() == data@,
            rdr.pos() == 0,
    {
        Reader { data, pos: 0 }
    }

    /// The current read position.
    pub fn position(&self) -> (p: usize)
        ensures
            p == self.pos(),
    {
        self.pos
    }

    /// Moves the read position to the absolute offset `pos`.
    pub fn seek(&mut self, pos: usize)
        ensures
            final(self).bytes() == old(self).bytes(),
            final(self).pos() == pos,
    {
        self.pos = pos;
    }

    /// Reads the next `n` bytes and moves past them, or reads nothing when
    /// fewer than `n` remain.
    pub fn read_exact(&mut self, n: usize) -> (out: Option<&'a [u8]>)
        ensures
            final(self).bytes() == old(self).bytes(),
            old(self).remaining().len() >= n <==> out is Some,
            out matches Some(s) ==> s@ == old(self).remaining().take(n as int)
                && final(self).pos() == old(self).pos() + n,
            out is None ==> final(self).pos() == old(self).pos(),
    {
        let len = self.data.len();
        let start = if self.pos <= len {
            self.pos
        } else {
            len
        };
        if len - start < n {
            return None;
        }
        let s = slice_subrange(self.data, start, start + n);
        proof {
            assert(s@ =~= self.remaining().take(n as int));
        }
        if n > 0 {
            self.pos = self.pos + n;
        }
        Some(s)
    }

    /// Reads one byte.
    pub fn read_u8(&mut self) -> (out: Option<u8>)
        ensures
            final(self).bytes() == old(self).bytes(),
            old(self).remaining().len() >= 1 <==> out is Some,
            out matches Some(b) ==> b == old(self).remaining()[0] && final(self).pos() == old(
                self,
            ).pos() + 1,
            out is None ==> final(self).pos() == old(self).pos(),
    {
        match self.read_exact(1) {
            Some(s) => Some(s[0]),
            None => None,
        }
    }

    /// Reads a big-endian 16-bit integer.
    pub fn read_u16(&mut self) -> (out: Option<u16>)
        ensures
            final(self).bytes() == old(self).bytes(),
            old(self).remaining().len() >= 2 <==> out is Some,
            out matches Some(n) ==> n as nat == be_nat(old(self).remaining().take(2))
                && final(self).pos() == old(self).pos() + 2,
            out is None ==> final(self).pos() == old(self).pos(),
    {
        match self.read_exact(2) {
            Some(s) => {
                proof {
                    assert(s@.take(2) =~= s@);
                }
                Some(get_u16(s))
            },
            None => None,
        }
    }

    /// Reads a big-endian 32-bit integer.
    pub fn read_u32(&mut self) -> (out: Option<u32>)
        ensures
            final(self).bytes() == old(self).bytes(),
            old(self).remaining().len() >= 4 <==> out is Some,
            out matches Some(n) ==> n as nat == be_nat(old(self).remaining().take(4))
                && final(self).pos() == old(self).pos() + 4,
            out is None ==> final(self).pos() == old(self).pos(),
    {
        match self.read_exact(4) {
            Some(s) => {
                proof {
                    assert(s@.take(4) =~= s@);
                }
                Some(get_u32(s))
            },
            None => None,
        }
    }

    /// Reads a big-endian 64-bit integer.
    pub fn read_u64(&mut self) -> (out: Option<u64>)
        ensures
            final(self).bytes() == old(self).bytes(),
            old(self).remaining().len() >= 8 <==> out is Some,
            out matches Some(n) ==> n as nat == be_nat(old(self).remaining().take(8))
                && final(self).pos() == old(self).pos() + 8,
            out is None ==> final(self).pos() == old(self).pos(),
    {
        match self.read_exact(8) {
            Some(s) => {
                proof {
                    assert(s@.take(8) =~= s@);
                }
                Some(get_u64(s))
            },
            None => None,
        }
    }
}

} // verus!
