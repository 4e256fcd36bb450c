//! A minimal big-endian cursor over class-file bytes. Every read is bounds-checked and returns an
//! error rather than panicking.

use vstd::prelude::*;
use vstd::slice::slice_subrange;
use crate::classfile::error::ClassFileError;

verus! {

/// What parsing at a position gives: a value and the position behind it, or an error.
pub type Parsed<T> = Result<(T, int), ClassFileError>;

/// The two bytes at `p`, big-endian.
pub open spec fn be16(d: Seq<u8>, p: int) -> u16 {
    (d[p] * 0x100 + d[p + 1]) as u16
}

/// The four bytes at `p`, big-endian.
pub open spec fn be32(d: Seq<u8>, p: int) -> u32 {
    (be16(d, p) * 0x1_0000 + be16(d, p + 2)) as u32
}

/// The eight bytes at `p`, big-endian.
pub open spec fn be64(d: Seq<u8>, p: int) -> u64 {
    (be32(d, p) * 0x1_0000_0000 + be32(d, p + 4)) as u64
}

/// The value `v`, made of the `size` bytes at `p`, if there are as many; reading into the end of
/// the input is an error that names the end.
pub open spec fn fixed<T>(d: Seq<u8>, p: int, size: int, v: T) -> Parsed<T> {
    if p + size <= d.len() {
        Ok((v, p + size))
    } else {
        Err(ClassFileError::Eof(d.len() as usize))
    }
}

/// The `n` bytes at `p`; a block that does not fit is an error that names its start.
pub open spec fn block(d: Seq<u8>, p: int, n: int) -> Parsed<Seq<u8>> {
    if p + n <= d.len() {
        Ok((d.subrange(p, p + n), p + n))
    } else {
        Err(ClassFileError::Eof(p as usize))
    }
}

/// Big-endian byte reader over a class-file slice.
pub struct Reader<'a> {
    data: &'a [u8],
    pos: usize,
}

/// The bytes a reader runs over, and where it stands.
#[verifier::ext_equal]
pub struct ReaderView {
    pub data: Seq<u8>,
    pub pos: int,
}

impl<'a> View for Reader<'a> {
    type V = ReaderView;

    closed spec fn view(&self) -> ReaderView {
        ReaderView { data: self.data@, pos: self.pos as int }
    }
}

impl<'a> Reader<'a> {
    #[verifier::type_invariant]
    spec fn stands_inside(self) -> bool {
        self.pos <= self.data@.len()
    }

    /// A reader at the start of `data`.
    pub fn new(data: &'a [u8]) -> (r: Reader<'a>)
        ensures
            r@ == (ReaderView { data: data@, pos: 0 }),
    {
        Reader { data, pos: 0 }
    }

    /// Where the reader stands.
    pub fn pos(&self) -> (p: usize)
        ensures
            p == self@.pos,
            0 <= self@.pos <= self@.data.len(),
    {
        proof {
            use_type_invariant(self);
        }
        self.pos
    }

    /// Number of bytes not yet read.
    pub fn remaining(&self) -> (n: usize)
        ensures
            n == self@.data.len() - self@.pos,
    {
        proof {
            use_type_invariant(self);
        }
        self.data.len() - self.pos
    }

    /// Read one `u1`.
    pub fn u1(&mut self) -> (r: Result<u8, ClassFileError>)
        ensures
            final(self)@.data == old(self)@.data,
            0 <= old(self)@.pos <= old(self)@.data.len() <= usize::MAX,
            match fixed(old(self)@.data, old(self)@.pos, 1, old(self)@.data[old(self)@.pos]) {
                Ok((v, q)) => r == Ok::<u8, ClassFileError>(v) && final(self)@.pos == q,
                Err(e) => r == Err::<u8, ClassFileError>(e) && final(self)@.pos == old(
                    self,
                )@.data.len(),
            },
    {
        proof {
            use_type_invariant(&*self);
        }
        if self.pos < self.data.len() {
            let b: u8 = self.data[self.pos];
            self.pos = self.pos + 1;
            Ok(b)
        } else {
            Err(ClassFileError::Eof(self.pos))
        }
    }

    /// Read a big-endian `u2`.
    pub fn u2(&mut self) -> (r: Result<u16, ClassFileError>)
        ensures
            final(self)@.data == old(self)@.data,
            0 <= old(self)@.pos <= old(self)@.data.len() <= usize::MAX,
            match fixed(old(self)@.data, old(self)@.pos, 2, be16(old(self)@.data, old(self)@.pos)) {
                Ok((v, q)) => r == Ok::<u16, ClassFileError>(v) && final(self)@.pos == q,
                Err(e) => r == Err::<u16, ClassFileError>(e) && final(self)@.pos == old(
                    self,
                )@.data.len(),
            },
    {
        let hi: u16 = self.u1()? as u16;
        let lo: u16 = self.u1()? as u16;
        Ok(hi * 0x100 + lo)
    }

    /// Read a big-endian `u4`.
    pub fn u4(&mut self) -> (r: Result<u32, ClassFileError>)
        ensures
            final(self)@.data == old(self)@.data,
            0 <= old(self)@.pos <= old(self)@.data.len() <= usize::MAX,
            match fixed(old(self)@.data, old(self)@.pos, 4, be32(old(self)@.data, old(self)@.pos)) {
                Ok((v, q)) => r == Ok::<u32, ClassFileError>(v) && final(self)@.pos == q,
                Err(e) => r == Err::<u32, ClassFileError>(e) && final(self)@.pos == old(
                    self,
                )@.data.len(),
            },
    {
        let hi: u32 = self.u2()? as u32;
        let lo: u32 = self.u2()? as u32;
        Ok(hi * 0x1_0000 + lo)
    }

    /// Read a big-endian `u8`.
    pub fn u8(&mut self) -> (r: Result<u64, ClassFileError>)
        ensures
            final(self)@.data == old(self)@.data,
            0 <= old(self)@.pos <= old(self)@.data.len() <= usize::MAX,
            match fixed(old(self)@.data, old(self)@.pos, 8, be64(old(self)@.data, old(self)@.pos)) {
                Ok((v, q)) => r == Ok::<u64, ClassFileError>(v) && final(self)@.pos == q,
                Err(e) => r == Err::<u64, ClassFileError>(e) && final(self)@.pos == old(
                    self,
                )@.data.len(),
            },
    {
        let hi: u64 = self.u4()? as u64;
        let lo: u64 = self.u4()? as u64;
        Ok(hi * 0x1_0000_0000 + lo)
    }

    /// Borrow the next `n` bytes.
    pub fn bytes(&mut self, n: usize) -> (r: Result<&'a [u8], ClassFileError>)
        ensures
            final(self)@.data == old(self)@.data,
            0 <= old(self)@.pos <= old(self)@.data.len() <= usize::MAX,
            match block(old(self)@.data, old(self)@.pos, n as int) {
                Ok((v, q)) => r is Ok && r->Ok_0@ == v && final(self)@.pos == q,
                Err(e) => r is Err && r->Err_0 == e && final(self)@.pos == old(self)@.pos,
            },
    {
        proof {
            use_type_invariant(&*self);
        }
        if n <= self.data.len() - self.pos {
            let end: usize = self.pos + n;
            let s = slice_subrange(self.data, self.pos, end);
            self.pos = end;
            Ok(s)
        } else {
            Err(ClassFileError::Eof(self.pos))
        }
    }
}

/// The bytes of a slice, copied.
pub(crate) fn copy_bytes(s: &[u8]) -> (v: Vec<u8>)
    ensures
        v@ == s@,
{
    let mut v: Vec<u8> = Vec::new();
    v.extend_from_slice(s);
    v
}

} // verus!
