//! An owned, immutable byte buffer that supports cheap-to-reason-about
//! slicing, splitting, and little-endian primitive reads from the front.

use vstd::prelude::*;
use crate::serial::le_value;

verus! {

/// An owned window of bytes; reads consume from the front.
pub struct OwnedBytes {
    data: Vec<u8>,
}

impl View for OwnedBytes {
    type V = Seq<u8>;

    closed spec fn view(&self) -> Seq<u8> {
        self.data@
    }
}

impl OwnedBytes {
    /// An empty buffer.
    pub fn empty() -> (r: Self)
        ensures
            r@ == Seq::<u8>::empty(),
    {
        let r = OwnedBytes { data: Vec::new() };
        proof {
            assert(r@ =~= Seq::<u8>::empty());
        }
        r
    }

    /// Wraps a byte vector.
    pub fn new(data: Vec<u8>) -> (r: Self)
        ensures
            r@ == data@,
    {
        OwnedBytes { data }
    }

    /// How many bytes are left in the window.
    pub fn len(&self) -> (r: usize)
        ensures
            r == self@.len(),
    {
        self.data.len()
    }

    /// The whole window as a slice.
    pub fn as_slice(&self) -> (r: &[u8])
        ensures
            r@ == self@,
    {
        self.data.as_slice()
    }

    /// A new buffer holding `self[range.start..range.end]`.
    pub fn slice(&self, range: core::ops::Range<usize>) -> (r: Self)
        requires
            range.start <= range.end <= self@.len(),
        ensures
            r@ == self@.subrange(range.start as int, range.end as int),
    {
        let s: &[u8] = &self.data.as_slice()[range.start..range.end];
        OwnedBytes { data: vstd::slice::slice_to_vec(s) }
    }

    /// Splits into the first `split_len` bytes and the rest.
    pub fn split(self, split_len: usize) -> (r: (Self, Self))
        requires
            split_len <= self@.len(),
        ensures
            r.0@ == self@.take(split_len as int),
            r.1@ == self@.skip(split_len as int),
    {
        let mut left = self.data;
        let right = left.split_off(split_len);
        (OwnedBytes { data: left }, OwnedBytes { data: right })
    }

    /// Splits into everything but the last `split_len` bytes, and those bytes.
    pub fn rsplit(self, split_len: usize) -> (r: (Self, Self))
        requires
            split_len <= self@.len(),
        ensures
            r.0@ == self@.take(self@.len() - split_len),
            r.1@ == self@.skip(self@.len() - split_len),
    {
        let data_len = self.data.len();
        self.split(data_len - split_len)
    }

    /// Keeps the first `split_len` bytes and returns the rest.
    pub fn split_off(&mut self, split_len: usize) -> (r: Self)
        requires
            split_len <= old(self)@.len(),
        ensures
            final(self)@ == old(self)@.take(split_len as int),
            r@ == old(self)@.skip(split_len as int),
    {
        let right = self.data.split_off(split_len);
        OwnedBytes { data: right }
    }

    /// Consumes and returns the first `advance_len` bytes.
    pub fn advance(&mut self, advance_len: usize) -> (r: Vec<u8>)
        requires
            advance_len <= old(self)@.len(),
        ensures
            r@ == old(self)@.take(advance_len as int),
            final(self)@ == old(self)@.skip(advance_len as int),
    {
        let head: Vec<u8> = vstd::slice::slice_to_vec(&self.data.as_slice()[0..advance_len]);
        let tail = self.data.split_off(advance_len);
        self.data = tail;
        proof {
            assert(head@ =~= old(self)@.take(advance_len as int));
        }
        head
    }

    /// Consumes and returns the first byte.
    pub fn read_u8(&mut self) -> (r: u8)
        requires
            old(self)@.len() >= 1,
        ensures
            r == old(self)@[0],
            final(self)@ == old(self)@.skip(1),
    {
        let b = self.data[0];
        let tail = self.data.split_off(1);
        self.data = tail;
        b
    }

    /// Consumes the first four bytes and returns them as a little-endian `u32`.
    pub fn read_u32_le(&mut self) -> (r: u32)
        requires
            old(self)@.len() >= 4,
        ensures
            r as nat == le_value(old(self)@.take(4)),
            final(self)@ == old(self)@.skip(4),
    {
        let r = crate::serial::read_u32_le_at(self.data.as_slice(), 0);
        let tail = self.data.split_off(4);
        self.data = tail;
        proof {
            assert(old(self)@.subrange(0, 4) =~= old(self)@.take(4));
        }
        r
    }

    /// Consumes the first eight bytes and returns them as a little-endian `u64`.
    pub fn read_u64_le(&mut self) -> (r: u64)
        requires
            old(self)@.len() >= 8,
        ensures
            r as nat == le_value(old(self)@.take(8)),
            final(self)@ == old(self)@.skip(8),
    {
        let r = crate::serial::read_u64_le_at(self.data.as_slice(), 0);
        let tail = self.data.split_off(8);
        self.data = tail;
        proof {
            assert(old(self)@.subrange(0, 8) =~= old(self)@.take(8));
        }
        r
    }
}

impl Clone for OwnedBytes {
    fn clone(&self) -> (r: Self)
        ensures
            r@ == self@,
    {
        OwnedBytes { data: self.data.clone() }
    }
}

} // verus!
