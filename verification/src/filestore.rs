//! Byte-region bookkeeping for item stores: where an item was written,
//! and readers over an already-loaded store region.

use vstd::prelude::*;
use crate::ownedbytes::OwnedBytes;
use crate::serial::{le_value, le_bytes, read_u64_le_at, write_u64_le};

verus! {

/// Where one written item landed: its start and length in bytes.
#[derive(Debug, Clone, Copy)]
pub struct WrittenOffset {
    pub start: u64,
    pub num_bytes: u64,
}

impl WrittenOffset {
    /// The byte range the item occupies.
    pub fn range(&self) -> (r: core::ops::Range<u64>)
        requires
            self.start + self.num_bytes <= u64::MAX,
        ensures
            r.start == self.start,
            r.end == self.start + self.num_bytes,
    {
        self.start..self.start + self.num_bytes
    }
}

/// Frames one record into a store region: an eight-byte little-endian
/// length word, then the payload, appended to the region. Returns where
/// the record landed, as the original region length and the framed size.
pub fn write_record(out: &mut Vec<u8>, payload: &[u8]) -> (r: WrittenOffset)
    requires
        old(out)@.len() + 8 + payload@.len() <= u64::MAX,
    ensures
        final(out)@ == old(out)@ + le_bytes(payload@.len(), 8) + payload@,
        r.start == old(out)@.len(),
        r.num_bytes == 8 + payload@.len(),
{
    let r = WrittenOffset { start: out.len() as u64, num_bytes: 8 + payload.len() as u64 };
    write_u64_le(out, payload.len() as u64);
    let mut body = vstd::slice::slice_to_vec(payload);
    out.append(&mut body);
    proof {
        assert(final(out)@ =~= old(out)@ + le_bytes(payload@.len(), 8) + payload@);
    }
    r
}

/// Reads length-prefixed items back out of a loaded store region.
pub struct IterableStoreReader<T> {
    data: OwnedBytes,
    offset: usize,
    _marker: core::marker::PhantomData<T>,
}

impl<T> IterableStoreReader<T> {
    /// The store region this reader walks.
    pub closed spec fn data_spec(self) -> Seq<u8> {
        self.data@
    }

    /// How far into the region the reader has come.
    pub closed spec fn offset_spec(self) -> usize {
        self.offset
    }

    /// A reader over an in-memory store region, starting at its beginning.
    pub fn from_bytes(data: Vec<u8>) -> (r: Self)
        ensures
            r.data_spec() == data@,
            r.offset_spec() == 0,
    {
        IterableStoreReader {
            data: OwnedBytes::new(data),
            offset: 0,
            _marker: core::marker::PhantomData,
        }
    }

    /// A reader over a sub-region, starting at that sub-region's beginning.
    pub fn slice(&self, range: core::ops::Range<usize>) -> (r: IterableStoreReader<T>)
        requires
            range.start <= range.end <= self.data_spec().len(),
        ensures
            r.data_spec() == self.data_spec().subrange(range.start as int, range.end as int),
            r.offset_spec() == 0,
    {
        IterableStoreReader {
            data: self.data.slice(range),
            offset: 0,
            _marker: core::marker::PhantomData,
        }
    }

    /// The next record's payload bytes, advancing past it; `None`, with
    /// the reader unmoved, once no whole record is left.
    pub fn next(&mut self) -> (r: Option<Vec<u8>>)
        ensures
            final(self).data_spec() == old(self).data_spec(),
            (match record_at(old(self).data_spec(), old(self).offset_spec() as int) {
                Some(end) => {
                    &&& r is Some
                    &&& r->Some_0@ == old(self).data_spec().subrange(
                        old(self).offset_spec() + 8,
                        end,
                    )
                    &&& final(self).offset_spec() == end
                },
                None => r is None && final(self).offset_spec() == old(self).offset_spec(),
            }),
    {
        let n = self.data.len();
        if self.offset > n || n - self.offset < 8 {
            return None;
        }
        let header = read_u64_le_at(self.data.as_slice(), self.offset);
        if (header as u128) > (n - self.offset - 8) as u128 {
            return None;
        }
        let body_start = self.offset + 8;
        let body_end = body_start + (header as usize);
        let slice: &[u8] = self.data.as_slice();
        let payload: Vec<u8> = vstd::slice::slice_to_vec(&slice[body_start..body_end]);
        self.offset = body_end;
        Some(payload)
    }

    /// Moves the reader to an absolute byte position of its region.
    pub fn seek_to(&mut self, offset: usize)
        ensures
            final(self).data_spec() == old(self).data_spec(),
            final(self).offset_spec() == offset,
    {
        self.offset = offset;
    }
}

/// Where the record framed at `offset` ends: past its length word and
/// payload, if the region holds both.
pub open spec fn record_at(data: Seq<u8>, offset: int) -> Option<int> {
    if offset < 0 || offset + 8 > data.len() {
        None
    } else {
        let header = le_value(data.subrange(offset, offset + 8));
        if offset + 8 + header > data.len() {
            None
        } else {
            Some(offset + 8 + header)
        }
    }
}

/// Reads fixed-size items back out of a loaded store region.
pub struct ConstIterableStoreReader<T> {
    data: OwnedBytes,
    offset: usize,
    _marker: core::marker::PhantomData<T>,
}

impl<T> ConstIterableStoreReader<T> {
    /// The store region this reader walks.
    pub closed spec fn data_spec(self) -> Seq<u8> {
        self.data@
    }

    /// How far into the region the reader has come.
    pub closed spec fn offset_spec(self) -> usize {
        self.offset
    }

    /// A reader over an in-memory store region, starting at its beginning.
    pub fn from_bytes(data: Vec<u8>) -> (r: Self)
        ensures
            r.data_spec() == data@,
            r.offset_spec() == 0,
    {
        ConstIterableStoreReader {
            data: OwnedBytes::new(data),
            offset: 0,
            _marker: core::marker::PhantomData,
        }
    }

    /// A reader over a sub-region, starting at that sub-region's beginning.
    pub fn slice(&self, range: core::ops::Range<usize>) -> (r: ConstIterableStoreReader<T>)
        requires
            range.start <= range.end <= self.data_spec().len(),
        ensures
            r.data_spec() == self.data_spec().subrange(range.start as int, range.end as int),
            r.offset_spec() == 0,
    {
        ConstIterableStoreReader {
            data: self.data.slice(range),
            offset: 0,
            _marker: core::marker::PhantomData,
        }
    }

    /// How many items of size `item_bytes` the region holds.
    pub fn len(&self, item_bytes: usize) -> (r: usize)
        requires
            item_bytes > 0,
        ensures
            r == self.data_spec().len() as int / item_bytes as int,
    {
        self.data.len() / item_bytes
    }

    /// Whether the region holds no item of size `item_bytes`.
    pub fn is_empty(&self, item_bytes: usize) -> (r: bool)
        requires
            item_bytes > 0,
        ensures
            r == (self.data_spec().len() as int / item_bytes as int == 0),
    {
        self.len(item_bytes) == 0
    }
}

} // verus!
