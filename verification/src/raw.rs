//! The fixed-width fallback codec: a stats header followed by every value
//! as a full little-endian eight-byte word, decodable at any row in O(1).

use vstd::prelude::*;
use crate::ownedbytes::OwnedBytes;
use crate::serial::{le_value, le_bytes, lemma_le_roundtrip, lemma_le_bytes_len, write_u32_le,
    write_u64_le};
use crate::stats::{NumRowsCollector, MinMaxCollector, seq_min, seq_max};
use crate::value::InvalidData;

verus! {

/// The dense value region: each value as eight little-endian bytes.
pub open spec fn raw_data_bytes(vals: Seq<u64>) -> Seq<u8>
    decreases vals.len(),
{
    if vals.len() == 0 {
        Seq::empty()
    } else {
        raw_data_bytes(vals.drop_last()) + le_bytes(vals.last() as nat, 8)
    }
}

/// The whole encoded column: row count, extrema, then the value region.
pub open spec fn raw_encoding(vals: Seq<u64>) -> Seq<u8> {
    le_bytes(vals.len() as nat, 4) + le_bytes(seq_min(vals) as nat, 8) + le_bytes(
        seq_max(vals) as nat,
        8,
    ) + raw_data_bytes(vals)
}

/// What a byte buffer means under the raw layout: `None` when the buffer
/// is too short for its own row count.
pub open spec fn raw_decode(bytes: Seq<u8>) -> Option<Seq<u64>> {
    if bytes.len() < 20 {
        None
    } else {
        let num_rows = le_value(bytes.subrange(0, 4));
        if bytes.len() < 20 + 8 * num_rows {
            None
        } else {
            Some(
                Seq::new(
                    num_rows,
                    |i: int| le_value(bytes.subrange(20 + 8 * i, 20 + 8 * i + 8)) as u64,
                ),
            )
        }
    }
}

/// The value region is eight bytes per value.
pub proof fn lemma_raw_data_len(vals: Seq<u64>)
    ensures
        raw_data_bytes(vals).len() == 8 * vals.len(),
    decreases vals.len(),
{
    if vals.len() > 0 {
        lemma_raw_data_len(vals.drop_last());
        lemma_le_bytes_len(vals.last() as nat, 8);
    }
}

/// Each value's eight bytes sit at its own offset of the value region.
pub proof fn lemma_raw_data_slot(vals: Seq<u64>, i: int)
    requires
        0 <= i < vals.len(),
    ensures
        raw_data_bytes(vals).subrange(8 * i, 8 * i + 8) == le_bytes(vals[i] as nat, 8),
    decreases vals.len(),
{
    lemma_raw_data_len(vals);
    lemma_le_bytes_len(vals.last() as nat, 8);
    if i == vals.len() - 1 {
        lemma_raw_data_len(vals.drop_last());
        assert(raw_data_bytes(vals).subrange(8 * i, 8 * i + 8) =~= le_bytes(
            vals.last() as nat,
            8,
        ));
    } else {
        lemma_raw_data_slot(vals.drop_last(), i);
        lemma_raw_data_len(vals.drop_last());
        assert(raw_data_bytes(vals).subrange(8 * i, 8 * i + 8) =~= raw_data_bytes(
            vals.drop_last(),
        ).subrange(8 * i, 8 * i + 8));
    }
}

/// Reads an encoded raw column; all state needed by `get_val` is checked
/// up front so reads cannot run out of bounds.
pub struct RawReader {
    min_value: u64,
    max_value: u64,
    num_rows: u32,
    data: OwnedBytes,
}

impl RawReader {
    /// The stored least value.
    pub closed spec fn min_spec(self) -> u64 {
        self.min_value
    }

    /// The stored greatest value.
    pub closed spec fn max_spec(self) -> u64 {
        self.max_value
    }

    /// The stored row count.
    pub closed spec fn num_rows_spec(self) -> u32 {
        self.num_rows
    }

    /// The value region.
    pub closed spec fn data_spec(self) -> Seq<u8> {
        self.data@
    }

    /// The value region covers every row.
    pub open spec fn wf(self) -> bool {
        8 * self.num_rows_spec() <= self.data_spec().len()
    }

    /// The value stored for a row.
    pub open spec fn value_at(self, row: int) -> u64 {
        le_value(self.data_spec().subrange(8 * row, 8 * row + 8)) as u64
    }

    /// Parses the header and takes the rest of the buffer as the value
    /// region; fails exactly on buffers too short for their row count.
    pub fn load(bytes: OwnedBytes) -> (r: Result<Self, InvalidData>)
        ensures
            match raw_decode(bytes@) {
                Some(vals) => {
                    &&& r is Ok
                    &&& r->Ok_0.wf()
                    &&& r->Ok_0.num_rows_spec() == vals.len()
                    &&& r->Ok_0.min_spec() as nat == le_value(bytes@.subrange(4, 12))
                    &&& r->Ok_0.max_spec() as nat == le_value(bytes@.subrange(12, 20))
                    &&& forall|row: int|
                        0 <= row < vals.len() ==> #[trigger] r->Ok_0.value_at(row) == vals[row]
                },
                None => r is Err,
            },
    {
        let mut bytes = bytes;
        if bytes.len() < 20 {
            return Err(InvalidData);
        }
        let ghost whole = bytes@;
        let num_rows = bytes.read_u32_le();
        let min_value = bytes.read_u64_le();
        let max_value = bytes.read_u64_le();
        proof {
            assert(whole.take(4) =~= whole.subrange(0, 4));
            assert(whole.skip(4).take(8) =~= whole.subrange(4, 12));
            assert(whole.skip(4).skip(8).take(8) =~= whole.subrange(12, 20));
            crate::serial::lemma_le_value_bound(whole.subrange(0, 4));
            crate::serial::lemma_pow256_values();
        }
        let data = bytes;
        if (data.len() as u64) / 8 < (num_rows as u64) {
            proof {
                assert(data@ =~= whole.skip(20));
            }
            return Err(InvalidData);
        }
        let r = RawReader { min_value, max_value, num_rows, data };
        proof {
            assert(r.data_spec() =~= whole.skip(20));
            let vals = raw_decode(whole)->Some_0;
            assert forall|row: int| 0 <= row < vals.len() implies r.value_at(row) == vals[row] by {
                assert(r.data_spec().subrange(8 * row, 8 * row + 8) =~= whole.subrange(
                    20 + 8 * row,
                    20 + 8 * row + 8,
                ));
            }
        }
        Ok(r)
    }

    /// The value of row `idx`.
    pub fn get_val(&self, idx: u32) -> (r: u64)
        requires
            self.wf(),
            idx < self.num_rows_spec(),
        ensures
            r == self.value_at(idx as int),
    {
        let dlen = self.data.len();
        crate::serial::read_u64_le_at(self.data.as_slice(), (idx as usize) * 8)
    }

    /// The least collected value, as stored in the header.
    pub fn min_value(&self) -> (r: u64)
        ensures
            r == self.min_spec(),
    {
        self.min_value
    }

    /// The greatest collected value, as stored in the header.
    pub fn max_value(&self) -> (r: u64)
        ensures
            r == self.max_spec(),
    {
        self.max_value
    }

    /// How many rows the column has.
    pub fn num_vals(&self) -> (r: u32)
        ensures
            r == self.num_rows_spec(),
    {
        self.num_rows
    }
}

/// The raw codec's streaming estimator: collects row count and extrema,
/// prices the column at eight bytes per row plus the header, and commits
/// the dense encoding.
pub struct RawCodecEstimator {
    num_rows_collector: NumRowsCollector,
    min_max_collector: MinMaxCollector,
}

impl RawCodecEstimator {
    /// The values fed so far, in order.
    pub closed spec fn history(self) -> Seq<u64> {
        self.num_rows_collector.history()
    }

    /// Both collectors have seen the same values.
    pub closed spec fn wf(self) -> bool {
        &&& self.num_rows_collector.wf()
        &&& self.min_max_collector.wf()
        &&& self.min_max_collector.history() == self.num_rows_collector.history()
    }

    /// An estimator that has seen nothing.
    pub fn new() -> (r: Self)
        ensures
            r.wf(),
            r.history() == Seq::<u64>::empty(),
    {
        RawCodecEstimator {
            num_rows_collector: NumRowsCollector::new(),
            min_max_collector: MinMaxCollector::new(),
        }
    }

    /// Feeds one value.
    pub fn collect(&mut self, value: u64)
        requires
            old(self).wf(),
            old(self).history().len() < u32::MAX,
        ensures
            final(self).wf(),
            final(self).history() == old(self).history().push(value),
    {
        self.num_rows_collector.collect(value);
        self.min_max_collector.collect(value);
    }

    /// Declares the column finished; the raw estimator buffers nothing,
    /// so there is nothing to flush.
    pub fn finalize(&mut self)
        requires
            old(self).wf(),
        ensures
            final(self).wf(),
            final(self).history() == old(self).history(),
    {
    }

    /// The exact size the dense encoding will have: the header's twenty
    /// bytes plus eight bytes per row.
    pub fn estimate(&self) -> (r: Option<u64>)
        requires
            self.wf(),
        ensures
            r == Some((20 + 8 * self.history().len()) as u64),
    {
        let num_rows = self.num_rows_collector.finalize();
        let a = self.min_max_collector.num_bytes();
        let b = self.num_rows_collector.num_bytes();
        Some(a + b + (num_rows as u64) * 8)
    }

    /// Appends the encoded column: header, then every value in order as a
    /// full eight-byte word. The bytes written decode to exactly the
    /// collected values.
    pub fn serialize(&self, vals: &Vec<u64>, out: &mut Vec<u8>)
        requires
            self.wf(),
            vals@ == self.history(),
            1 <= vals@.len() < u32::MAX,
        ensures
            final(out)@ == old(out)@ + raw_encoding(vals@),
            raw_decode(raw_encoding(vals@)) == Some(vals@),
    {
        let ghost base = out@;
        let num_rows = self.num_rows_collector.finalize();
        let (min_value, max_value) = self.min_max_collector.finalize();
        write_u32_le(out, num_rows);
        write_u64_le(out, min_value);
        write_u64_le(out, max_value);
        let ghost header = le_bytes(vals@.len() as nat, 4) + le_bytes(seq_min(vals@) as nat, 8)
            + le_bytes(seq_max(vals@) as nat, 8);
        proof {
            assert(out@ =~= base + header);
            assert(raw_data_bytes(vals@.take(0)) =~= Seq::<u8>::empty());
            assert(out@ =~= base + header + raw_data_bytes(vals@.take(0)));
        }
        let n = vals.len();
        let mut i: usize = 0;
        while i < n
            invariant
                n == vals@.len(),
                i <= n,
                header == le_bytes(vals@.len() as nat, 4) + le_bytes(seq_min(vals@) as nat, 8)
                    + le_bytes(seq_max(vals@) as nat, 8),
                out@ == base + header + raw_data_bytes(vals@.take(i as int)),
            decreases n - i,
        {
            write_u64_le(out, vals[i]);
            proof {
                assert(vals@.take(i + 1).drop_last() =~= vals@.take(i as int));
                assert(out@ =~= base + header + raw_data_bytes(vals@.take(i + 1)));
            }
            i = i + 1;
        }
        proof {
            assert(vals@.take(n as int) =~= vals@);
            assert(final(out)@ =~= base + raw_encoding(vals@));
            lemma_raw_roundtrip(vals@);
        }
    }
}

impl Default for RawCodecEstimator {
    /// An estimator that has seen nothing.
    fn default() -> (r: Self)
        ensures
            r.wf(),
            r.history() == Seq::<u64>::empty(),
    {
        RawCodecEstimator::new()
    }
}

/// The raw codec: loading inverts serializing.
pub struct RawCodec;

impl RawCodec {
    /// Reads an encoded raw column.
    pub fn load(bytes: OwnedBytes) -> (r: Result<RawReader, InvalidData>)
        ensures
            match raw_decode(bytes@) {
                Some(vals) => {
                    &&& r is Ok
                    &&& r->Ok_0.wf()
                    &&& r->Ok_0.num_rows_spec() == vals.len()
                    &&& forall|row: int|
                        0 <= row < vals.len() ==> #[trigger] r->Ok_0.value_at(row) == vals[row]
                },
                None => r is Err,
            },
    {
        RawReader::load(bytes)
    }
}

/// The raw estimator is exact: the estimate it reports for a column is
/// the byte length its serializer then writes.
pub proof fn lemma_raw_estimate_exact(vals: Seq<u64>)
    requires
        1 <= vals.len() < u32::MAX,
    ensures
        raw_encoding(vals).len() == 20 + 8 * vals.len(),
{
    lemma_le_bytes_len(vals.len() as nat, 4);
    lemma_le_bytes_len(seq_min(vals) as nat, 8);
    lemma_le_bytes_len(seq_max(vals) as nat, 8);
    lemma_raw_data_len(vals);
}

/// A dense raw encoding decodes back to the values it was made from.
pub proof fn lemma_raw_roundtrip(vals: Seq<u64>)
    requires
        1 <= vals.len() < u32::MAX,
    ensures
        raw_decode(raw_encoding(vals)) == Some(vals),
{
    let enc = raw_encoding(vals);
    crate::serial::lemma_pow256_values();
    lemma_le_roundtrip(vals.len() as nat, 4);
    lemma_le_roundtrip(seq_min(vals) as nat, 8);
    lemma_le_roundtrip(seq_max(vals) as nat, 8);
    lemma_raw_data_len(vals);
    assert(enc.subrange(0, 4) =~= le_bytes(vals.len() as nat, 4));
    assert(enc.len() == 20 + 8 * vals.len());
    let decoded = raw_decode(enc)->Some_0;
    assert forall|i: int| 0 <= i < vals.len() implies decoded[i] == vals[i] by {
        lemma_raw_data_slot(vals, i);
        assert(enc.subrange(20 + 8 * i, 20 + 8 * i + 8) =~= raw_data_bytes(vals).subrange(
            8 * i,
            8 * i + 8,
        ));
        lemma_le_roundtrip(vals[i] as nat, 8);
    }
    assert(decoded =~= vals);
}

} // verus!
