//! The blockwise-linear compression codec: values are split into blocks of
//! 512 rows, each block gets an affine model, and only the wrapping
//! residuals against that model are stored, bit-packed at the block's own
//! width. A trailing footer of per-block records makes any row readable in
//! O(1).

use vstd::prelude::*;
use vstd::arithmetic::power2::pow2;
use crate::bitpacker::{BitPacker, BitUnpacker, bytes_of_bits, compute_num_bits, num_bits_spec,
    stream_bits, bits_to_nat, u64_bits};
use crate::line::{Line, line_bytes, max_residual_prefix, max_residual_exec, parse_line_at,
    read_line_at, wsub, wadd, wmul, w64, wrapping_sub_u64, wrapping_add_u64, wrapping_mul_u64};

use crate::ownedbytes::OwnedBytes;
use crate::serial::{le_value, le_bytes, write_u32_le, write_u64_le, read_u32_le_at,
    read_u64_le_at};
use crate::stats::{NumRowsCollector, MinMaxCollector, GcdCollector, column_gcd, seq_min,
    seq_max};
use crate::value::InvalidData;

verus! {

/// Rows per block; every block but the last is full.
pub const BLOCK_SIZE: u32 = 512;

/// How many blocks a column of `num_rows` rows has.
pub open spec fn num_blocks_spec(num_rows: nat) -> nat {
    (num_rows + 511) / 512
}

/// Computes the block count.
pub fn compute_num_blocks(num_vals: u32) -> (r: u32)
    ensures
        r == num_blocks_spec(num_vals as nat),
{
    (((num_vals as u64) + 511) / 512) as u32
}

/// A block's footer record: its line and its residual bit width.
pub type BlockMeta = (Line, u8);

/// The footer: every block's record, in block order.
pub open spec fn footer_bytes(metas: Seq<BlockMeta>) -> Seq<u8>
    decreases metas.len(),
{
    if metas.len() == 0 {
        Seq::empty()
    } else {
        footer_bytes(metas.drop_last()) + line_bytes(metas.last().0) + seq![metas.last().1]
    }
}

/// Parses `count` block records at `pos`; a bit width above 64 is invalid.
pub open spec fn parse_blocks(bytes: Seq<u8>, pos: int, count: nat) -> Option<
    (Seq<BlockMeta>, int),
>
    decreases count,
{
    if count == 0 {
        Some((Seq::empty(), pos))
    } else {
        match parse_line_at(bytes, pos) {
            None => None,
            Some((line, mid)) => if 0 <= mid < bytes.len() && bytes[mid] <= 64 {
                match parse_blocks(bytes, mid + 1, (count - 1) as nat) {
                    None => None,
                    Some((rest, end)) => Some((seq![(line, bytes[mid])] + rest, end)),
                }
            } else {
                None
            },
        }
    }
}

/// Byte offset of block `k` in the packed value region: every earlier
/// block reserves a full block's worth of bytes at its own width.
pub open spec fn block_offset(metas: Seq<BlockMeta>, k: int) -> nat
    decreases k,
{
    if k <= 0 {
        0
    } else {
        block_offset(metas, k - 1) + metas[k - 1].1 as nat * 64
    }
}

/// How many rows block `k` of a column of `num_rows` rows holds.
pub open spec fn block_len(num_rows: nat, k: int) -> nat {
    if num_rows >= 512 * k + 512 {
        512
    } else {
        (num_rows - 512 * k) as nat
    }
}

/// Every row's residual lies inside the value region.
pub open spec fn rows_in_bounds(data_len: nat, metas: Seq<BlockMeta>, num_rows: nat) -> bool {
    forall|row: int|
        0 <= row < num_rows ==> #[trigger] row_end_bit(metas, row) <= data_len * 8
}

/// The bit right after row `row`'s packed residual.
pub open spec fn row_end_bit(metas: Seq<BlockMeta>, row: int) -> nat {
    (8 * block_offset(metas, row / 512) + (row % 512 + 1) * metas[row / 512].1 as nat) as nat
}

/// The value row `row` decodes to: the block's line at the row's ordinal,
/// plus the packed residual, scaled by the divisor and shifted by the
/// least value, all with wrapping arithmetic.
pub open spec fn decoded_row(
    data: Seq<u8>,
    metas: Seq<BlockMeta>,
    min: u64,
    gcd: u64,
    row: int,
) -> u64 {
    let k = row / 512;
    let i = row % 512;
    let w = metas[k].1;
    let start = 8 * block_offset(metas, k) + i * w;
    let resid = bits_to_nat(stream_bits(data).subrange(start as int, start + w)) as u64;
    wadd(min, wmul(gcd, wadd(metas[k].0.eval_spec(i as u64), resid)))
}

/// What a byte buffer means under the blockwise-linear layout: `None`
/// exactly when the buffer is malformed — too short, a zero divisor, a
/// footer that does not fit or does not parse, or residuals that would
/// reach outside the value region.
pub open spec fn blockwise_decode(bytes: Seq<u8>) -> Option<Seq<u64>> {
    let n = bytes.len() as int;
    if n < 32 {
        None
    } else {
        let num_rows = le_value(bytes.subrange(0, 4));
        let min = le_value(bytes.subrange(4, 12)) as u64;
        let gcd = le_value(bytes.subrange(20, 28)) as u64;
        let footer_len = le_value(bytes.subrange(n - 4, n));
        if gcd == 0 || 28 + footer_len + 4 > n {
            None
        } else {
            let fstart = n - 4 - footer_len;
            match parse_blocks(bytes, fstart, num_blocks_spec(num_rows)) {
                None => None,
                Some((metas, end)) => if end > n - 4 {
                    None
                } else {
                    let data = bytes.subrange(28, fstart);
                    if !rows_in_bounds(data.len(), metas, num_rows) {
                        None
                    } else {
                        Some(Seq::new(num_rows, |row: int| decoded_row(data, metas, min, gcd, row)))
                    }
                },
            }
        }
    }
}

/// One block as the reader holds it: the line, an unpacker at the block's
/// width, and where the block's residuals start in the value region.
#[derive(Clone)]
pub struct Block {
    line: Line,
    bit_unpacker: BitUnpacker,
    data_start_offset: u64,
}

/// Reads an encoded blockwise-linear column; every bound that `get_val`
/// relies on is checked by `load`.
#[derive(Clone)]
pub struct BlockwiseLinearReader {
    blocks: Vec<Block>,
    data: OwnedBytes,
    num_rows: u32,
    min_value: u64,
    max_value: u64,
    gcd: u64,
}

impl BlockwiseLinearReader {
    /// The per-block records.
    pub closed spec fn metas(self) -> Seq<BlockMeta> {
        Seq::new(self.blocks@.len() as nat, |k: int| (self.blocks@[k].line, self.blocks@[k].bit_unpacker.bit_width_spec()))
    }

    /// The packed value region.
    pub closed spec fn data_spec(self) -> Seq<u8> {
        self.data@
    }

    /// The stored row count.
    pub closed spec fn num_rows_spec(self) -> u32 {
        self.num_rows
    }

    /// The stored least value.
    pub closed spec fn min_spec(self) -> u64 {
        self.min_value
    }

    /// The stored greatest value.
    pub closed spec fn max_spec(self) -> u64 {
        self.max_value
    }

    /// The stored divisor.
    pub closed spec fn gcd_spec(self) -> u64 {
        self.gcd
    }

    /// The loader established: one record per block, valid widths,
    /// full-block-stride offsets, and residuals inside the value region.
    pub closed spec fn wf(self) -> bool {
        &&& self.gcd >= 1
        &&& self.blocks@.len() == num_blocks_spec(self.num_rows as nat)
        &&& forall|k: int| 0 <= k < self.blocks@.len() ==> (#[trigger] self.blocks@[k]).bit_unpacker.bit_width_spec() <= 64
        &&& forall|k: int|
            0 <= k < self.blocks@.len() ==> (#[trigger] self.blocks@[k]).data_start_offset
                == block_offset(self.metas(), k)
        &&& rows_in_bounds(self.data@.len(), self.metas(), self.num_rows as nat)
    }

    /// Whether the reader is well formed, as a caller-visible fact.
    pub open spec fn inv(self) -> bool {
        self.wf()
    }

    /// The value stored for a row.
    pub open spec fn value_at(self, row: int) -> u64 {
        decoded_row(self.data_spec(), self.metas(), self.min_spec(), self.gcd_spec(), row)
    }

    /// The value of row `idx`.
    pub fn get_val(&self, idx: u32) -> (r: u64)
        requires
            self.inv(),
            idx < self.num_rows_spec(),
        ensures
            r == self.value_at(idx as int),
    {
        let block_id = (idx / BLOCK_SIZE) as usize;
        let idx_within_block: u32 = idx % BLOCK_SIZE;
        proof {
            lemma_block_of_row(self.num_rows as nat, idx as int);
        }
        let block = &self.blocks[block_id];
        let interpolated = block.line.eval(idx_within_block);
        let dlen = self.data.len();
        let data_slice: &[u8] = self.data.as_slice();
        proof {
            let metas = self.metas();
            let k = idx as int / 512;
            let i = idx as int % 512;
            let w = metas[k].1 as int;
            assert(row_end_bit(metas, idx as int) <= self.data@.len() * 8);
            assert((i + 1) * w == i * w + w) by {
                vstd::arithmetic::mul::lemma_mul_is_distributive_add_other_way(w, i, 1);
            }
        }
        proof {
            let metas = self.metas();
            let k = idx as int / 512;
            assert(row_end_bit(metas, idx as int) <= self.data@.len() * 8);
            assert(block_offset(metas, k) <= self.data@.len());
        }
        let block_bytes: &[u8] = &data_slice[(block.data_start_offset as usize)..dlen];
        let bitpacked_diff = block.bit_unpacker.get(idx_within_block, block_bytes);
        proof {
            let metas = self.metas();
            let k = idx as int / 512;
            let i = idx as int % 512;
            let w = metas[k].1 as int;
            let off = block_offset(metas, k) as int;
            lemma_stream_bits_skip(self.data@, off, i * w, i * w + w);
            assert(block_bytes@ =~= self.data@.skip(off));
        }
        wrapping_add_u64(
            self.min_value,
            wrapping_mul_u64(self.gcd, wrapping_add_u64(interpolated, bitpacked_diff)),
        )
    }

    /// The least collected value, as stored in the header.
    pub fn min_value(&self) -> (r: u64)
        ensures
            r == self.min_spec(),
    {
        self.min_value
    }

    /// The greatest collected value, as stored in the header.
    pub fn max_value(&self) -> (r: u64)
        ensures
            r == self.max_spec(),
    {
        self.max_value
    }

    /// How many rows the column has.
    pub fn num_vals(&self) -> (r: u32)
        ensures
            r == self.num_rows_spec(),
    {
        self.num_rows
    }
}

/// A row's block index is inside the block list.
proof fn lemma_block_of_row(num_rows: nat, row: int)
    requires
        0 <= row < num_rows,
    ensures
        0 <= row / 512 < num_blocks_spec(num_rows),
        0 <= row % 512 < 512,
{
}

/// Bits of a suffix are the tail of the bits of the whole.
proof fn lemma_stream_bits_skip(bytes: Seq<u8>, off: int, a: int, b: int)
    requires
        0 <= off <= bytes.len(),
        0 <= a <= b <= 8 * (bytes.len() - off),
    ensures
        stream_bits(bytes.skip(off)).subrange(a, b) == stream_bits(bytes).subrange(
            8 * off + a,
            8 * off + b,
        ),
{
    assert forall|j: int| 0 <= j < b - a implies #[trigger] stream_bits(bytes.skip(off)).subrange(
        a,
        b,
    )[j] == stream_bits(bytes).subrange(8 * off + a, 8 * off + b)[j] by {
        let x = a + j;
        assert((8 * off + x) / 8 == off + x / 8 && (8 * off + x) % 8 == x % 8) by {
            vstd::arithmetic::div_mod::lemma_fundamental_div_mod(x, 8);
            vstd::arithmetic::div_mod::lemma_mod_bound(x, 8);
            vstd::arithmetic::div_mod::lemma_div_multiples_vanish_fancy(off + x / 8, x % 8, 8);
            vstd::arithmetic::div_mod::lemma_mod_multiples_vanish(off, x, 8);
        }
        assert(bytes.skip(off)[x / 8] == bytes[off + x / 8]);
    }
    assert(stream_bits(bytes.skip(off)).subrange(a, b) =~= stream_bits(bytes).subrange(
        8 * off + a,
        8 * off + b,
    ));
}

/// Loads an encoded blockwise-linear column: parses the header, locates
/// the footer from the trailing length word, parses one record per block,
/// computes each block's offset by full-block strides, and checks that
/// every row's residual lies inside the value region. Fails exactly on
/// the buffers the layout calls malformed.
#[verifier::loop_isolation(false)]
#[verifier::rlimit(60)]
pub fn load_blockwise(bytes: OwnedBytes) -> (r: Result<BlockwiseLinearReader, InvalidData>)
    ensures
        match blockwise_decode(bytes@) {
            Some(vals) => {
                &&& r is Ok
                &&& r->Ok_0.inv()
                &&& r->Ok_0.num_rows_spec() == vals.len()
                &&& r->Ok_0.min_spec() as nat == le_value(bytes@.subrange(4, 12))
                &&& r->Ok_0.max_spec() as nat == le_value(bytes@.subrange(12, 20))
                &&& r->Ok_0.gcd_spec() as nat == le_value(bytes@.subrange(20, 28))
                &&& forall|row: int|
                    0 <= row < vals.len() ==> #[trigger] r->Ok_0.value_at(row) == vals[row]
            },
            None => r is Err,
        },
{
    let n = bytes.len();
    if n < 32 {
        return Err(InvalidData);
    }
    let s: &[u8] = bytes.as_slice();
    let num_rows = read_u32_le_at(s, 0);
    let min_value = read_u64_le_at(s, 4);
    let max_value = read_u64_le_at(s, 12);
    let gcd = read_u64_le_at(s, 20);
    let footer_len = read_u32_le_at(s, n - 4);
    proof {
        assert(bytes@.subrange(n - 4, n - 4 + 4) =~= bytes@.subrange(n as int - 4, n as int));
    }
    if gcd == 0 {
        return Err(InvalidData);
    }
    if (footer_len as u64) + 32 > (n as u64) {
        return Err(InvalidData);
    }
    let fstart: usize = n - 4 - (footer_len as usize);
    let num_blocks = compute_num_blocks(num_rows);
    let dlen: usize = fstart - 28;
    let ghost whole = bytes@;
    let ghost nb = num_blocks_spec(num_rows as nat);

    let mut blocks: Vec<Block> = Vec::new();
    let mut pos: usize = fstart;
    let mut off: u64 = 0;
    let mut k: u32 = 0;
    let mut ok: bool = true;
    while k < num_blocks
        invariant
            nb == num_blocks_spec(num_rows as nat),
            num_blocks == nb,
            k <= num_blocks,
            n == whole.len(),
            n >= 32,
            fstart <= n - 4,
            fstart >= 28,
            dlen == fstart - 28,
            s@ == whole,
            blocks@.len() == k,
            off == block_offset(metas_of(blocks@), k as int),
            off <= 4096 * k,
            pos <= n,
            parse_blocks(whole, fstart as int, k as nat) == Some((metas_of(blocks@), pos as int)),
            forall|j: int|
                0 <= j < k ==> (#[trigger] blocks@[j]).bit_unpacker.bit_width_spec() <= 64,
            forall|j: int|
                0 <= j < k ==> (#[trigger] blocks@[j]).data_start_offset == block_offset(
                    metas_of(blocks@),
                    j,
                ),
            ok == forall|j: int|
                0 <= j < k ==> 8 * block_offset(metas_of(blocks@), j) + block_len(
                    num_rows as nat,
                    j,
                ) * (#[trigger] metas_of(blocks@)[j]).1 as nat <= 8 * dlen,
        decreases num_blocks - k,
    {
        let ghost old_metas = metas_of(blocks@);
        let ghost old_pos = pos as int;
        let parsed = read_line_at(s, pos);
        proof {
            lemma_parse_blocks_split(whole, fstart as int, k as nat, nb);
            crate::line::lemma_parse_line_bound(whole, old_pos);
        }
        match parsed {
            None => {
                proof {
                    assert(parse_blocks(whole, fstart as int, nb) is None);
                }
                return Err(InvalidData);
            },
            Some((line, mid)) => {
                if mid >= n {
                    proof {
                        crate::serial::lemma_parse_vint_bound(whole, old_pos, crate::serial::vint_max_len());
                    }
                    return Err(InvalidData);
                }
                let bw: u8 = s[mid];
                if bw > 64 {
                    return Err(InvalidData);
                }
                let block_start: u64 = off;
                proof {
                    assert(512 * nb <= num_rows + 511) by {
                        vstd::arithmetic::div_mod::lemma_fundamental_div_mod(
                            num_rows as int + 511,
                            512,
                        );
                        vstd::arithmetic::div_mod::lemma_mod_bound(num_rows as int + 511, 512);
                    }
                    assert(512 * (k as int) < num_rows as int) by {
                        vstd::arithmetic::mul::lemma_mul_inequality(k as int + 1, nb as int, 512);
                    }
                }
                let this_len: u64 = if (num_rows as u64) >= (k as u64) * 512 + 512 {
                    512
                } else {
                    (num_rows as u64) - (k as u64) * 512
                };
                proof {
                    vstd::arithmetic::mul::lemma_mul_upper_bound(
                        this_len as int,
                        512,
                        bw as int,
                        64,
                    );
                    assert(this_len == block_len(num_rows as nat, k as int));
                }
                if 8u128 * (block_start as u128) + (this_len as u128) * (bw as u128) > 8u128
                    * (dlen as u128) {
                    ok = false;
                }
                blocks.push(
                    Block {
                        line,
                        bit_unpacker: BitUnpacker::new(bw),
                        data_start_offset: block_start,
                    },
                );
                pos = mid + 1;
                off = off + (bw as u64) * 64;
                k = k + 1;
                proof {
                    let meta = (line, bw);
                    let metas = metas_of(blocks@);
                    assert(metas =~= old_metas.push(meta));
                    assert(metas.drop_last() =~= old_metas);
                    lemma_block_offset_extend(old_metas, meta);
                    assert(metas[k as int - 1] == meta);
                    assert(block_offset(old_metas.push(meta), k - 1) == block_offset(
                        old_metas,
                        k - 1,
                    ));
                    assert(block_offset(metas, k as int) == block_offset(old_metas, k - 1)
                        + bw as nat * 64);
                    lemma_parse_blocks_one(whole, old_pos, line, bw, mid as int);
                    lemma_parse_blocks_split(whole, fstart as int, (k - 1) as nat, k as nat);
                    assert(old_metas + seq![meta] =~= metas);
                    assert(parse_blocks(whole, fstart as int, k as nat) == Some(
                        (metas, pos as int),
                    ));
                }
            },
        }
    }
    proof {
        lemma_parse_blocks_split(whole, fstart as int, nb, nb);
    }
    if pos > n - 4 {
        return Err(InvalidData);
    }
    if !ok {
        proof {
            lemma_bounds_fail(whole, metas_of(blocks@), num_rows as nat, dlen as nat);
        }
        return Err(InvalidData);
    }
    let data = bytes.slice(28..fstart);
    let reader = BlockwiseLinearReader { blocks, data, num_rows, min_value, max_value, gcd };
    proof {
        assert(reader.metas() =~= metas_of(reader.blocks@));
        assert(reader.data@ =~= whole.subrange(28, fstart as int));
        lemma_bounds_ok(reader.metas(), num_rows as nat, dlen as nat);
        let vals = blockwise_decode(whole)->Some_0;
        assert forall|row: int| 0 <= row < vals.len() implies reader.value_at(row) == vals[row] by {
        }
    }
    Ok(reader)
}

/// The blockwise-linear codec: loading inverts serializing.
pub struct BlockwiseLinearCodec;

impl BlockwiseLinearCodec {
    /// Reads an encoded blockwise-linear column.
    pub fn load(bytes: OwnedBytes) -> (r: Result<BlockwiseLinearReader, InvalidData>)
        ensures
            match blockwise_decode(bytes@) {
                Some(vals) => {
                    &&& r is Ok
                    &&& r->Ok_0.inv()
                    &&& r->Ok_0.num_rows_spec() == vals.len()
                    &&& r->Ok_0.min_spec() as nat == le_value(bytes@.subrange(4, 12))
                    &&& r->Ok_0.max_spec() as nat == le_value(bytes@.subrange(12, 20))
                    &&& r->Ok_0.gcd_spec() as nat == le_value(bytes@.subrange(20, 28))
                    &&& forall|row: int|
                        0 <= row < vals.len() ==> #[trigger] r->Ok_0.value_at(row) == vals[row]
                },
                None => r is Err,
            },
    {
        load_blockwise(bytes)
    }
}

/// The records a block vector denotes.
spec fn metas_of(blocks: Seq<Block>) -> Seq<BlockMeta> {
    Seq::new(blocks.len(), |k: int| (blocks[k].line, blocks[k].bit_unpacker.bit_width_spec()))
}

/// Appending a record leaves earlier offsets alone.
proof fn lemma_block_offset_extend(metas: Seq<BlockMeta>, meta: BlockMeta)
    ensures
        forall|j: int|
            0 <= j <= metas.len() ==> #[trigger] block_offset(metas.push(meta), j) == block_offset(
                metas,
                j,
            ),
{
    assert forall|j: int| 0 <= j <= metas.len() implies #[trigger] block_offset(
        metas.push(meta),
        j,
    ) == block_offset(metas, j) by {
        lemma_block_offset_prefix(metas.push(meta), metas, j);
    }
}

/// Offsets only look at records before `k`.
proof fn lemma_block_offset_prefix(a: Seq<BlockMeta>, b: Seq<BlockMeta>, k: int)
    requires
        k <= a.len(),
        k <= b.len(),
        forall|j: int| 0 <= j < k ==> a[j] == b[j],
    ensures
        block_offset(a, k) == block_offset(b, k),
    decreases k,
{
    if k > 0 {
        lemma_block_offset_prefix(a, b, k - 1);
    }
}

/// Parsing one record at `pos` reads the line and then the width byte.
proof fn lemma_parse_blocks_one(bytes: Seq<u8>, pos: int, line: Line, bw: u8, mid: int)
    requires
        parse_line_at(bytes, pos) == Some((line, mid)),
        0 <= mid < bytes.len(),
        bytes[mid] == bw,
        bw <= 64,
    ensures
        parse_blocks(bytes, pos, 1) == Some((seq![(line, bw)], mid + 1)),
{
    assert(parse_blocks(bytes, mid + 1, 0) == Some((Seq::<BlockMeta>::empty(), mid + 1)));
    assert(seq![(line, bw)] + Seq::<BlockMeta>::empty() =~= seq![(line, bw)]);
}

/// Parsing `count` records splits at any `k`: the first `k`, then the rest
/// from where they ended.
proof fn lemma_parse_blocks_split(bytes: Seq<u8>, pos: int, k: nat, count: nat)
    requires
        k <= count,
    ensures
        parse_blocks(bytes, pos, count) == (match parse_blocks(bytes, pos, k) {
            None => None::<(Seq<BlockMeta>, int)>,
            Some((m1, p1)) => match parse_blocks(bytes, p1, (count - k) as nat) {
                None => None::<(Seq<BlockMeta>, int)>,
                Some((m2, end)) => Some((m1 + m2, end)),
            },
        }),
    decreases k,
{
    if k == 0 {
        match parse_blocks(bytes, pos, count) {
            None => {},
            Some((m, e)) => {
                assert(Seq::<BlockMeta>::empty() + m =~= m);
            },
        }
    } else {
        match parse_line_at(bytes, pos) {
            None => {},
            Some((line, mid)) => {
                if 0 <= mid < bytes.len() && bytes[mid] <= 64 {
                    lemma_parse_blocks_split(bytes, mid + 1, (k - 1) as nat, (count - 1) as nat);
                    match parse_blocks(bytes, mid + 1, (k - 1) as nat) {
                        None => {},
                        Some((m1, p1)) => {
                            match parse_blocks(bytes, p1, (count - k) as nat) {
                                None => {},
                                Some((m2, end)) => {
                                    assert(seq![(line, bytes[mid])] + (m1 + m2) =~= (seq![
                                        (line, bytes[mid]),
                                    ] + m1) + m2);
                                },
                            }
                        },
                    }
                }
            },
        }
    }
}

/// If some block's own rows overrun the region, some row overruns it.
proof fn lemma_bounds_fail(bytes: Seq<u8>, metas: Seq<BlockMeta>, num_rows: nat, dlen: nat)
    requires
        metas.len() == num_blocks_spec(num_rows),
        exists|j: int|
            0 <= j < metas.len() && 8 * block_offset(metas, j) + block_len(num_rows, j) * (
            #[trigger] metas[j]).1 as nat > 8 * dlen,
    ensures
        !rows_in_bounds(dlen, metas, num_rows),
{
    let j = choose|j: int|
        0 <= j < metas.len() && 8 * block_offset(metas, j) + block_len(num_rows, j) * (
        #[trigger] metas[j]).1 as nat > 8 * dlen;
    let len_j = block_len(num_rows, j);
    // The last row of block j is the witness.
    let row = 512 * j + len_j - 1;
    assert(len_j >= 1 && len_j <= 512) by {
        lemma_block_len_pos(num_rows, j);
    }
    assert(row / 512 == j && row % 512 == len_j - 1) by {
        vstd::arithmetic::div_mod::lemma_div_multiples_vanish_fancy(j, (len_j - 1) as int, 512);
        vstd::arithmetic::div_mod::lemma_mod_multiples_vanish(j, (len_j - 1) as int, 512);
        vstd::arithmetic::div_mod::lemma_small_mod((len_j - 1) as nat, 512);
    }
    assert(row_end_bit(metas, row) == 8 * block_offset(metas, j) + len_j * metas[j].1 as nat);
    assert(0 <= row < num_rows) by {
        lemma_block_rows(num_rows, j);
    }
}

/// Every block of the block count has at least one row and at most 512.
proof fn lemma_block_len_pos(num_rows: nat, j: int)
    requires
        0 <= j < num_blocks_spec(num_rows),
    ensures
        1 <= block_len(num_rows, j) <= 512,
{
}

/// The rows of block `j` are rows of the column.
proof fn lemma_block_rows(num_rows: nat, j: int)
    requires
        0 <= j < num_blocks_spec(num_rows),
    ensures
        512 * j + block_len(num_rows, j) <= num_rows,
        512 * j < num_rows,
{
}

/// If every block's rows fit, every row fits.
proof fn lemma_bounds_ok(metas: Seq<BlockMeta>, num_rows: nat, dlen: nat)
    requires
        metas.len() == num_blocks_spec(num_rows),
        forall|j: int|
            0 <= j < metas.len() ==> 8 * block_offset(metas, j) + block_len(num_rows, j) * (
            #[trigger] metas[j]).1 as nat <= 8 * dlen,
    ensures
        rows_in_bounds(dlen, metas, num_rows),
{
    assert forall|row: int| 0 <= row < num_rows implies #[trigger] row_end_bit(metas, row) <= dlen
        * 8 by {
        let k = row / 512;
        let i = row % 512;
        lemma_block_of_row(num_rows, row);
        assert(i + 1 <= block_len(num_rows, k)) by {
            vstd::arithmetic::div_mod::lemma_fundamental_div_mod(row, 512);
        }
        let w = metas[k].1 as nat;
        assert((i + 1) * w <= block_len(num_rows, k) * w) by {
            vstd::arithmetic::mul::lemma_mul_inequality(i + 1, block_len(num_rows, k) as int, w as int);
        }
    }
}

impl Default for BlockwiseLinearEstimator {
    /// An estimator that has seen nothing.
    fn default() -> (r: Self)
        ensures
            r.wf(),
            r.history() == Seq::<u64>::empty(),
    {
        BlockwiseLinearEstimator::new()
    }
}

/// The residual bit width the estimator prices a block at: the width of
/// the largest wrapping residual against the line trained on the block.
pub open spec fn flush_width(block: Seq<u64>) -> nat {
    num_bits_spec(max_residual_prefix(Line::train_spec(block), block, block.len() as int))
}

/// The packed bytes a flushed block adds to the running value total.
pub open spec fn flush_value_cost(block: Seq<u64>) -> int {
    ((flush_width(block) * block.len() + 7) / 8) as int
}

/// The record bytes a flushed block adds to the running metadata total:
/// one width byte and the line record.
pub open spec fn flush_meta_cost(block: Seq<u64>) -> int {
    (1 + line_bytes(Line::train_spec(block)).len()) as int
}

/// Block `k`'s values, shifted down by the least value and divided by the
/// column's divisor.
#[verifier::opaque]
pub open spec fn reduced_block(vals: Seq<u64>, k: int) -> Seq<u64> {
    Seq::new(
        block_len(vals.len(), k),
        |i: int| (((vals[512 * k + i] - seq_min(vals)) as int) / (column_gcd(vals) as int)) as u64,
    )
}

/// The line the encoder fits to block `k`'s reduced values.
#[verifier::opaque]
pub open spec fn block_line(vals: Seq<u64>, k: int) -> Line {
    Line::train_spec(reduced_block(vals, k))
}

/// The per-block footer records the encoder commits: each block's line and
/// the width of its largest residual.
#[verifier::opaque]
pub open spec fn encoding_metas(vals: Seq<u64>) -> Seq<BlockMeta> {
    Seq::new(
        num_blocks_spec(vals.len()) as nat,
        |k: int| (block_line(vals, k), flush_width(reduced_block(vals, k)) as u8),
    )
}

/// The residual stored for each row: its reduced value's wrapping distance
/// from its block's line.
#[verifier::opaque]
pub open spec fn encoding_resids(vals: Seq<u64>) -> Seq<u64> {
    Seq::new(
        vals.len(),
        |r: int| block_line(vals, r / 512).residual(reduced_block(vals, r / 512), r % 512),
    )
}

/// The whole encoded column as a function of its values: the stats header,
/// the bit-packed residual stream, the footer, and the footer's length.
/// Encoding is deterministic: equal columns give equal bytes.
#[verifier::opaque]
pub open spec fn blockwise_encoding(vals: Seq<u64>) -> Seq<u8> {
    le_bytes(vals.len(), 4) + le_bytes(seq_min(vals) as nat, 8) + le_bytes(seq_max(vals) as nat, 8)
        + le_bytes(column_gcd(vals), 8) + bytes_of_bits(
        all_blocks_bits(
            encoding_resids(vals),
            encoding_metas(vals),
            vals.len(),
            num_blocks_spec(vals.len()) as int,
        ),
    ) + footer_bytes(encoding_metas(vals)) + le_bytes(footer_bytes(encoding_metas(vals)).len(), 4)
}

/// The streaming estimator of the blockwise-linear codec.
///
/// It buffers one block at a time; when the buffer fills it trains a line
/// on the raw block (global statistics are not known yet, which makes the
/// estimate an upper bound), and accumulates the block's packed size and
/// record size. The divisor's savings are subtracted only at the end.
pub struct BlockwiseLinearEstimator {
    block: Vec<u64>,
    values_num_bytes: u64,
    meta_num_bytes: u64,
    num_rows_collector: NumRowsCollector,
    min_max_collector: MinMaxCollector,
    gcd_collector: GcdCollector,
}

impl BlockwiseLinearEstimator {
    /// The values fed so far, in order.
    pub closed spec fn history(self) -> Seq<u64> {
        self.num_rows_collector.history()
    }

    /// The values buffered for the block being filled.
    pub closed spec fn block_spec(self) -> Seq<u64> {
        self.block@
    }

    /// The accumulated packed size of the flushed blocks.
    pub closed spec fn values_bytes_spec(self) -> u64 {
        self.values_num_bytes
    }

    /// The accumulated record size of the flushed blocks.
    pub closed spec fn meta_bytes_spec(self) -> u64 {
        self.meta_num_bytes
    }

    /// Collectors agree on the history, the buffer is the unflushed tail,
    /// and the accumulators stay small enough to add without overflow.
    pub closed spec fn wf(self) -> bool {
        &&& self.num_rows_collector.wf()
        &&& self.min_max_collector.wf()
        &&& self.gcd_collector.wf()
        &&& self.min_max_collector.history() == self.num_rows_collector.history()
        &&& self.gcd_collector.history() == self.num_rows_collector.history()
        &&& self.history().len() <= u32::MAX
        &&& self.block@.len() <= self.history().len()
        &&& self.block@ == self.history().skip(
            self.history().len() - self.block@.len(),
        )
        &&& self.block@.len() < 512
        &&& self.values_num_bytes <= 8 * (self.history().len() - self.block@.len())
        &&& self.meta_num_bytes <= 21 * (self.history().len() - self.block@.len())
    }

    /// An estimator that has seen nothing.
    pub fn new() -> (r: Self)
        ensures
            r.wf(),
            r.history() == Seq::<u64>::empty(),
    {
        let r = BlockwiseLinearEstimator {
            block: Vec::new(),
            values_num_bytes: 0,
            meta_num_bytes: 0,
            num_rows_collector: NumRowsCollector::new(),
            min_max_collector: MinMaxCollector::new(),
            gcd_collector: GcdCollector::new(),
        };
        proof {
            assert(r.block@ =~= r.history().skip(0));
        }
        r
    }

    /// Prices the buffered block and drains it: trains a line on the raw
    /// values, finds the widest residual, and adds the block's packed and
    /// record bytes to the running totals. `ref_len` is the row count the
    /// accumulator bounds are measured against.
    #[verifier::loop_isolation(false)]
    fn flush_block_estimate(&mut self, ref_len: Ghost<nat>)
        requires
            ref_len@ <= u32::MAX,
            old(self).block@.len() <= 512,
            old(self).block@.len() <= ref_len@,
            old(self).values_num_bytes <= 8 * (ref_len@ - old(self).block@.len()),
            old(self).meta_num_bytes <= 21 * (ref_len@ - old(self).block@.len()),
        ensures
            final(self).num_rows_collector == old(self).num_rows_collector,
            final(self).min_max_collector == old(self).min_max_collector,
            final(self).gcd_collector == old(self).gcd_collector,
            final(self).block@.len() == 0,
            old(self).block@.len() == 0 ==> final(self).values_num_bytes == old(
                self,
            ).values_num_bytes && final(self).meta_num_bytes == old(self).meta_num_bytes,
            old(self).block@.len() > 0 ==> final(self).values_num_bytes == old(
                self,
            ).values_num_bytes + flush_value_cost(old(self).block@) && final(self).meta_num_bytes
                == old(self).meta_num_bytes + flush_meta_cost(old(self).block@),
            final(self).values_num_bytes <= 8 * ref_len@,
            final(self).meta_num_bytes <= 21 * ref_len@,
    {
        if self.block.len() == 0 {
            return;
        }
        let line = Line::train(&self.block);
        let n = self.block.len();
        let max_value = max_residual_exec(&line, &self.block);
        let bit_width = compute_num_bits(max_value);
        proof {
            vstd::arithmetic::mul::lemma_mul_upper_bound(bit_width as int, 64, n as int, 512);
            vstd::arithmetic::mul::lemma_mul_inequality(bit_width as int, 64, n as int);
        }
        let add_values: u64 = ((bit_width as u64) * (n as u64) + 7) / 8;
        let line_len: u64 = line.num_bytes();
        proof {
            assert(add_values == flush_value_cost(old(self).block@));
            assert(1 + line_len == flush_meta_cost(old(self).block@));
            assert(add_values <= 8 * n) by {
                assert((64 * (n as int) + 7) / 8 == 8 * n as int) by {
                    vstd::arithmetic::div_mod::lemma_div_multiples_vanish_fancy(
                        8 * n as int,
                        7,
                        8,
                    );
                }
                vstd::arithmetic::div_mod::lemma_div_is_ordered(
                    (bit_width as int) * (n as int) + 7,
                    64 * (n as int) + 7,
                    8,
                );
            }
        }
        self.values_num_bytes = self.values_num_bytes + add_values;
        self.meta_num_bytes = self.meta_num_bytes + 1 + line_len;
        self.block.clear();
    }

    /// Whether the block buffer is empty.
    pub closed spec fn block_is_empty(self) -> bool {
        self.block@.len() == 0
    }

    /// Feeds one value; a full buffer is priced and drained.
    pub fn collect(&mut self, value: u64)
        requires
            old(self).wf(),
            old(self).history().len() < u32::MAX,
        ensures
            final(self).wf(),
            final(self).history() == old(self).history().push(value),
            old(self).block_spec().len() + 1 == 512 ==> final(self).block_spec().len() == 0
                && final(self).values_bytes_spec() == old(self).values_bytes_spec()
                + flush_value_cost(old(self).block_spec().push(value))
                && final(self).meta_bytes_spec() == old(self).meta_bytes_spec()
                + flush_meta_cost(old(self).block_spec().push(value)),
            old(self).block_spec().len() + 1 < 512 ==> final(self).block_spec()
                == old(self).block_spec().push(value)
                && final(self).values_bytes_spec() == old(self).values_bytes_spec()
                && final(self).meta_bytes_spec() == old(self).meta_bytes_spec(),
    {
        let ghost h0_len = old(self).history().len();
        self.block.push(value);
        proof {
            assert(self.block@.drop_last() =~= old(self).block@);
        }
        if self.block.len() == 512 {
            self.flush_block_estimate(Ghost(h0_len + 1));
        }
        self.num_rows_collector.collect(value);
        self.min_max_collector.collect(value);
        self.gcd_collector.collect(value);
        proof {
            let h = self.history();
            assert(h =~= old(self).history().push(value));
            if self.block@.len() > 0 {
                assert(self.block@ =~= h.skip(h.len() - self.block@.len())) by {
                    assert(old(self).block@ =~= old(self).history().skip(
                        old(self).history().len() - old(self).block@.len(),
                    ));
                }
            } else {
                assert(self.block@ =~= h.skip(h.len() as int));
            }
        }
    }

    /// Declares the column finished: prices and drains any partial block,
    /// so the estimate accounts for every collected row.
    pub fn finalize(&mut self)
        requires
            old(self).wf(),
        ensures
            final(self).wf(),
            final(self).history() == old(self).history(),
            final(self).block_is_empty(),
            old(self).block_spec().len() == 0 ==> final(self).values_bytes_spec()
                == old(self).values_bytes_spec()
                && final(self).meta_bytes_spec() == old(self).meta_bytes_spec(),
            old(self).block_spec().len() > 0 ==> final(self).values_bytes_spec()
                == old(self).values_bytes_spec() + flush_value_cost(old(self).block_spec())
                && final(self).meta_bytes_spec() == old(self).meta_bytes_spec()
                + flush_meta_cost(old(self).block_spec()),
    {
        let ghost h_len = old(self).history().len();
        self.flush_block_estimate(Ghost(h_len));
        proof {
            let h = self.history();
            assert(self.block@ =~= h.skip(h.len() as int));
        }
    }

    /// The estimated encoded size: the fixed header and trailing length
    /// word, the accumulated block records and packed values, less the
    /// expected savings of factoring the divisor out of every row.
    pub open spec fn estimate_spec(self) -> u64 {
        let base = 32 + self.meta_bytes_spec() + self.values_bytes_spec();
        let g = column_gcd(self.history());
        if g > 1 {
            let gain = crate::bitpacker::log2_floor(g) * self.history().len() / 8;
            if gain > base {
                0
            } else {
                (base - gain) as u64
            }
        } else {
            base as u64
        }
    }

    /// Estimates the encoded size without encoding.
    pub fn estimate(&self) -> (r: Option<u64>)
        requires
            self.wf(),
            1 <= self.history().len() < u32::MAX,
        ensures
            r == Some(self.estimate_spec()),
    {
        let num_rows = self.num_rows_collector.finalize();
        let gcd = self.gcd_collector.finalize();
        let a = self.num_rows_collector.num_bytes();
        let b = self.min_max_collector.num_bytes();
        let c = self.gcd_collector.num_bytes();
        let mut estimate: u64 = 4 + a + b + c + self.meta_num_bytes + self.values_num_bytes;
        if gcd > 1 {
            let bits = compute_num_bits(gcd);
            proof {
                crate::bitpacker::lemma_num_bits_log2(gcd, bits);
                vstd::arithmetic::mul::lemma_mul_upper_bound(
                    bits as int - 1,
                    64,
                    num_rows as int,
                    0xffff_ffff,
                );
            }
            let gain: u64 = ((bits - 1) as u64) * (num_rows as u64) / 8;
            if gain > estimate {
                estimate = 0;
            } else {
                estimate = estimate - gain;
            }
        }
        Some(estimate)
    }
}

/// The packed bits of one block: each residual's low `w` bits in row order.
pub open spec fn block_rows_bits(rs: Seq<u64>, len: int, w: u8) -> Seq<bool>
    decreases len,
{
    if len <= 0 {
        Seq::empty()
    } else {
        block_rows_bits(rs, len - 1, w) + u64_bits(rs[len - 1], w as nat)
    }
}

/// The packed bits of the first `k` blocks, back to back.
pub open spec fn all_blocks_bits(
    resids: Seq<u64>,
    metas: Seq<BlockMeta>,
    num_rows: nat,
    k: int,
) -> Seq<bool>
    decreases k,
{
    if k <= 0 {
        Seq::empty()
    } else {
        all_blocks_bits(resids, metas, num_rows, k - 1) + block_rows_bits(
            resids.subrange(512 * (k - 1), 512 * (k - 1) + block_len(num_rows, k - 1) as int),
            block_len(num_rows, k - 1) as int,
            metas[k - 1].1,
        )
    }
}

/// How many rows the first `k` blocks hold.
pub open spec fn rows_upto(num_rows: nat, k: int) -> int {
    if k <= 0 {
        0
    } else {
        512 * (k - 1) + block_len(num_rows, k - 1) as int
    }
}

/// Decoding a row of the encoding reproduces the original value.
pub open spec fn row_ok(
    vals: Seq<u64>,
    min: u64,
    gcd: u64,
    metas: Seq<BlockMeta>,
    resids: Seq<u64>,
    row: int,
) -> bool {
    wadd(
        min,
        wmul(gcd, wadd(metas[row / 512].0.eval_spec((row % 512) as u64), resids[row])),
    ) == vals[row]
}

/// A block's packed bits count `len * w` bits.
proof fn lemma_brb_len(rs: Seq<u64>, len: int, w: u8)
    ensures
        block_rows_bits(rs, len, w).len() == (if len <= 0 {
            0int
        } else {
            len * w
        }),
    decreases len,
{
    if len > 0 {
        lemma_brb_len(rs, len - 1, w);
        assert((len - 1) * w + w == len * w) by {
            vstd::arithmetic::mul::lemma_mul_is_distributive_sub_other_way(w as int, len, 1);
        }
    }
}

/// Row `i`'s bits sit at `i * w` inside its block's packed bits.
proof fn lemma_brb_slot(rs: Seq<u64>, len: int, w: u8, i: int)
    requires
        0 <= i < len,
    ensures
        block_rows_bits(rs, len, w).subrange(i * w, i * w + w) == u64_bits(rs[i], w as nat),
    decreases len,
{
    lemma_brb_len(rs, len, w);
    lemma_brb_len(rs, len - 1, w);
    assert((len - 1) * w + w == len * w) by {
        vstd::arithmetic::mul::lemma_mul_is_distributive_sub_other_way(w as int, len, 1);
    }
    if i == len - 1 {
        assert(block_rows_bits(rs, len, w).subrange(i * w, i * w + w) =~= u64_bits(
            rs[i],
            w as nat,
        ));
    } else {
        lemma_brb_slot(rs, len - 1, w, i);
        assert((i + 1) * w <= (len - 1) * w) by {
            vstd::arithmetic::mul::lemma_mul_inequality(i + 1, len - 1, w as int);
        }
        assert(i * w + w == (i + 1) * w) by {
            vstd::arithmetic::mul::lemma_mul_is_distributive_add_other_way(w as int, i, 1);
        }
        assert(0 <= i * w) by {
            vstd::arithmetic::mul::lemma_mul_nonnegative(i, w as int);
        }
        assert(block_rows_bits(rs, len, w).subrange(i * w, i * w + w) =~= block_rows_bits(
            rs,
            len - 1,
            w,
        ).subrange(i * w, i * w + w));
    }
}

/// The packed bits of `k` blocks depend only on the rows they hold.
proof fn lemma_abb_resids_prefix(
    r1: Seq<u64>,
    r2: Seq<u64>,
    metas: Seq<BlockMeta>,
    num_rows: nat,
    k: int,
)
    requires
        k <= num_blocks_spec(num_rows),
        rows_upto(num_rows, k) <= r1.len(),
        rows_upto(num_rows, k) <= r2.len(),
        forall|j: int| 0 <= j < rows_upto(num_rows, k) ==> r1[j] == r2[j],
    ensures
        all_blocks_bits(r1, metas, num_rows, k) == all_blocks_bits(r2, metas, num_rows, k),
    decreases k,
{
    if k > 0 {
        assert(rows_upto(num_rows, k - 1) <= rows_upto(num_rows, k)) by {
            if k - 1 > 0 {
                lemma_block_len_pos(num_rows, k - 2);
            }
        }
        lemma_abb_resids_prefix(r1, r2, metas, num_rows, k - 1);
        assert(r1.subrange(512 * (k - 1), 512 * (k - 1) + block_len(num_rows, k - 1) as int)
            =~= r2.subrange(512 * (k - 1), 512 * (k - 1) + block_len(num_rows, k - 1) as int));
    }
}

/// The packed bits of `k` blocks depend only on their own records.
proof fn lemma_abb_metas_prefix(
    resids: Seq<u64>,
    m1: Seq<BlockMeta>,
    m2: Seq<BlockMeta>,
    num_rows: nat,
    k: int,
)
    requires
        k <= m1.len(),
        k <= m2.len(),
        forall|j: int| 0 <= j < k ==> m1[j] == m2[j],
    ensures
        all_blocks_bits(resids, m1, num_rows, k) == all_blocks_bits(resids, m2, num_rows, k),
    decreases k,
{
    if k > 0 {
        lemma_abb_metas_prefix(resids, m1, m2, num_rows, k - 1);
    }
}

/// Blocks before a full prefix hold 512 rows each.
proof fn lemma_rows_upto_full(num_rows: nat, k: int)
    requires
        0 <= k,
        512 * k <= num_rows,
    ensures
        rows_upto(num_rows, k) == 512 * k,
{
    if k > 0 {
        assert(block_len(num_rows, k - 1) == 512);
    }
}

/// The packed bits of `k` full blocks end at block `k`'s byte offset.
proof fn lemma_abb_len_full(resids: Seq<u64>, metas: Seq<BlockMeta>, num_rows: nat, k: int)
    requires
        0 <= k,
        512 * k <= num_rows,
        k <= metas.len(),
    ensures
        all_blocks_bits(resids, metas, num_rows, k).len() == 8 * block_offset(metas, k),
    decreases k,
{
    if k > 0 {
        assert(512 * (k - 1) <= num_rows);
        lemma_abb_len_full(resids, metas, num_rows, k - 1);
        assert(block_len(num_rows, k - 1) == 512);
        lemma_brb_len(
            resids.subrange(512 * (k - 1), 512 * (k - 1) + 512),
            512,
            metas[k - 1].1,
        );
    }
}

/// The packed bits of all blocks end at the last row's end bit.
proof fn lemma_abb_len_total(resids: Seq<u64>, metas: Seq<BlockMeta>, num_rows: nat)
    requires
        num_rows >= 1,
        metas.len() == num_blocks_spec(num_rows),
    ensures
        all_blocks_bits(resids, metas, num_rows, metas.len() as int).len() == 8 * block_offset(
            metas,
            metas.len() - 1,
        ) + block_len(num_rows, metas.len() - 1) * metas[metas.len() - 1].1 as nat,
{
    let nb = metas.len() as int;
    assert(512 * (nb - 1) <= num_rows) by {
        lemma_nb_bounds(num_rows);
    }
    lemma_abb_len_full(resids, metas, num_rows, nb - 1);
    lemma_brb_len(
        resids.subrange(512 * (nb - 1), 512 * (nb - 1) + block_len(num_rows, nb - 1) as int),
        block_len(num_rows, nb - 1) as int,
        metas[nb - 1].1,
    );
}

/// The block count covers the rows, with the last block nonempty.
proof fn lemma_nb_bounds(num_rows: nat)
    requires
        num_rows >= 1,
    ensures
        512 * (num_blocks_spec(num_rows) - 1) < num_rows,
        num_rows <= 512 * num_blocks_spec(num_rows),
        num_blocks_spec(num_rows) >= 1,
{
    let nb = num_blocks_spec(num_rows) as int;
    vstd::arithmetic::div_mod::lemma_fundamental_div_mod(num_rows as int + 511, 512);
    vstd::arithmetic::div_mod::lemma_mod_bound(num_rows as int + 511, 512);
}

/// Byte offsets never decrease with the block index.
proof fn lemma_offset_mono(metas: Seq<BlockMeta>, a: int, b: int)
    requires
        0 <= a <= b,
    ensures
        block_offset(metas, a) <= block_offset(metas, b),
    decreases b,
{
    if a < b {
        lemma_offset_mono(metas, a, b - 1);
    }
}

/// Row `row`'s bits sit at its own position inside the packed bits of the
/// first `k` blocks.
proof fn lemma_abb_slot(
    resids: Seq<u64>,
    metas: Seq<BlockMeta>,
    num_rows: nat,
    k: int,
    row: int,
)
    requires
        0 <= row < rows_upto(num_rows, k),
        k <= metas.len(),
        k <= num_blocks_spec(num_rows),
        num_rows >= 1,
        rows_upto(num_rows, k) <= resids.len(),
    ensures
        ({
            let j = row / 512;
            let i = row % 512;
            let w = metas[j].1;
            let pos = 8 * block_offset(metas, j) + i * w;
            all_blocks_bits(resids, metas, num_rows, k).subrange(pos as int, pos + w)
                == u64_bits(resids[row], w as nat)
        }),
    decreases k,
{
    let j = row / 512;
    let i = row % 512;
    let w = metas[j].1;
    let pos = 8 * block_offset(metas, j) + i * w;
    vstd::arithmetic::div_mod::lemma_fundamental_div_mod(row, 512);
    vstd::arithmetic::div_mod::lemma_mod_bound(row, 512);
    assert(k >= 1);
    assert(512 * (k - 1) <= num_rows) by {
        lemma_nb_bounds(num_rows);
        if k < num_blocks_spec(num_rows) {
            vstd::arithmetic::mul::lemma_mul_inequality(
                k - 1,
                num_blocks_spec(num_rows) - 1,
                512,
            );
            vstd::arithmetic::mul::lemma_mul_is_commutative(512, k - 1);
            vstd::arithmetic::mul::lemma_mul_is_commutative(
                512,
                num_blocks_spec(num_rows) - 1,
            );
        }
    }
    lemma_rows_upto_full(num_rows, k - 1);
    let blen = block_len(num_rows, k - 1) as int;
    let chunk = block_rows_bits(
        resids.subrange(512 * (k - 1), 512 * (k - 1) + blen),
        blen,
        metas[k - 1].1,
    );
    let prefix = all_blocks_bits(resids, metas, num_rows, k - 1);
    lemma_abb_len_full(resids, metas, num_rows, k - 1);
    lemma_brb_len(resids.subrange(512 * (k - 1), 512 * (k - 1) + blen), blen, metas[k - 1].1);
    if row < rows_upto(num_rows, k - 1) {
        lemma_abb_slot(resids, metas, num_rows, k - 1, row);
        // The row ends inside the prefix: its block sits before block k-1.
        assert(row < 512 * (k - 1));
        assert(j < k - 1) by {
            if j >= k - 1 {
                vstd::arithmetic::mul::lemma_mul_inequality(k - 1, j, 512);
                vstd::arithmetic::mul::lemma_mul_is_commutative(512, k - 1);
                vstd::arithmetic::mul::lemma_mul_is_commutative(512, j);
            }
        }
        assert(pos + w <= prefix.len() as int) by {
            assert(i + 1 <= 512);
            assert((i + 1) * w as int <= 512 * w as int) by {
                vstd::arithmetic::mul::lemma_mul_inequality(i + 1, 512, w as int);
            }
            assert(i * w + w == (i + 1) * w) by {
                vstd::arithmetic::mul::lemma_mul_is_distributive_add_other_way(w as int, i, 1);
            }
            assert(block_offset(metas, j) + w as nat * 64 == block_offset(metas, j + 1));
            lemma_offset_mono(metas, j + 1, k - 1);
        }
        assert(all_blocks_bits(resids, metas, num_rows, k).subrange(pos as int, pos + w)
            =~= prefix.subrange(pos as int, pos + w));
    } else {
        assert(j == k - 1) by {
            vstd::arithmetic::div_mod::lemma_div_multiples_vanish_fancy(k - 1, row - 512 * (k
                - 1), 512);
        }
        assert(i == row - 512 * (k - 1)) by {
            vstd::arithmetic::div_mod::lemma_mod_multiples_vanish(k - 1, row - 512 * (k - 1), 512);
            vstd::arithmetic::div_mod::lemma_small_mod((row - 512 * (k - 1)) as nat, 512);
        }
        assert(i < blen);
        lemma_brb_slot(resids.subrange(512 * (k - 1), 512 * (k - 1) + blen), blen, metas[k - 1].1, i);
        assert(resids.subrange(512 * (k - 1), 512 * (k - 1) + blen)[i] == resids[row]);
        assert(pos as int == prefix.len() + i * w) by {
            assert(block_offset(metas, j) == block_offset(metas, k - 1));
        }
        assert(i * w + w <= blen * w) by {
            vstd::arithmetic::mul::lemma_mul_inequality(i + 1, blen, w as int);
            vstd::arithmetic::mul::lemma_mul_is_distributive_add_other_way(w as int, i, 1);
        }
        assert(0 <= i * w) by {
            vstd::arithmetic::mul::lemma_mul_nonnegative(i, w as int);
        }
        assert(all_blocks_bits(resids, metas, num_rows, k).subrange(pos as int, pos + w)
            =~= chunk.subrange(i * w, i * w + w));
    }
}

/// A nonempty footer starts with its first record.
proof fn lemma_footer_front(metas: Seq<BlockMeta>)
    requires
        metas.len() >= 1,
    ensures
        footer_bytes(metas) == line_bytes(metas[0].0) + seq![metas[0].1] + footer_bytes(
            metas.skip(1),
        ),
    decreases metas.len(),
{
    if metas.len() == 1 {
        assert(metas.drop_last() =~= Seq::<BlockMeta>::empty());
        assert(metas.skip(1) =~= Seq::<BlockMeta>::empty());
        assert(footer_bytes(metas) =~= line_bytes(metas[0].0) + seq![metas[0].1] + footer_bytes(
            metas.skip(1),
        ));
    } else {
        lemma_footer_front(metas.drop_last());
        assert(metas.skip(1).drop_last() =~= metas.drop_last().skip(1));
        assert(metas.skip(1).last() == metas.last());
        assert(metas.drop_last()[0] == metas[0]);
        assert(footer_bytes(metas) =~= line_bytes(metas[0].0) + seq![metas[0].1] + footer_bytes(
            metas.skip(1),
        ));
    }
}

/// A serialized footer parses back to its records.
proof fn lemma_footer_parse(bytes: Seq<u8>, pos: int, metas: Seq<BlockMeta>)
    requires
        0 <= pos,
        pos + footer_bytes(metas).len() <= bytes.len(),
        bytes.subrange(pos, pos + footer_bytes(metas).len() as int) == footer_bytes(metas),
        forall|j: int| 0 <= j < metas.len() ==> (#[trigger] metas[j]).1 <= 64,
    ensures
        parse_blocks(bytes, pos, metas.len() as nat) == Some(
            (metas, pos + footer_bytes(metas).len()),
        ),
    decreases metas.len(),
{
    if metas.len() > 0 {
        lemma_footer_front(metas);
        let fb = footer_bytes(metas);
        let lb = line_bytes(metas[0].0);
        let rest = footer_bytes(metas.skip(1));
        assert(bytes.subrange(pos, pos + lb.len() as int) =~= lb) by {
            assert(forall|t: int|
                0 <= t < lb.len() ==> bytes.subrange(pos, pos + fb.len() as int)[t]
                    == #[trigger] lb[t]);
        }
        crate::line::lemma_line_roundtrip(bytes, pos, metas[0].0);
        let mid = pos + lb.len() as int;
        assert(bytes[mid] == metas[0].1) by {
            assert(bytes.subrange(pos, pos + fb.len() as int)[lb.len() as int] == metas[0].1);
        }
        assert(bytes.subrange(mid + 1, mid + 1 + rest.len() as int) =~= rest) by {
            assert(forall|t: int|
                0 <= t < rest.len() ==> bytes.subrange(pos, pos + fb.len() as int)[lb.len() + 1
                    + t] == #[trigger] rest[t]);
        }
        assert(forall|j: int|
            0 <= j < metas.skip(1).len() ==> (#[trigger] metas.skip(1)[j]).1 <= 64);
        lemma_footer_parse(bytes, mid + 1, metas.skip(1));
        assert(seq![(metas[0].0, metas[0].1)] + metas.skip(1) =~= metas);
        assert((metas[0].0, metas[0].1) == metas[0]);
    } else {
        assert(parse_blocks(bytes, pos, 0) == Some((Seq::<BlockMeta>::empty(), pos)));
        assert(metas =~= Seq::<BlockMeta>::empty());
    }
}

impl BlockwiseLinearEstimator {
    /// Encodes the column: the stats header, each block's residuals
    /// bit-packed against a line trained on the GCD-reduced values, the
    /// footer of block records, and the footer's length. What is appended
    /// decodes back to exactly the collected values.
    #[verifier::loop_isolation(false)]
    #[verifier::rlimit(100)]
    pub fn serialize(&self, vals: &Vec<u64>, out: &mut Vec<u8>)
        requires
            self.wf(),
            vals@ == self.history(),
            1 <= vals@.len() <= u32::MAX,
        ensures
            final(out)@ == old(out)@ + blockwise_encoding(vals@),
            blockwise_decode(blockwise_encoding(vals@)) == Some(vals@),
    {
        let ghost h = self.history();
        let num_rows: u32 = self.num_rows_collector.finalize();
        let minmax = self.min_max_collector.finalize();
        let min_value: u64 = minmax.0;
        let max_value: u64 = minmax.1;
        let gcd: u64 = self.gcd_collector.finalize();

        let mut buf: Vec<u8> = Vec::new();
        write_u32_le(&mut buf, num_rows);
        write_u64_le(&mut buf, min_value);
        write_u64_le(&mut buf, max_value);
        write_u64_le(&mut buf, gcd);
        let ghost header = buf@;
        proof {
            crate::serial::lemma_le_bytes_len(num_rows as nat, 4);
            crate::serial::lemma_le_bytes_len(min_value as nat, 8);
            crate::serial::lemma_le_bytes_len(max_value as nat, 8);
            crate::serial::lemma_le_bytes_len(gcd as nat, 8);
            lemma_nb_bounds(h.len());
        }

        let num_blocks: u32 = compute_num_blocks(num_rows);
        let ghost nb = num_blocks_spec(h.len());
        let mut data_buf: Vec<u8> = Vec::new();
        let mut packer = BitPacker::new();
        let mut metas: Vec<(Line, u8)> = Vec::new();
        let ghost mut resids: Seq<u64> = Seq::empty();
        proof {
            assert(packer.bits(data_buf@) =~= all_blocks_bits(resids, metas@, h.len(), 0));
        }

        let mut b: u32 = 0;
        while b < num_blocks
            invariant
                b <= num_blocks,
                metas@.len() == b as int,
                forall|j: int| 0 <= j < b ==> (#[trigger] metas@[j]).1 <= 64,
                resids.len() == rows_upto(h.len(), b as int),
                rows_upto(h.len(), b as int) <= h.len(),
                b < num_blocks ==> rows_upto(h.len(), b as int) == 512 * b,
                packer.wf(),
                packer.bits(data_buf@) == all_blocks_bits(resids, metas@, h.len(), b as int),
                forall|r: int|
                    0 <= r < resids.len() ==> resids[r] < pow2(
                        (#[trigger] metas@[r / 512]).1 as nat,
                    ),
                forall|r: int|
                    0 <= r < resids.len() ==> #[trigger] row_ok(
                        vals@,
                        min_value,
                        gcd,
                        metas@,
                        resids,
                        r,
                    ),
                forall|k: int| 0 <= k < b ==> metas@[k] == #[trigger] encoding_metas(vals@)[k],
                forall|r: int|
                    0 <= r < resids.len() ==> resids[r] == #[trigger] encoding_resids(vals@)[r],
            decreases num_blocks - b,
        {
            proof {
                lemma_block_len_pos(h.len(), b as int);
                lemma_block_rows(h.len(), b as int);
                vstd::arithmetic::mul::lemma_mul_inequality(b as int, nb as int - 1, 512);
                vstd::arithmetic::mul::lemma_mul_is_commutative(b as int, 512);
                vstd::arithmetic::mul::lemma_mul_is_commutative(nb as int - 1, 512);
            }
            let start: usize = (b as usize) * 512;
            let this_len: usize = if vals.len() - start >= 512 {
                512
            } else {
                vals.len() - start
            };
            proof {
                assert(this_len == block_len(h.len(), b as int));
            }

            let mut reduced: Vec<u64> = Vec::new();
            let mut i: usize = 0;
            while i < this_len
                invariant
                    i <= this_len,
                    reduced@.len() == i as int,
                    forall|t: int|
                        0 <= t < i ==> gcd as int * (#[trigger] reduced@[t]) as int == vals@[start
                            + t] - min_value,
                decreases this_len - i,
            {
                let v = vals[start + i];
                proof {
                    crate::stats::lemma_seq_min_le(h, start + i);
                }
                let num = v - min_value;
                let red = num / gcd;
                proof {
                    vstd::arithmetic::div_mod::lemma_fundamental_div_mod(num as int, gcd as int);
                }
                reduced.push(red);
                i = i + 1;
            }

            proof {
                assert(reduced@ =~= reduced_block(vals@, b as int)) by {
                    reveal(reduced_block);
                    assert forall|t: int| 0 <= t < this_len implies reduced@[t]
                        == #[trigger] reduced_block(vals@, b as int)[t] by {
                        vstd::arithmetic::div_mod::lemma_div_multiples_vanish(
                            reduced@[t] as int,
                            gcd as int,
                        );
                    }
                }
            }
            let line = Line::train(&reduced);

            let mut block_resids: Vec<u64> = Vec::new();
            let mut i2: usize = 0;
            while i2 < this_len
                invariant
                    i2 <= this_len,
                    reduced@.len() == this_len as int,
                    block_resids@.len() == i2 as int,
                    forall|t: int|
                        0 <= t < i2 ==> (#[trigger] block_resids@[t]) == wsub(
                            reduced@[t],
                            line.eval_spec(t as u64),
                        ),
                decreases this_len - i2,
            {
                let e = line.eval(i2 as u32);
                let resid = wrapping_sub_u64(reduced[i2], e);
                block_resids.push(resid);
                i2 = i2 + 1;
            }
            let max_resid = max_residual_exec(&line, &reduced);
            let bit_width = compute_num_bits(max_resid);
            proof {
                assert(bit_width as nat == flush_width(reduced_block(vals@, b as int)));
                assert forall|t: int| 0 <= t < this_len implies (#[trigger] block_resids@[t])
                    < pow2(bit_width as nat) by {
                    assert(block_resids@[t] == line.residual(reduced@, t));
                    crate::line::lemma_max_residual_ge(line, reduced@, this_len as int, t);
                }
            }

            let ghost resids0 = resids;
            let ghost metas0 = metas@;
            let ghost abb0 = all_blocks_bits(resids0, metas0, h.len(), b as int);
            let mut i3: usize = 0;
            while i3 < this_len
                invariant
                    i3 <= this_len,
                    block_resids@.len() == this_len as int,
                    packer.wf(),
                    packer.bits(data_buf@) == abb0 + block_rows_bits(
                        block_resids@,
                        i3 as int,
                        bit_width,
                    ),
                decreases this_len - i3,
            {
                packer.write(block_resids[i3], bit_width, &mut data_buf);
                proof {
                    assert(packer.bits(data_buf@) =~= abb0 + block_rows_bits(
                        block_resids@,
                        i3 + 1,
                        bit_width,
                    ));
                }
                i3 = i3 + 1;
            }

            metas.push((line, bit_width));
            proof {
                let b_i = b as int;
                resids = resids0 + block_resids@;
                assert(metas@.drop_last() =~= metas0);
                lemma_block_len_pos(h.len(), b_i);
                // The new rows extend the packed bits by exactly this block.
                lemma_abb_metas_prefix(resids0, metas0, metas@, h.len(), b_i);
                lemma_abb_resids_prefix(resids0, resids, metas@, h.len(), b_i);
                assert(resids.subrange(512 * b_i, 512 * b_i + this_len as int)
                    =~= block_resids@);
                assert(all_blocks_bits(resids, metas@, h.len(), b_i + 1) == abb0
                    + block_rows_bits(block_resids@, this_len as int, bit_width));
                // Per-row facts for the new rows.
                assert forall|r: int| 512 * b_i <= r < resids.len() implies #[trigger] (r / 512)
                    == b_i && r % 512 == r - 512 * b_i by {
                    vstd::arithmetic::div_mod::lemma_div_multiples_vanish_fancy(
                        b_i,
                        r - 512 * b_i,
                        512,
                    );
                    vstd::arithmetic::div_mod::lemma_mod_multiples_vanish(b_i, r - 512 * b_i, 512);
                    vstd::arithmetic::div_mod::lemma_small_mod((r - 512 * b_i) as nat, 512);
                }
                assert forall|r: int| 512 * b_i <= r < resids.len() implies #[trigger] row_ok(
                    vals@,
                    min_value,
                    gcd,
                    metas@,
                    resids,
                    r,
                ) by {
                    let t = r - 512 * b_i;
                    crate::line::lemma_residual_roundtrip(line, reduced@, t);
                    assert(wadd(line.eval_spec(t as u64), resids[r]) == reduced@[t]);
                    lemma_scale_shift(min_value, gcd, reduced@[t], vals@[r]);
                }
                if b_i + 1 < nb {
                    assert(512 * (b_i + 1) <= h.len()) by {
                        vstd::arithmetic::mul::lemma_mul_inequality(b_i + 1, nb as int - 1, 512);
                        vstd::arithmetic::mul::lemma_mul_is_commutative(b_i + 1, 512);
                        vstd::arithmetic::mul::lemma_mul_is_commutative(nb as int - 1, 512);
                    }
                    assert(block_len(h.len(), b_i) == 512);
                }
                assert forall|r: int| 0 <= r < 512 * b_i implies #[trigger] row_ok(
                    vals@,
                    min_value,
                    gcd,
                    metas@,
                    resids,
                    r,
                ) by {
                    assert(row_ok(vals@, min_value, gcd, metas0, resids0, r));
                    assert(metas@[r / 512] == metas0[r / 512]);
                    assert(resids[r] == resids0[r]);
                }
                // The pushed record and residuals are the ones the encoding
                // spec assigns to this block.
                assert(metas@[b_i] == encoding_metas(vals@)[b_i]) by {
                    reveal(encoding_metas);
                    reveal(block_line);
                    assert(line == block_line(vals@, b_i));
                    assert(bit_width as nat == flush_width(reduced_block(vals@, b_i)));
                }
                assert forall|r: int| 512 * b_i <= r < resids.len() implies resids[r]
                    == #[trigger] encoding_resids(vals@)[r] by {
                    reveal(encoding_resids);
                    reveal(block_line);
                    let t = r - 512 * b_i;
                    assert(resids[r] == block_resids@[t]);
                    assert(block_resids@[t] == wsub(reduced@[t], line.eval_spec(t as u64)));
                    assert(encoding_resids(vals@)[r] == block_line(vals@, b_i).residual(
                        reduced_block(vals@, b_i),
                        t,
                    ));
                }
            }
            b = b + 1;
        }

        let ghost abb_all = all_blocks_bits(resids, metas@, h.len(), nb as int);
        packer.close(&mut data_buf);
        let ghost dbytes = data_buf@;

        let mut footer_buf: Vec<u8> = Vec::new();
        let nmetas = metas.len();
        let mut j: usize = 0;
        while j < nmetas
            invariant
                j <= nmetas,
                footer_buf@ == footer_bytes(metas@.take(j as int)),
                footer_buf@.len() <= 21 * j,
            decreases nmetas - j,
        {
            let meta = metas[j];
            meta.0.serialize(&mut footer_buf);
            footer_buf.push(meta.1);
            proof {
                crate::serial::lemma_u64_lt_pow128_10();
                crate::serial::lemma_vint_bytes_len(meta.0.slope as nat, 10);
                crate::serial::lemma_vint_bytes_len(meta.0.intercept as nat, 10);
                assert(metas@.take(j + 1).drop_last() =~= metas@.take(j as int));
                assert(metas@.take(j + 1).last() == meta);
                assert(footer_buf@ =~= footer_bytes(metas@.take(j + 1)));
            }
            j = j + 1;
        }
        proof {
            assert(metas@.take(nmetas as int) =~= metas@);
        }
        proof {
            assert(512 * nb <= h.len() + 511) by {
                vstd::arithmetic::div_mod::lemma_fundamental_div_mod(h.len() as int + 511, 512);
                vstd::arithmetic::div_mod::lemma_mod_bound(h.len() as int + 511, 512);
            }
        }
        let footer_len: u32 = footer_buf.len() as u32;
        let ghost fbytes = footer_buf@;

        buf.append(&mut data_buf);
        buf.append(&mut footer_buf);
        write_u32_le(&mut buf, footer_len);
        let ghost enc = buf@;

        proof {
            lemma_blockwise_encoding_decodes(
                enc,
                header,
                dbytes,
                fbytes,
                vals@,
                metas@,
                resids,
                num_rows,
                min_value,
                max_value,
                gcd,
                abb_all,
            );
            lemma_rows_upto_total(h.len());
            assert(metas@ =~= encoding_metas(vals@)) by {
                reveal(encoding_metas);
            }
            assert(resids =~= encoding_resids(vals@)) by {
                reveal(encoding_resids);
            }
            lemma_encoding_assembled(
                enc,
                header,
                dbytes,
                fbytes,
                vals@,
                num_rows,
                min_value,
                max_value,
                gcd,
                abb_all,
            );
        }
        out.append(&mut buf);
        proof {
            assert(final(out)@ =~= old(out)@ + blockwise_encoding(vals@));
        }
    }
}

/// Scaling a reduced value by the divisor and shifting by the least value
/// restores the original value, with the wrapping operators acting exactly.
proof fn lemma_scale_shift(min: u64, gcd: u64, red: u64, v: u64)
    requires
        gcd as int * red as int == v - min,
        min <= v,
    ensures
        wadd(min, wmul(gcd, red)) == v,
{
    let m = w64() as int;
    assert(wmul(gcd, red) == v - min) by {
        vstd::arithmetic::div_mod::lemma_small_mod((v - min) as nat, w64());
    }
    assert(wadd(min, (v - min) as u64) == v) by {
        vstd::arithmetic::div_mod::lemma_small_mod(v as nat, w64());
    }
}

/// All blocks together hold every row.
proof fn lemma_rows_upto_total(num_rows: nat)
    requires
        num_rows >= 1,
    ensures
        rows_upto(num_rows, num_blocks_spec(num_rows) as int) == num_rows,
{
    lemma_nb_bounds(num_rows);
}

/// A row's end bit lies within the packed bits of all blocks.
proof fn lemma_row_end_le_total(metas: Seq<BlockMeta>, num_rows: nat, row: int)
    requires
        num_rows >= 1,
        metas.len() == num_blocks_spec(num_rows),
        0 <= row < num_rows,
    ensures
        row_end_bit(metas, row) <= 8 * block_offset(metas, metas.len() - 1) + block_len(
            num_rows,
            metas.len() - 1,
        ) * metas[metas.len() - 1].1 as nat,
{
    let nb = metas.len() as int;
    let k = row / 512;
    let i = row % 512;
    let w = metas[k].1 as int;
    lemma_block_of_row(num_rows, row);
    vstd::arithmetic::div_mod::lemma_fundamental_div_mod(row, 512);
    vstd::arithmetic::div_mod::lemma_mod_bound(row, 512);
    assert(i + 1 <= block_len(num_rows, k));
    assert((i + 1) * w <= block_len(num_rows, k) * w) by {
        vstd::arithmetic::mul::lemma_mul_inequality(i + 1, block_len(num_rows, k) as int, w);
    }
    if k < nb - 1 {
        assert(block_len(num_rows, k) == 512) by {
            lemma_nb_bounds(num_rows);
            vstd::arithmetic::mul::lemma_mul_inequality(k + 1, nb - 1, 512);
            vstd::arithmetic::mul::lemma_mul_is_commutative(k + 1, 512);
            vstd::arithmetic::mul::lemma_mul_is_commutative(nb - 1, 512);
        }
        assert(8 * block_offset(metas, k) + 512 * w == 8 * block_offset(metas, k + 1));
        lemma_offset_mono(metas, k + 1, nb - 1);
        assert(0 <= block_len(num_rows, nb - 1) * metas[nb - 1].1 as int) by {
            vstd::arithmetic::mul::lemma_mul_nonnegative(
                block_len(num_rows, nb - 1) as int,
                metas[nb - 1].1 as int,
            );
        }
    }
}

/// The encoded column's header is faithful to the column: the four header
/// words are the row count, the least value, the greatest value, and the
/// divisor, and the divisor divides every value's distance from the least —
/// so a loaded reader reports the column's own statistics, and every
/// decoded row lies between them.
pub proof fn lemma_encoding_header(vals: Seq<u64>, row: int)
    requires
        1 <= vals.len() <= u32::MAX,
        0 <= row < vals.len(),
    ensures
        le_value(blockwise_encoding(vals).subrange(0, 4)) == vals.len(),
        le_value(blockwise_encoding(vals).subrange(4, 12)) == seq_min(vals),
        le_value(blockwise_encoding(vals).subrange(12, 20)) == seq_max(vals),
        le_value(blockwise_encoding(vals).subrange(20, 28)) == column_gcd(vals),
        seq_min(vals) <= vals[row] <= seq_max(vals),
        (vals[row] as int - seq_min(vals) as int) % (column_gcd(vals) as int) == 0,
{
    reveal(blockwise_encoding);
    crate::serial::lemma_pow256_values();
    crate::serial::lemma_le_bytes_len(vals.len(), 4);
    crate::serial::lemma_le_bytes_len(seq_min(vals) as nat, 8);
    crate::serial::lemma_le_bytes_len(seq_max(vals) as nat, 8);
    crate::serial::lemma_le_bytes_len(column_gcd(vals), 8);
    crate::serial::lemma_le_roundtrip(vals.len(), 4);
    crate::serial::lemma_le_roundtrip(seq_min(vals) as nat, 8);
    crate::serial::lemma_le_roundtrip(seq_max(vals) as nat, 8);
    assert(column_gcd(vals) < crate::serial::pow256(8)) by {
        crate::stats::lemma_column_gcd_le(vals);
    }
    crate::serial::lemma_le_roundtrip(column_gcd(vals), 8);
    let enc = blockwise_encoding(vals);
    assert(enc.subrange(0, 4) =~= le_bytes(vals.len(), 4));
    assert(enc.subrange(4, 12) =~= le_bytes(seq_min(vals) as nat, 8));
    assert(enc.subrange(12, 20) =~= le_bytes(seq_max(vals) as nat, 8));
    assert(enc.subrange(20, 28) =~= le_bytes(column_gcd(vals), 8));
    crate::stats::lemma_seq_min_le(vals, row);
    crate::stats::lemma_seq_max_ge(vals, row);
    crate::stats::lemma_column_gcd(vals, row);
}

/// The encoded column's size: the 28-byte header and 4-byte trailing
/// length word, the bit-packed residual stream rounded up to whole bytes,
/// and the footer.
pub proof fn lemma_encoding_len(vals: Seq<u64>)
    requires
        1 <= vals.len() <= u32::MAX,
    ensures
        blockwise_encoding(vals).len() == 32 + (all_blocks_bits(
            encoding_resids(vals),
            encoding_metas(vals),
            vals.len(),
            num_blocks_spec(vals.len()) as int,
        ).len() + 7) / 8 + footer_bytes(encoding_metas(vals)).len(),
{
    reveal(blockwise_encoding);
    crate::serial::lemma_le_bytes_len(vals.len(), 4);
    crate::serial::lemma_le_bytes_len(seq_min(vals) as nat, 8);
    crate::serial::lemma_le_bytes_len(seq_max(vals) as nat, 8);
    crate::serial::lemma_le_bytes_len(column_gcd(vals), 8);
    crate::serial::lemma_le_bytes_len(footer_bytes(encoding_metas(vals)).len(), 4);
}

/// Bytes assembled from the spec header, the packed residual stream, the
/// footer, and the trailing length word are the column's encoding.
proof fn lemma_encoding_assembled(
    enc: Seq<u8>,
    header: Seq<u8>,
    dbytes: Seq<u8>,
    fbytes: Seq<u8>,
    vals: Seq<u64>,
    num_rows: u32,
    min: u64,
    max: u64,
    gcd: u64,
    abb_all: Seq<bool>,
)
    requires
        num_rows as nat == vals.len(),
        min == seq_min(vals),
        max == seq_max(vals),
        gcd as nat == column_gcd(vals),
        header == le_bytes(num_rows as nat, 4) + le_bytes(min as nat, 8) + le_bytes(
            max as nat,
            8,
        ) + le_bytes(gcd as nat, 8),
        enc == header + dbytes + fbytes + le_bytes(fbytes.len(), 4),
        fbytes == footer_bytes(encoding_metas(vals)),
        abb_all == all_blocks_bits(
            encoding_resids(vals),
            encoding_metas(vals),
            vals.len(),
            num_blocks_spec(vals.len()) as int,
        ),
        stream_bits(dbytes).take(abb_all.len() as int) == abb_all,
        dbytes.len() * 8 == 8 * ((abb_all.len() + 7) / 8),
        forall|i: int| abb_all.len() <= i < dbytes.len() * 8 ==> !stream_bits(dbytes)[i],
    ensures
        enc == blockwise_encoding(vals),
{
    let total = abb_all.len() as int;
    assert(total <= dbytes.len() * 8) by {
        vstd::arithmetic::div_mod::lemma_fundamental_div_mod(total + 7, 8);
        vstd::arithmetic::div_mod::lemma_mod_bound(total + 7, 8);
    }
    crate::bitpacker::lemma_bytes_from_bits(dbytes, total);
    assert(dbytes == bytes_of_bits(abb_all));
    assert(enc =~= blockwise_encoding(vals)) by {
        reveal(blockwise_encoding);
    }
}

/// An encoding assembled from a well-formed header, packed value region,
/// and footer decodes to the column it was built from.
#[verifier::rlimit(100)]
proof fn lemma_blockwise_encoding_decodes(
    enc: Seq<u8>,
    header: Seq<u8>,
    dbytes: Seq<u8>,
    fbytes: Seq<u8>,
    vals: Seq<u64>,
    metas: Seq<BlockMeta>,
    resids: Seq<u64>,
    num_rows: u32,
    min: u64,
    max: u64,
    gcd: u64,
    abb_all: Seq<bool>,
)
    requires
        1 <= vals.len() <= u32::MAX,
        num_rows as nat == vals.len(),
        header == le_bytes(num_rows as nat, 4) + le_bytes(min as nat, 8) + le_bytes(
            max as nat,
            8,
        ) + le_bytes(gcd as nat, 8),
        enc == header + dbytes + fbytes + le_bytes(fbytes.len(), 4),
        gcd >= 1,
        metas.len() == num_blocks_spec(vals.len()),
        forall|j: int| 0 <= j < metas.len() ==> (#[trigger] metas[j]).1 <= 64,
        fbytes == footer_bytes(metas),
        fbytes.len() < 0x1_0000_0000,
        abb_all == all_blocks_bits(resids, metas, vals.len(), metas.len() as int),
        resids.len() == vals.len(),
        stream_bits(dbytes).take(abb_all.len() as int) == abb_all,
        dbytes.len() * 8 == 8 * ((abb_all.len() + 7) / 8),
        forall|r: int|
            0 <= r < resids.len() ==> resids[r] < pow2((#[trigger] metas[r / 512]).1 as nat),
        forall|r: int|
            0 <= r < resids.len() ==> #[trigger] row_ok(vals, min, gcd, metas, resids, r),
    ensures
        blockwise_decode(enc) == Some(vals),
{
    let nb = metas.len() as int;
    let dd = dbytes.len() as int;
    let ff = fbytes.len() as int;
    crate::serial::lemma_le_bytes_len(num_rows as nat, 4);
    crate::serial::lemma_le_bytes_len(min as nat, 8);
    crate::serial::lemma_le_bytes_len(max as nat, 8);
    crate::serial::lemma_le_bytes_len(gcd as nat, 8);
    crate::serial::lemma_le_bytes_len(fbytes.len(), 4);
    let n = enc.len() as int;
    assert(n == 28 + dd + ff + 4);
    crate::serial::lemma_pow256_values();
    crate::serial::lemma_le_roundtrip(num_rows as nat, 4);
    crate::serial::lemma_le_roundtrip(min as nat, 8);
    crate::serial::lemma_le_roundtrip(max as nat, 8);
    crate::serial::lemma_le_roundtrip(gcd as nat, 8);
    crate::serial::lemma_le_roundtrip(fbytes.len(), 4);
    assert(enc.subrange(0, 4) =~= le_bytes(num_rows as nat, 4));
    assert(enc.subrange(4, 12) =~= le_bytes(min as nat, 8));
    assert(enc.subrange(12, 20) =~= le_bytes(max as nat, 8));
    assert(enc.subrange(20, 28) =~= le_bytes(gcd as nat, 8));
    assert(enc.subrange(n - 4, n) =~= le_bytes(fbytes.len(), 4));
    assert(le_value(enc.subrange(0, 4)) == num_rows as nat);
    assert(le_value(enc.subrange(n - 4, n)) == fbytes.len());
    let fstart = n - 4 - ff;
    assert(fstart == 28 + dd);
    assert(enc.subrange(fstart, fstart + ff) =~= fbytes);
    lemma_footer_parse(enc, fstart, metas);
    assert(parse_blocks(enc, fstart, nb as nat) == Some((metas, fstart + ff)));
    assert(fstart + ff == n - 4);
    let data = enc.subrange(28, fstart);
    assert(data =~= dbytes);
    // Every row's bits lie inside the value region.
    lemma_abb_len_total(resids, metas, vals.len());
    let total = abb_all.len() as int;
    assert(total <= 8 * dd) by {
        vstd::arithmetic::div_mod::lemma_fundamental_div_mod(total + 7, 8);
        vstd::arithmetic::div_mod::lemma_mod_bound(total + 7, 8);
    }
    assert forall|row: int| 0 <= row < num_rows as nat implies #[trigger] row_end_bit(metas, row)
        <= dbytes.len() * 8 by {
        lemma_row_end_le_total(metas, vals.len(), row);
    }
    assert(rows_in_bounds(data.len(), metas, num_rows as nat));
    // Each row decodes to its original value.
    lemma_rows_upto_total(vals.len());
    assert forall|row: int| 0 <= row < num_rows as nat implies #[trigger] decoded_row(
        data,
        metas,
        min,
        gcd,
        row,
    ) == vals[row] by {
        let k = row / 512;
        let i = row % 512;
        let w = metas[k].1;
        lemma_block_of_row(vals.len(), row);
        let pos = 8 * block_offset(metas, k) + i * w;
        lemma_abb_slot(resids, metas, vals.len(), nb, row);
        lemma_row_end_le_total(metas, vals.len(), row);
        assert((i + 1) * (w as int) == i * w + w) by {
            vstd::arithmetic::mul::lemma_mul_is_distributive_add_other_way(w as int, i, 1);
        }
        assert(pos + w <= total);
        assert(0 <= i * w) by {
            vstd::arithmetic::mul::lemma_mul_nonnegative(i, w as int);
        }
        assert(stream_bits(data).subrange(pos as int, pos + w) =~= abb_all.subrange(
            pos as int,
            pos + w,
        )) by {
            assert(forall|x: int|
                0 <= x < total ==> #[trigger] abb_all[x] == stream_bits(dbytes)[x]);
        }
        crate::bitpacker::lemma_u64_bits_value(resids[row], w as nat);
        assert(row_ok(vals, min, gcd, metas, resids, row));
    }
    assert(blockwise_decode(enc) == Some(vals)) by {
        let decoded = blockwise_decode(enc)->Some_0;
        assert(decoded =~= vals);
    }
}

} // verus!
