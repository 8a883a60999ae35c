//! Little-endian fixed-width and variable-width integer serialization.
//!
//! The byte layouts here are the ones the column codecs commit to disk:
//! fixed-width little-endian words for headers, and a base-128
//! variable-width encoding for per-block line parameters.

use vstd::prelude::*;

verus! {

/// The value of `bytes` read as one little-endian unsigned integer.
pub open spec fn le_value(bytes: Seq<u8>) -> nat
    decreases bytes.len(),
{
    if bytes.len() == 0 {
        0
    } else {
        (bytes[0] + 256 * le_value(bytes.skip(1))) as nat
    }
}

/// The `n`-byte little-endian encoding of the low `n` bytes of `v`.
pub open spec fn le_bytes(v: nat, n: nat) -> Seq<u8>
    decreases n,
{
    if n == 0 {
        Seq::empty()
    } else {
        seq![(v % 256) as u8] + le_bytes(v / 256, (n - 1) as nat)
    }
}

/// `256^n`, the number of values an `n`-byte word can hold.
pub open spec fn pow256(n: nat) -> nat
    decreases n,
{
    if n == 0 {
        1
    } else {
        256 * pow256((n - 1) as nat)
    }
}

/// Reading back an `n`-byte little-endian encoding gives the value,
/// for values below `256^n`.
pub proof fn lemma_le_roundtrip(v: nat, n: nat)
    requires
        v < pow256(n),
    ensures
        le_bytes(v, n).len() == n,
        le_value(le_bytes(v, n)) == v,
    decreases n,
{
    if n > 0 {
        lemma_le_roundtrip(v / 256, (n - 1) as nat);
        assert(le_bytes(v, n).skip(1) =~= le_bytes(v / 256, (n - 1) as nat));
    }
}

/// `le_bytes` always has length `n`.
pub proof fn lemma_le_bytes_len(v: nat, n: nat)
    ensures
        le_bytes(v, n).len() == n,
    decreases n,
{
    if n > 0 {
        lemma_le_bytes_len(v / 256, (n - 1) as nat);
    }
}

/// Appends the 4-byte little-endian encoding of `v` to `out`.
pub fn write_u32_le(out: &mut Vec<u8>, v: u32)
    ensures
        final(out)@ == old(out)@ + le_bytes(v as nat, 4),
{
    out.push((v & 0xff) as u8);
    out.push(((v >> 8) & 0xff) as u8);
    out.push(((v >> 16) & 0xff) as u8);
    out.push(((v >> 24) & 0xff) as u8);
    proof {
        let x = v;
        assert((x & 0xff) == x % 256
            && ((x >> 8) & 0xff) == (x / 256) % 256
            && ((x >> 16) & 0xff) == (x / 256 / 256) % 256
            && ((x >> 24) & 0xff) == (x / 256 / 256 / 256) % 256) by (bit_vector);
        assert(final(out)@ =~= old(out)@ + le_bytes(v as nat, 4)) by {
            reveal_with_fuel(le_bytes, 5);
        }
    }
}

/// Appends the 8-byte little-endian encoding of `v` to `out`.
pub fn write_u64_le(out: &mut Vec<u8>, v: u64)
    ensures
        final(out)@ == old(out)@ + le_bytes(v as nat, 8),
{
    out.push((v & 0xff) as u8);
    out.push(((v >> 8) & 0xff) as u8);
    out.push(((v >> 16) & 0xff) as u8);
    out.push(((v >> 24) & 0xff) as u8);
    out.push(((v >> 32) & 0xff) as u8);
    out.push(((v >> 40) & 0xff) as u8);
    out.push(((v >> 48) & 0xff) as u8);
    out.push(((v >> 56) & 0xff) as u8);
    proof {
        let x = v;
        assert((x & 0xff) == x % 256
            && ((x >> 8) & 0xff) == (x / 256) % 256
            && ((x >> 16) & 0xff) == (x / 256 / 256) % 256
            && ((x >> 24) & 0xff) == (x / 256 / 256 / 256) % 256
            && ((x >> 32) & 0xff) == (x / 256 / 256 / 256 / 256) % 256
            && ((x >> 40) & 0xff) == (x / 256 / 256 / 256 / 256 / 256) % 256
            && ((x >> 48) & 0xff) == (x / 256 / 256 / 256 / 256 / 256 / 256) % 256
            && ((x >> 56) & 0xff) == (x / 256 / 256 / 256 / 256 / 256 / 256 / 256) % 256)
            by (bit_vector);
        assert(final(out)@ =~= old(out)@ + le_bytes(v as nat, 8)) by {
            reveal_with_fuel(le_bytes, 9);
        }
    }
}

/// Reads the little-endian `u32` held in `bytes[offset..offset + 4]`.
pub fn read_u32_le_at(bytes: &[u8], offset: usize) -> (r: u32)
    requires
        offset + 4 <= bytes@.len(),
    ensures
        r as nat == le_value(bytes@.subrange(offset as int, offset + 4)),
{
    let b0 = bytes[offset];
    let b1 = bytes[offset + 1];
    let b2 = bytes[offset + 2];
    let b3 = bytes[offset + 3];
    let r: u32 = (b0 as u32) | ((b1 as u32) << 8) | ((b2 as u32) << 16) | ((b3 as u32) << 24);
    proof {
        assert((b0 as u32) | ((b1 as u32) << 8) | ((b2 as u32) << 16) | ((b3 as u32) << 24)
            == b0 + 256 * (b1 + 256 * (b2 + 256 * (b3 as u32)))) by (bit_vector);
        let s = bytes@.subrange(offset as int, offset + 4);
        assert(s.skip(1) =~= bytes@.subrange(offset + 1, offset + 4));
        assert(s.skip(1).skip(1) =~= bytes@.subrange(offset + 2, offset + 4));
        assert(s.skip(1).skip(1).skip(1) =~= bytes@.subrange(offset + 3, offset + 4));
        assert(s.skip(1).skip(1).skip(1).skip(1) =~= Seq::<u8>::empty());
        reveal_with_fuel(le_value, 5);
    }
    r
}

/// Reads the little-endian `u16` held in `bytes[offset..offset + 2]`.
pub fn read_u16_le_at(bytes: &[u8], offset: usize) -> (r: u16)
    requires
        offset + 2 <= bytes@.len(),
    ensures
        r as nat == le_value(bytes@.subrange(offset as int, offset + 2)),
{
    let b0 = bytes[offset];
    let b1 = bytes[offset + 1];
    let r: u16 = (b0 as u16) | ((b1 as u16) << 8);
    proof {
        assert((b0 as u16) | ((b1 as u16) << 8) == b0 + 256 * (b1 as u16)) by (bit_vector);
        let s = bytes@.subrange(offset as int, offset + 2);
        assert(s.skip(1) =~= bytes@.subrange(offset + 1, offset + 2));
        assert(s.skip(1).skip(1) =~= Seq::<u8>::empty());
        reveal_with_fuel(le_value, 3);
    }
    r
}

/// Reads the little-endian `u64` held in `bytes[offset..offset + 8]`.
pub fn read_u64_le_at(bytes: &[u8], offset: usize) -> (r: u64)
    requires
        offset + 8 <= bytes@.len(),
    ensures
        r as nat == le_value(bytes@.subrange(offset as int, offset + 8)),
{
    let n = bytes.len();
    let lo = read_u32_le_at(bytes, offset);
    let hi = read_u32_le_at(bytes, offset + 4);
    let r: u64 = (lo as u64) | ((hi as u64) << 32);
    proof {
        let l = lo;
        let h = hi;
        assert((l as u64) | ((h as u64) << 32) == l + 4294967296 * (h as u64)) by (bit_vector);
        let s = bytes@.subrange(offset as int, offset + 8);
        lemma_le_value_split(s, 4);
        assert(s.take(4) =~= bytes@.subrange(offset as int, offset + 4));
        assert(s.skip(4) =~= bytes@.subrange(offset + 4, offset + 8));
        lemma_pow256_4();
    }
    r
}

/// Reads the little-endian `u128` held in `bytes[offset..offset + 16]`.
pub fn read_u128_le_at(bytes: &[u8], offset: usize) -> (r: u128)
    requires
        offset + 16 <= bytes@.len(),
    ensures
        r as nat == le_value(bytes@.subrange(offset as int, offset + 16)),
{
    let n = bytes.len();
    let lo = read_u64_le_at(bytes, offset);
    let hi = read_u64_le_at(bytes, offset + 8);
    let r: u128 = (lo as u128) | ((hi as u128) << 64);
    proof {
        let l = lo;
        let h = hi;
        assert((l as u128) | ((h as u128) << 64) == l + 0x1_0000_0000_0000_0000u128 * (h as u128))
            by (bit_vector);
        let s = bytes@.subrange(offset as int, offset + 16);
        lemma_le_value_split(s, 8);
        assert(s.take(8) =~= bytes@.subrange(offset as int, offset + 8));
        assert(s.skip(8) =~= bytes@.subrange(offset + 8, offset + 16));
        lemma_pow256_values();
    }
    r
}

/// `pow256(4)` as a literal.
pub proof fn lemma_pow256_4()
    ensures
        pow256(4) == 4294967296,
{
    reveal_with_fuel(pow256, 5);
}

/// `256^4` and `256^8` as literals.
pub proof fn lemma_pow256_values()
    ensures
        pow256(4) == 0x1_0000_0000,
        pow256(8) == 0x1_0000_0000_0000_0000,
{
    reveal_with_fuel(pow256, 9);
}

/// Splitting a byte string splits its little-endian value:
/// the prefix holds the low digits, the suffix the high ones.
pub proof fn lemma_le_value_split(bytes: Seq<u8>, k: nat)
    requires
        k <= bytes.len(),
    ensures
        le_value(bytes) == le_value(bytes.take(k as int))
            + pow256(k) * le_value(bytes.skip(k as int)),
    decreases k,
{
    if k == 0 {
        assert(bytes.take(0) =~= Seq::<u8>::empty());
        assert(bytes.skip(0) =~= bytes);
        assert(le_value(bytes.take(0)) == 0);
        assert(pow256(0) == 1);
        assert(1 * le_value(bytes) == le_value(bytes)) by {
            vstd::arithmetic::mul::lemma_mul_basics(le_value(bytes) as int);
        }
    } else {
        lemma_le_value_split(bytes.skip(1), (k - 1) as nat);
        assert(bytes.skip(1).take(k - 1) =~= bytes.take(k as int).skip(1));
        assert(bytes.skip(1).skip(k - 1) =~= bytes.skip(k as int));
        assert(le_value(bytes.take(k as int))
            == bytes[0] + 256 * le_value(bytes.take(k as int).skip(1)));
        let a = le_value(bytes.take(k as int).skip(1)) as int;
        let p = pow256((k - 1) as nat) as int;
        let s = le_value(bytes.skip(k as int)) as int;
        assert(le_value(bytes.skip(1)) == a + p * s);
        assert(le_value(bytes) == bytes[0] + 256 * (a + p * s));
        assert(256 * (a + p * s) == 256 * a + 256 * (p * s)) by {
            vstd::arithmetic::mul::lemma_mul_is_distributive_add(256, a, p * s);
        }
        assert(256 * (p * s) == (256 * p) * s) by {
            vstd::arithmetic::mul::lemma_mul_is_associative(256, p, s);
        }
        assert(pow256(k) == 256 * p);
        assert(pow256(k) * s == (256 * p) * s);
        assert(le_value(bytes) == (bytes[0] + 256 * a) + (256 * p) * s);
        assert(le_value(bytes.take(k as int)) == bytes[0] + 256 * a);
    }
}

/// A little-endian value is bounded by `256^len`.
pub proof fn lemma_le_value_bound(bytes: Seq<u8>)
    ensures
        le_value(bytes) < pow256(bytes.len()),
    decreases bytes.len(),
{
    if bytes.len() > 0 {
        lemma_le_value_bound(bytes.skip(1));
    }
}

/// The base-128 variable-width encoding of `v`: seven value bits per byte,
/// low bits first, the high bit of each byte marking a continuation.
pub open spec fn vint_bytes(v: nat) -> Seq<u8>
    decreases v,
{
    if v < 128 {
        seq![v as u8]
    } else {
        seq![(v % 128 + 128) as u8] + vint_bytes(v / 128)
    }
}

/// Parses a variable-width integer at `pos`, reading at most `depth` bytes;
/// yields the value and the position after it.
pub open spec fn parse_vint_at(bytes: Seq<u8>, pos: int, depth: nat) -> Option<(nat, int)>
    decreases depth,
{
    if depth == 0 || pos < 0 || pos >= bytes.len() {
        None
    } else if bytes[pos] < 128 {
        Some((bytes[pos] as nat, pos + 1))
    } else {
        match parse_vint_at(bytes, pos + 1, (depth - 1) as nat) {
            Some((v, end)) => Some((((bytes[pos] - 128) + 128 * v) as nat, end)),
            None => None,
        }
    }
}

/// How many bytes readers of a variable-width integer will consume at most.
pub open spec fn vint_max_len() -> nat {
    10
}

/// A value below `128^d` encodes in at most `d` bytes.
pub proof fn lemma_vint_bytes_len(v: nat, d: nat)
    requires
        v < pow128(d),
        d >= 1,
    ensures
        1 <= vint_bytes(v).len() <= d,
    decreases d,
{
    if v >= 128 {
        assert(v / 128 < pow128((d - 1) as nat));
        lemma_vint_bytes_len(v / 128, (d - 1) as nat);
    }
}

/// `128^n`.
pub open spec fn pow128(n: nat) -> nat
    decreases n,
{
    if n == 0 {
        1
    } else {
        128 * pow128((n - 1) as nat)
    }
}

/// `u64` values fit in ten base-128 digits.
pub proof fn lemma_u64_lt_pow128_10()
    ensures
        0x1_0000_0000_0000_0000 <= pow128(10),
{
    assert(pow128(10) == 0x40_0000_0000_0000_0000) by {
        reveal_with_fuel(pow128, 11);
    }
}

/// Parsing an encoded value embedded in a longer byte string finds the
/// value and stops right after it, given enough depth.
pub proof fn lemma_vint_roundtrip(bytes: Seq<u8>, pos: int, v: nat, depth: nat)
    requires
        0 <= pos,
        pos + vint_bytes(v).len() <= bytes.len(),
        bytes.subrange(pos, pos + vint_bytes(v).len() as int) == vint_bytes(v),
        vint_bytes(v).len() <= depth,
    ensures
        parse_vint_at(bytes, pos, depth) == Some((v, pos + vint_bytes(v).len())),
    decreases depth,
{
    let enc = vint_bytes(v);
    assert(bytes[pos] == enc[0]);
    if v < 128 {
        assert(bytes[pos] < 128);
    } else {
        let rest = vint_bytes(v / 128);
        assert(enc[0] == v % 128 + 128);
        assert(bytes[pos] >= 128);
        assert(bytes.subrange(pos + 1, pos + 1 + rest.len() as int) =~= rest) by {
            assert forall|i: int| 0 <= i < rest.len() implies #[trigger] bytes.subrange(
                pos + 1,
                pos + 1 + rest.len() as int,
            )[i] == rest[i] by {
                assert(bytes.subrange(pos, pos + enc.len() as int)[i + 1] == enc[i + 1]);
            }
        }
        lemma_vint_roundtrip(bytes, pos + 1, v / 128, (depth - 1) as nat);
        assert((bytes[pos] - 128) + 128 * (v / 128) == v);
    }
}

/// Appends the variable-width encoding of `v` to `out`.
pub fn write_vint(out: &mut Vec<u8>, v: u64)
    ensures
        final(out)@ == old(out)@ + vint_bytes(v as nat),
{
    let mut cur: u64 = v;
    while cur >= 128
        invariant
            old(out)@ + vint_bytes(v as nat) == out@ + vint_bytes(cur as nat),
        decreases cur,
    {
        out.push((cur % 128 + 128) as u8);
        cur = cur / 128;
    }
    out.push(cur as u8);
    proof {
        assert(final(out)@ =~= old(out)@ + vint_bytes(v as nat));
    }
}

/// The number of bytes `write_vint` appends for `v`.
pub fn vint_num_bytes(v: u64) -> (r: u64)
    ensures
        r == vint_bytes(v as nat).len(),
        1 <= r <= 10,
{
    let mut cur: u64 = v;
    let mut n: u64 = 1;
    proof {
        lemma_u64_lt_pow128_10();
        lemma_vint_bytes_len(v as nat, 10);
    }
    while cur >= 128
        invariant
            n + vint_bytes(cur as nat).len() == 1 + vint_bytes(v as nat).len(),
            1 <= n,
            vint_bytes(v as nat).len() <= 10,
        decreases cur,
    {
        proof {
            assert(vint_bytes((cur / 128) as nat).len() >= 1) by {
                lemma_vint_len_pos((cur / 128) as nat);
            }
        }
        n = n + 1;
        cur = cur / 128;
    }
    n
}

/// Parsed values stay below `128^depth`.
pub proof fn lemma_parse_vint_bound(bytes: Seq<u8>, pos: int, depth: nat)
    ensures
        match parse_vint_at(bytes, pos, depth) {
            Some((v, end)) => v < pow128(depth) && pos < end <= bytes.len(),
            None => true,
        },
    decreases depth,
{
    if depth > 0 && 0 <= pos < bytes.len() {
        if bytes[pos] < 128 {
            assert(pow128(depth) >= 128) by {
                lemma_pow128_at_least(depth);
            }
        } else {
            lemma_parse_vint_bound(bytes, pos + 1, (depth - 1) as nat);
        }
    }
}

/// `128^d` for positive `d` is at least 128.
proof fn lemma_pow128_at_least(d: nat)
    requires
        d >= 1,
    ensures
        pow128(d) >= 128,
    decreases d,
{
    if d > 1 {
        lemma_pow128_at_least((d - 1) as nat);
    } else {
        assert(pow128(0) == 1);
    }
}

/// Every encoding takes at least one byte.
proof fn lemma_vint_len_pos(v: nat)
    ensures
        vint_bytes(v).len() >= 1,
{
}

/// Recursive reader mirroring `parse_vint_at`.
fn read_vint_rec(bytes: &[u8], pos: usize, depth: u8) -> (r: Option<(u128, usize)>)
    requires
        depth <= 10,
    ensures
        match parse_vint_at(bytes@, pos as int, depth as nat) {
            Some((v, end)) => r == Some((v as u128, end as usize)),
            None => r is None,
        },
    decreases depth,
{
    proof {
        lemma_parse_vint_bound(bytes@, pos as int, depth as nat);
        assert(pow128(10) < u128::MAX) by {
            reveal_with_fuel(pow128, 11);
        }
        lemma_pow128_mono(depth as nat, 10);
    }
    if depth == 0 || pos >= bytes.len() {
        return None;
    }
    let b: u8 = bytes[pos];
    if b < 128 {
        Some((b as u128, pos + 1))
    } else {
        match read_vint_rec(bytes, pos + 1, depth - 1) {
            None => None,
            Some((v, end)) => {
                proof {
                    lemma_parse_vint_bound(bytes@, pos as int + 1, (depth - 1) as nat);
                    lemma_pow128_mono((depth - 1) as nat, 10);
                }
                Some(((b - 128) as u128 + 128 * v, end))
            },
        }
    }
}

/// `pow128` is monotone in its exponent.
proof fn lemma_pow128_mono(a: nat, b: nat)
    requires
        a <= b,
    ensures
        pow128(a) <= pow128(b),
    decreases b,
{
    if a < b {
        lemma_pow128_mono(a, (b - 1) as nat);
        lemma_pow128_at_least(1);
        assert(pow128(b) == 128 * pow128((b - 1) as nat));
    }
}

/// Reads the variable-width integer at `offset`; `None` when the bytes are
/// exhausted, when ten bytes still mark a continuation, or when the value
/// does not fit in a `u64`.
pub fn read_vint_at(bytes: &[u8], offset: usize) -> (r: Option<(u64, usize)>)
    ensures
        match parse_vint_at(bytes@, offset as int, vint_max_len()) {
            Some((v, end)) => if v <= u64::MAX {
                r == Some((v as u64, end as usize))
            } else {
                r is None
            },
            None => r is None,
        },
{
    proof {
        lemma_parse_vint_bound(bytes@, offset as int, vint_max_len());
        assert(pow128(10) < u128::MAX) by {
            reveal_with_fuel(pow128, 11);
        }
    }
    let n = bytes.len();
    match read_vint_rec(bytes, offset, 10) {
        None => None,
        Some((v, end)) => {
            if v <= 0xffff_ffff_ffff_ffff {
                Some((v as u64, end))
            } else {
                None
            }
        },
    }
}

} // verus!
