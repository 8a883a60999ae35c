//! Bit-width computation and fixed-width bit-packing primitives.
//!
//! A packer appends values of a chosen bit width to a byte buffer,
//! maintaining a sub-byte cursor; an unpacker reads the `i`-th packed
//! value back out of the byte stream without scanning its predecessors.
//! The byte stream is modeled as a sequence of bits, least-significant
//! bit of each byte first.

use vstd::prelude::*;
use vstd::arithmetic::power2::pow2;

verus! {

/// Bit `i` of a value, counting from the least significant bit.
pub open spec fn nth_bit(v: nat, i: nat) -> bool {
    (v / pow2(i)) % 2 == 1
}

/// The bits of a byte string, least significant bit of each byte first.
pub open spec fn stream_bits(bytes: Seq<u8>) -> Seq<bool> {
    Seq::new(bytes.len() * 8, |i: int| nth_bit(bytes[i / 8] as nat, (i % 8) as nat))
}

/// The low `w` bits of `v`, least significant first.
pub open spec fn u64_bits(v: u64, w: nat) -> Seq<bool> {
    Seq::new(w, |i: int| nth_bit(v as nat, i as nat))
}

/// The value a bit string denotes, least significant bit first.
pub open spec fn bits_to_nat(bits: Seq<bool>) -> nat
    decreases bits.len(),
{
    if bits.len() == 0 {
        0
    } else {
        ((if bits[0] {
            1nat
        } else {
            0nat
        }) + 2 * bits_to_nat(bits.skip(1))) as nat
    }
}

/// Shifting right then masking the low bit reads `nth_bit`.
proof fn lemma_u64_bit_extract(v: u64, k: u64)
    requires
        k < 64,
    ensures
        ((v >> k) & 1 == 1) <==> nth_bit(v as nat, k as nat),
{
    vstd::bits::lemma_u64_shr_is_div(v, k);
    let y = v >> k;
    assert(y & 1 == y % 2) by (bit_vector);
}

/// `nth_bit` on a byte, through its shift-and-mask reading.
proof fn lemma_u8_bit_extract(v: u8, k: u8)
    requires
        k < 8,
    ensures
        ((v >> k) & 1 == 1) <==> nth_bit(v as nat, k as nat),
{
    vstd::bits::lemma_u8_shr_is_div(v, k);
    let y = v >> k;
    assert(y & 1 == y % 2) by (bit_vector);
}

/// Appending a bit adds its weighted value.
pub proof fn lemma_bits_to_nat_push(bits: Seq<bool>, b: bool)
    ensures
        bits_to_nat(bits.push(b)) == bits_to_nat(bits) + (if b {
            pow2(bits.len())
        } else {
            0
        }),
    decreases bits.len(),
{
    if bits.len() == 0 {
        assert(bits.push(b).skip(1) =~= Seq::<bool>::empty());
        assert(bits =~= Seq::<bool>::empty());
        vstd::arithmetic::power2::lemma2_to64();
    } else {
        lemma_bits_to_nat_push(bits.skip(1), b);
        assert(bits.push(b).skip(1) =~= bits.skip(1).push(b));
        assert(bits.push(b)[0] == bits[0]);
        vstd::arithmetic::power2::lemma_pow2_unfold(bits.len());
        if b {
            let p = pow2((bits.len() - 1) as nat) as int;
            let t = bits_to_nat(bits.skip(1)) as int;
            assert(2 * (t + p) == 2 * t + 2 * p) by {
                vstd::arithmetic::mul::lemma_mul_is_distributive_add(2, t, p);
            }
        }
    }
}

/// A value below `2^w` is recovered from its own low `w` bits.
pub proof fn lemma_u64_bits_value(v: u64, w: nat)
    requires
        v < pow2(w),
        w <= 64,
    ensures
        bits_to_nat(u64_bits(v, w)) == v,
    decreases w,
{
    if w == 0 {
        vstd::arithmetic::power2::lemma2_to64();
        assert(u64_bits(v, 0) =~= Seq::<bool>::empty());
    } else {
        let half: u64 = v / 2;
        assert(u64_bits(v, w).skip(1) =~= u64_bits(half, (w - 1) as nat)) by {
            assert forall|i: int| 0 <= i < w - 1 implies #[trigger] nth_bit(half as nat, i as nat) == nth_bit(
                v as nat,
                (i + 1) as nat,
            ) by {
                vstd::arithmetic::power2::lemma_pow2_unfold((i + 1) as nat);
                vstd::arithmetic::power2::lemma_pow2_pos(i as nat);
                vstd::arithmetic::div_mod::lemma_div_denominator(v as int, 2, pow2(i as nat) as int);
            }
        }
        assert(half < pow2((w - 1) as nat)) by {
            vstd::arithmetic::power2::lemma_pow2_unfold(w);
        }
        lemma_u64_bits_value(half, (w - 1) as nat);
        vstd::arithmetic::power2::lemma_pow2_unfold(w);
        assert(u64_bits(v, w)[0] == (v % 2 == 1)) by {
            vstd::arithmetic::power2::lemma2_to64();
        }
    }
}

/// Byte `j` of a bit string packed least-significant-bit first, the tail
/// padded with zero bits.
pub open spec fn byte_of_bits(bits: Seq<bool>, j: int) -> u8 {
    bits_to_nat(
        Seq::new(
            8,
            |i: int|
                if 8 * j + i < bits.len() {
                    bits[8 * j + i]
                } else {
                    false
                },
        ),
    ) as u8
}

/// The byte string a bit string packs into: eight bits per byte, the last
/// byte zero-padded.
pub open spec fn bytes_of_bits(bits: Seq<bool>) -> Seq<u8> {
    Seq::new((bits.len() + 7) / 8, |j: int| byte_of_bits(bits, j))
}

/// A byte string whose bits beyond `nbits` are zero is exactly the packed
/// form of its first `nbits` bits.
pub proof fn lemma_bytes_from_bits(x: Seq<u8>, nbits: int)
    requires
        0 <= nbits <= x.len() * 8,
        x.len() * 8 == 8 * ((nbits + 7) / 8),
        forall|i: int| nbits <= i < x.len() * 8 ==> !stream_bits(x)[i],
    ensures
        x == bytes_of_bits(stream_bits(x).take(nbits)),
{
    let bits = stream_bits(x).take(nbits);
    vstd::arithmetic::power2::lemma2_to64();
    assert forall|j: int| 0 <= j < x.len() implies x[j] == #[trigger] byte_of_bits(bits, j) by {
        let s1 = Seq::new(
            8,
            |i: int|
                if 8 * j + i < bits.len() {
                    bits[8 * j + i]
                } else {
                    false
                },
        );
        assert forall|i: int| 0 <= i < 8 implies s1[i] == #[trigger] nth_bit(
            x[j] as nat,
            i as nat,
        ) by {
            assert((8 * j + i) / 8 == j && (8 * j + i) % 8 == i) by {
                vstd::arithmetic::div_mod::lemma_div_multiples_vanish_fancy(j, i, 8);
                vstd::arithmetic::div_mod::lemma_mod_multiples_vanish(j, i, 8);
                vstd::arithmetic::div_mod::lemma_small_mod(i as nat, 8);
            }
            assert(stream_bits(x)[8 * j + i] == nth_bit(x[j] as nat, i as nat));
        }
        assert(s1 =~= u64_bits(x[j] as u64, 8));
        lemma_u64_bits_value(x[j] as u64, 8);
    }
    assert(x =~= bytes_of_bits(bits));
}

/// The floor of the base-2 logarithm.
pub open spec fn log2_floor(g: nat) -> nat
    decreases g,
{
    if g < 2 {
        0
    } else {
        1 + log2_floor(g / 2)
    }
}

/// `log2_floor` brackets its argument between two powers of two.
pub proof fn lemma_log2_floor_bounds(g: nat)
    requires
        g >= 1,
    ensures
        pow2(log2_floor(g)) <= g < pow2(log2_floor(g) + 1),
    decreases g,
{
    vstd::arithmetic::power2::lemma2_to64();
    if g >= 2 {
        lemma_log2_floor_bounds(g / 2);
        let l = log2_floor(g / 2);
        vstd::arithmetic::power2::lemma_pow2_unfold(l + 1);
        vstd::arithmetic::power2::lemma_pow2_unfold(l + 2);
    }
}

/// The minimum bit width of a value is one above its log.
pub proof fn lemma_num_bits_log2(g: u64, r: u8)
    requires
        g >= 1,
        g < pow2(r as nat),
        r >= 1,
        pow2((r - 1) as nat) <= g,
    ensures
        r as nat == log2_floor(g as nat) + 1,
{
    lemma_log2_floor_bounds(g as nat);
    let l = log2_floor(g as nat);
    if r as nat <= l {
        vstd::arithmetic::power2::lemma_pow2_strictly_increases((r - 1) as nat, l);
        assert(pow2(r as nat) <= pow2(l)) by {
            if (r as nat) < l {
                vstd::arithmetic::power2::lemma_pow2_strictly_increases(r as nat, l);
            }
        }
    }
    if r as nat >= l + 2 {
        vstd::arithmetic::power2::lemma_pow2_strictly_increases(l + 1, r as nat);
        assert(pow2(l + 1) <= pow2((r - 1) as nat)) by {
            if l + 1 < (r - 1) as nat {
                vstd::arithmetic::power2::lemma_pow2_strictly_increases(l + 1, (r - 1) as nat);
            }
        }
    }
}

/// The number of bits needed to represent a value, as a spec-level
/// function: zero for zero, one above the floor of the logarithm else.
pub open spec fn num_bits_spec(v: u64) -> nat {
    if v == 0 {
        0
    } else {
        log2_floor(v as nat) + 1
    }
}

/// No value needs more than 64 bits.
pub proof fn lemma_num_bits_spec_le(v: u64)
    ensures
        num_bits_spec(v) <= 64,
{
    if v > 0 {
        lemma_log2_floor_bounds(v as nat);
        let l = log2_floor(v as nat);
        if l >= 64 {
            vstd::arithmetic::power2::lemma2_to64_rest();
            assert(pow2(64) <= pow2(l)) by {
                if 64 < l {
                    vstd::arithmetic::power2::lemma_pow2_strictly_increases(64, l);
                }
            }
        }
    }
}

/// The number of bits needed to represent `v`: the least `w`
/// with `v < 2^w`, and `0` exactly when `v == 0`.
pub fn compute_num_bits(v: u64) -> (r: u8)
    ensures
        r as nat == num_bits_spec(v),
        r <= 64,
        v < pow2(r as nat),
        r > 0 ==> pow2((r - 1) as nat) <= v,
        r == 0 <==> v == 0,
{
    let mut amplitude: u64 = v;
    let mut num_bits: u8 = 0;
    proof {
        vstd::arithmetic::power2::lemma2_to64();
    }
    while amplitude > 0
        invariant
            num_bits <= 64,
            amplitude as nat == v as nat / pow2(num_bits as nat),
            num_bits > 0 ==> v as nat / pow2((num_bits - 1) as nat) > 0,
            amplitude > 0 ==> num_bits < 64,
        decreases amplitude,
    {
        proof {
            let a = amplitude;
            assert(a >> 1u64 == a / 2 && a >> 1u64 < a) by (bit_vector)
                requires
                    a > 0,
            ;
            vstd::arithmetic::power2::lemma_pow2_unfold((num_bits + 1) as nat);
            vstd::arithmetic::power2::lemma_pow2_pos(num_bits as nat);
            vstd::arithmetic::div_mod::lemma_div_denominator(
                v as int,
                pow2(num_bits as nat) as int,
                2,
            );
            if num_bits == 63 {
                vstd::arithmetic::power2::lemma2_to64_rest();
            }
        }
        amplitude = amplitude >> 1u64;
        num_bits = num_bits + 1;
    }
    proof {
        vstd::arithmetic::power2::lemma_pow2_pos(num_bits as nat);
        assert(v < pow2(num_bits as nat)) by {
            vstd::arithmetic::div_mod::lemma_small_div_converse(
                v as int,
                pow2(num_bits as nat) as int,
            );
        }
        if num_bits > 0 {
            vstd::arithmetic::power2::lemma_pow2_pos((num_bits - 1) as nat);
            if v < pow2((num_bits - 1) as nat) {
                vstd::arithmetic::div_mod::lemma_basic_div(
                    v as int,
                    pow2((num_bits - 1) as nat) as int,
                );
            }
            lemma_num_bits_log2(v, num_bits);
        }
    }
    num_bits
}

/// Appends fixed-width values to a byte buffer as a contiguous bit stream.
///
/// Bits pile up in `cur` until a full byte spills into the output; `close`
/// flushes the partial trailing byte, padded with zero bits.
pub struct BitPacker {
    cur: u8,
    cur_bits: u8,
}

impl BitPacker {
    /// The packer's cursor is inside one byte, and no stray bits sit at
    /// or above it.
    pub closed spec fn wf(self) -> bool {
        self.cur_bits < 8 && (self.cur as nat) < pow2(self.cur_bits as nat)
    }

    /// The bits buffered in the packer but not yet in the output.
    pub closed spec fn pending(self) -> Seq<bool> {
        Seq::new(self.cur_bits as nat, |i: int| nth_bit(self.cur as nat, i as nat))
    }

    /// All bits written so far: the output's bits then the pending ones.
    pub open spec fn bits(self, out: Seq<u8>) -> Seq<bool> {
        stream_bits(out) + self.pending()
    }

    /// A packer with nothing written.
    pub fn new() -> (r: Self)
        ensures
            r.wf(),
            r.pending() == Seq::<bool>::empty(),
    {
        let r = BitPacker { cur: 0, cur_bits: 0 };
        proof {
            vstd::arithmetic::power2::lemma2_to64();
            assert(r.pending() =~= Seq::<bool>::empty());
        }
        r
    }

    /// Appends one bit to the stream.
    fn push_bit(&mut self, bit: bool, out: &mut Vec<u8>)
        requires
            old(self).wf(),
        ensures
            final(self).wf(),
            final(self).bits(final(out)@) == old(self).bits(old(out)@).push(bit),
    {
        let cur = self.cur;
        let cur_bits = self.cur_bits;
        let joined: u8 = if bit {
            cur | (1u8 << cur_bits)
        } else {
            cur
        };
        proof {
            let cb = cur_bits;
            let j = joined;
            vstd::arithmetic::power2::lemma2_to64();
            if cb < 7 {
                vstd::arithmetic::power2::lemma_pow2_strictly_increases(cb as nat, 7);
            }
            vstd::arithmetic::mul::lemma_mul_basics(pow2(cb as nat) as int);
            vstd::bits::lemma_u8_shl_is_mul(1u8, cb);
            if bit {
                let m = 1u8 << cb;
                assert(cur | m == vstd::prelude::add(cur, m)) by (bit_vector)
                    requires
                        cb < 8,
                        m == 1u8 << cb,
                        cur < m,
                ;
            }
            // joined == cur + (bit ? pow2(cb) : 0), and its bits are the
            // bits of cur with `bit` on top.
            assert forall|i: int| 0 <= i < 8 implies #[trigger] nth_bit(j as nat, i as nat) == (if i < cb {
                nth_bit(cur as nat, i as nat)
            } else if i == cb {
                bit
            } else {
                false
            }) by {
                lemma_nth_bit_add_high(cur as nat, cb as nat, bit, i as nat);
            }
        }
        if cur_bits == 7 {
            out.push(joined);
            self.cur = 0;
            self.cur_bits = 0;
            proof {
                vstd::arithmetic::power2::lemma2_to64();
                assert(final(self).pending() =~= Seq::<bool>::empty());
                assert(final(self).bits(final(out)@) =~= old(self).bits(old(out)@).push(bit));
            }
        } else {
            self.cur = joined;
            self.cur_bits = cur_bits + 1;
            proof {
                vstd::arithmetic::power2::lemma_pow2_unfold((cur_bits + 1) as nat);
                assert(final(self).pending() =~= old(self).pending().push(bit));
                assert(final(self).bits(final(out)@) =~= old(self).bits(old(out)@).push(bit));
            }
        }
    }

    /// Appends the low `num_bits` bits of `val` to the stream.
    pub fn write(&mut self, val: u64, num_bits: u8, out: &mut Vec<u8>)
        requires
            old(self).wf(),
            num_bits <= 64,
        ensures
            final(self).wf(),
            final(self).bits(final(out)@) == old(self).bits(old(out)@) + u64_bits(
                val,
                num_bits as nat,
            ),
    {
        let mut k: u8 = 0;
        proof {
            assert(self.bits(out@) =~= old(self).bits(old(out)@) + u64_bits(val, 0));
        }
        while k < num_bits
            invariant
                self.wf(),
                k <= num_bits,
                num_bits <= 64,
                self.bits(out@) == old(self).bits(old(out)@) + u64_bits(val, k as nat),
            decreases num_bits - k,
        {
            let bit: bool = (val >> (k as u64)) & 1 == 1;
            proof {
                lemma_u64_bit_extract(val, k as u64);
            }
            self.push_bit(bit, out);
            proof {
                assert(u64_bits(val, (k + 1) as nat) =~= u64_bits(val, k as nat).push(bit));
                assert(self.bits(out@) =~= (old(self).bits(old(out)@) + u64_bits(val, k as nat))
                    .push(bit));
                assert(self.bits(out@) =~= old(self).bits(old(out)@) + u64_bits(
                    val,
                    (k + 1) as nat,
                ));
            }
            k = k + 1;
        }
    }

    /// Flushes the partial trailing byte, zero-padded, ending the stream.
    ///
    /// The output grows to exactly the written bits rounded up to whole
    /// bytes, the written bits are unchanged, and every padding bit is zero.
    pub fn close(self, out: &mut Vec<u8>)
        requires
            self.wf(),
        ensures
            final(out)@.len() * 8 == 8 * ((self.bits(old(out)@).len() + 7) / 8),
            stream_bits(final(out)@).take(self.bits(old(out)@).len() as int) == self.bits(
                old(out)@,
            ),
            forall|i: int|
                self.bits(old(out)@).len() <= i < final(out)@.len() * 8 ==> !stream_bits(
                    final(out)@,
                )[i],
    {
        let ghost target = self.bits(old(out)@);
        if self.cur_bits > 0 {
            out.push(self.cur);
            proof {
                let cur = self.cur;
                let cb = self.cur_bits;
                assert forall|i: int| cb <= i < 8 implies !(#[trigger] nth_bit(cur as nat, i as nat)) by {
                    lemma_nth_bit_high_zero(cur as nat, cb as nat, i as nat);
                }
                assert(stream_bits(final(out)@).take(target.len() as int) =~= target);
            }
        } else {
            proof {
                assert(target =~= stream_bits(old(out)@));
                assert(stream_bits(final(out)@).take(target.len() as int) =~= target);
            }
        }
    }
}

/// Bits of `v + (b ? 2^c : 0)` for `v < 2^c`: below position `c` they are
/// the bits of `v`, position `c` holds `b`, and positions above are zero.
proof fn lemma_nth_bit_add_high(v: nat, c: nat, b: bool, i: nat)
    requires
        v < pow2(c),
        i < 8,
        c < 8,
    ensures
        nth_bit(
            v + (if b {
                pow2(c)
            } else {
                0
            }),
            i,
        ) == (if i < c {
            nth_bit(v, i)
        } else if i == c {
            b
        } else {
            false
        }),
{
    let j = v + (if b {
        pow2(c)
    } else {
        0
    });
    vstd::arithmetic::power2::lemma_pow2_pos(i);
    vstd::arithmetic::power2::lemma_pow2_pos(c);
    if i < c {
        // pow2(c) is a multiple of 2*pow2(i), so the addition leaves
        // the low bits' digit untouched.
        if b {
            let m = pow2((c - i - 1) as nat) as int;
            let p = pow2(i) as int;
            assert(pow2(c) == (2 * p) * m) by {
                vstd::arithmetic::power2::lemma_pow2_adds(i + 1, (c - i - 1) as nat);
                vstd::arithmetic::power2::lemma_pow2_unfold(i + 1);
                vstd::arithmetic::mul::lemma_mul_is_associative(2, p, m);
            }
            vstd::arithmetic::div_mod::lemma_fundamental_div_mod(v as int, p);
            assert(j as int == p * (v as int / p + 2 * m) + (v as int) % p) by {
                vstd::arithmetic::mul::lemma_mul_is_distributive_add(p, v as int / p, 2 * m);
                vstd::arithmetic::mul::lemma_mul_is_associative(p, 2, m);
                vstd::arithmetic::mul::lemma_mul_is_associative(2, p, m);
                vstd::arithmetic::mul::lemma_mul_is_commutative(p, 2);
            }
            assert(j as int / p == v as int / p + 2 * m) by {
                vstd::arithmetic::div_mod::lemma_mod_bound(v as int, p);
                vstd::arithmetic::div_mod::lemma_div_multiples_vanish_fancy(
                    v as int / p + 2 * m,
                    (v as int) % p,
                    p,
                );
            }
            assert((v as int / p + 2 * m) % 2 == (v as int / p) % 2) by {
                vstd::arithmetic::div_mod::lemma_mod_multiples_vanish(m, v as int / p, 2);
            }
        }
    } else if i == c {
        if b {
            assert(j / pow2(c) == 1) by {
                vstd::arithmetic::div_mod::lemma_div_multiples_vanish_fancy(
                    1,
                    v as int,
                    pow2(c) as int,
                );
            }
        } else {
            assert(j / pow2(c) == 0) by {
                vstd::arithmetic::div_mod::lemma_basic_div(j as int, pow2(c) as int);
            }
        }
    } else {
        assert(j < pow2(c + 1)) by {
            vstd::arithmetic::power2::lemma_pow2_unfold(c + 1);
        }
        lemma_nth_bit_high_zero(j, c + 1, i);
    }
}

/// Values below `2^c` have zero bits at positions `c` and above.
proof fn lemma_nth_bit_high_zero(v: nat, c: nat, i: nat)
    requires
        v < pow2(c),
        c <= i,
    ensures
        !nth_bit(v, i),
{
    vstd::arithmetic::power2::lemma_pow2_pos(i);
    assert(v < pow2(i)) by {
        if c < i {
            vstd::arithmetic::power2::lemma_pow2_strictly_increases(c, i);
        }
    }
    assert(v / pow2(i) == 0) by {
        vstd::arithmetic::div_mod::lemma_basic_div(v as int, pow2(i) as int);
    }
}

/// Reads fixed-width values back out of a packed byte stream.
#[derive(Clone, Copy, Debug)]
pub struct BitUnpacker {
    num_bits: u8,
}

impl BitUnpacker {
    /// An unpacker for values of width `num_bits`.
    pub fn new(num_bits: u8) -> (r: Self)
        requires
            num_bits <= 64,
        ensures
            r.bit_width_spec() == num_bits,
    {
        BitUnpacker { num_bits }
    }

    /// The fixed width this unpacker reads, as specifications see it.
    pub closed spec fn bit_width_spec(self) -> u8 {
        self.num_bits
    }

    /// Whether the width is one an unpacker can read.
    pub open spec fn wf(self) -> bool {
        self.bit_width_spec() <= 64
    }

    /// The fixed width this unpacker reads.
    pub fn bit_width(&self) -> (r: u8)
        ensures
            r == self.bit_width_spec(),
    {
        self.num_bits
    }

    /// Reads the `idx`-th packed value from `data`.
    ///
    /// At width zero no bytes are touched and the value is zero.
    pub fn get(&self, idx: u32, data: &[u8]) -> (r: u64)
        requires
            self.wf(),
            idx as nat * self.bit_width_spec() as nat + self.bit_width_spec() as nat <= data@.len()
                * 8,
        ensures
            r == bits_to_nat(
                stream_bits(data@).subrange(
                    idx as int * self.bit_width_spec() as int,
                    idx as int * self.bit_width_spec() as int + self.bit_width_spec() as int,
                ),
            ),
    {
        let w: u64 = self.num_bits as u64;
        let data_len: usize = data.len();
        proof {
            vstd::arithmetic::mul::lemma_mul_upper_bound(idx as int, 0xffff_ffff, w as int, 64);
        }
        let base: u64 = (idx as u64) * w;
        let ghost start = idx as int * self.bit_width_spec() as int;
        let mut acc: u64 = 0;
        let mut k: u64 = 0;
        proof {
            vstd::arithmetic::power2::lemma2_to64();
            assert(stream_bits(data@).subrange(start, start) =~= Seq::<bool>::empty());
        }
        while k < w
            invariant
                w <= 64,
                k <= w,
                base == idx as nat * w,
                start == base,
                base + w <= data@.len() * 8,
                base <= 0xffff_ffff * 64,
                data_len == data@.len(),
                acc as nat == bits_to_nat(stream_bits(data@).subrange(start, start + k)),
                acc < pow2(k as nat),
            decreases w - k,
    {
            let pos: u64 = base + k;
            let byte_idx: u64 = pos / 8;
            let bit_idx: u64 = pos % 8;
            proof {
                assert(pos / 8 < data@.len()) by {
                    vstd::arithmetic::div_mod::lemma_multiply_divide_lt(
                        pos as int,
                        8,
                        data@.len() as int,
                    );
                }
            }
            let byte: u8 = data[byte_idx as usize];
            let bit: bool = (byte >> (bit_idx as u8)) & 1 == 1;
            proof {
                lemma_u8_bit_extract(byte, bit_idx as u8);
                assert(stream_bits(data@)[pos as int] == bit);
                let s = stream_bits(data@).subrange(start, start + k);
                lemma_bits_to_nat_push(s, bit);
                assert(stream_bits(data@).subrange(start, start + k + 1) =~= s.push(bit));
                let a = acc;
                let kk = k;
                if bit {
                    vstd::bits::lemma_u64_pow2_no_overflow(kk as nat);
                    vstd::arithmetic::mul::lemma_mul_basics(pow2(kk as nat) as int);
                    vstd::bits::lemma_u64_shl_is_mul(1u64, kk);
                    assert(a | (1u64 << kk) == vstd::prelude::add(a, 1u64 << kk)) by (bit_vector)
                        requires
                            kk < 64,
                            a < (1u64 << kk),
                    ;
                    assert(a + pow2(kk as nat) <= u64::MAX) by {
                        vstd::arithmetic::power2::lemma_pow2_unfold((kk + 1) as nat);
                        if kk + 1 < 64 {
                            vstd::arithmetic::power2::lemma_pow2_strictly_increases(
                                (kk + 1) as nat,
                                64,
                            );
                        }
                        vstd::arithmetic::power2::lemma2_to64_rest();
                    }
                }
                vstd::arithmetic::power2::lemma_pow2_unfold((k + 1) as nat);
            }
            if bit {
                acc = acc | (1u64 << k);
            }
            proof {
                let s = stream_bits(data@).subrange(start, start + k);
                assert(stream_bits(data@).subrange(start, start + k + 1) == s.push(bit));
                if bit {
                    assert(acc as nat == bits_to_nat(s) + pow2(k as nat));
                }
                assert(acc as nat == bits_to_nat(
                    stream_bits(data@).subrange(start, start + k + 1),
                ));
            }
            k = k + 1;
        }
        proof {
            assert(stream_bits(data@).subrange(start, start + w) =~= stream_bits(data@).subrange(
                start,
                start + self.bit_width_spec() as int,
            ));
        }
        acc
    }
}

} // verus!
