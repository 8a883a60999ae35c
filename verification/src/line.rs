//! A two-parameter affine model over ordinal positions, evaluated with
//! wrapping arithmetic so that encode-side and decode-side computations
//! cancel exactly.

use vstd::prelude::*;
use crate::serial::{vint_bytes, parse_vint_at, vint_max_len, write_vint, vint_num_bytes,
    read_vint_at};

verus! {

/// `2^64`, the modulus of the wrapping `u64` world.
pub open spec fn w64() -> nat {
    0x1_0000_0000_0000_0000
}

/// Wrapping difference `a - b` modulo `2^64`.
pub open spec fn wsub(a: u64, b: u64) -> u64 {
    (((a + w64()) - b) % w64() as int) as u64
}

/// Wrapping sum `a + b` modulo `2^64`.
pub open spec fn wadd(a: u64, b: u64) -> u64 {
    ((a + b) % w64() as int) as u64
}

/// Computes the wrapping difference.
pub fn wrapping_sub_u64(a: u64, b: u64) -> (r: u64)
    ensures
        r == wsub(a, b),
        wadd(b, r) == a,
{
    let r: u64 = if a >= b {
        a - b
    } else {
        (((a as u128) + 0x1_0000_0000_0000_0000u128) - (b as u128)) as u64
    };
    proof {
        if a < b {
            let big = ((a as u128) + 0x1_0000_0000_0000_0000u128) - (b as u128);
            assert(big < 0x1_0000_0000_0000_0000u128);
            assert(big as u64 == big);
        }
        lemma_wrap_mod(a + w64() - b);
        lemma_wrap_mod(a as int);
        assert(b + wsub(a, b) == a + w64() || b + wsub(a, b) == a);
        lemma_wrap_mod(a + w64());
        if b + wsub(a, b) == a + w64() {
            assert((a + w64()) % w64() as int == (a as int) % w64() as int) by {
                vstd::arithmetic::div_mod::lemma_mod_add_multiples_vanish(a as int, w64() as int);
            }
        }
    }
    r
}

/// Wrapping product `a * b` modulo `2^64`.
pub open spec fn wmul(a: u64, b: u64) -> u64 {
    ((a * b) % w64() as int) as u64
}

/// Computes the wrapping product.
pub fn wrapping_mul_u64(a: u64, b: u64) -> (r: u64)
    ensures
        r == wmul(a, b),
{
    proof {
        vstd::arithmetic::mul::lemma_mul_upper_bound(
            a as int,
            0xffff_ffff_ffff_ffff,
            b as int,
            0xffff_ffff_ffff_ffff,
        );
    }
    let wide: u128 = (a as u128) * (b as u128);
    let r: u64 = #[verifier::truncate] (wide as u64);
    proof {
        let s = wide;
        assert(s as u64 == s % 0x1_0000_0000_0000_0000u128) by (bit_vector);
    }
    r
}

/// Computes the wrapping sum.
pub fn wrapping_add_u64(a: u64, b: u64) -> (r: u64)
    ensures
        r == wadd(a, b),
{
    let wide: u128 = (a as u128) + (b as u128);
    let r: u64 = #[verifier::truncate] (wide as u64);
    proof {
        let s = wide;
        assert(s as u64 == s % 0x1_0000_0000_0000_0000u128) by (bit_vector);
    }
    r
}

/// A value below the modulus is its own remainder.
proof fn lemma_wrap_mod(x: int)
    ensures
        0 <= x < w64() ==> x % w64() as int == x,
        w64() <= x < 2 * w64() ==> x % w64() as int == x - w64(),
{
    if 0 <= x < w64() {
        vstd::arithmetic::div_mod::lemma_small_mod(x as nat, w64());
    }
    if w64() <= x < 2 * w64() {
        vstd::arithmetic::div_mod::lemma_small_mod((x - w64()) as nat, w64());
        vstd::arithmetic::div_mod::lemma_mod_add_multiples_vanish(x - w64() as int, w64() as int);
    }
}

/// An affine model `f(i) = intercept + slope * i` over `2^64`-wrapping
/// arithmetic, trained per block and stored in its footer record.
#[derive(Debug, Clone, Copy, PartialEq, Eq, Structural)]
pub struct Line {
    pub slope: u64,
    pub intercept: u64,
}

impl Line {
    /// The model's value at ordinal `x`, modulo `2^64`.
    pub open spec fn eval_spec(self, x: u64) -> u64 {
        ((self.intercept + self.slope * x) % w64() as int) as u64
    }

    /// Evaluates the model at ordinal `x`.
    pub fn eval(&self, x: u32) -> (r: u64)
        ensures
            r == self.eval_spec(x as u64),
    {
        proof {
            vstd::arithmetic::mul::lemma_mul_upper_bound(
                self.slope as int,
                0xffff_ffff_ffff_ffff,
                x as int,
                0xffff_ffff,
            );
        }
        let wide: u128 = (self.intercept as u128) + (self.slope as u128) * (x as u128);
        let r: u64 = #[verifier::truncate] (wide as u64);
        proof {
            let s = wide;
            assert(s as u64 == s % 0x1_0000_0000_0000_0000u128) by (bit_vector);
        }
        r
    }

    /// A flat line through zero.
    pub fn zero() -> (r: Line)
        ensures
            r.slope == 0,
            r.intercept == 0,
    {
        Line { slope: 0, intercept: 0 }
    }

    /// The residual the model leaves at position `i` of `vals`.
    pub open spec fn residual(self, vals: Seq<u64>, i: int) -> u64 {
        wsub(vals[i], self.eval_spec(i as u64))
    }

    /// The line with this slope that passes exactly through `vals[j]`.
    pub open spec fn candidate(slope: u64, vals: Seq<u64>, j: int) -> Line {
        Line {
            slope,
            intercept: wsub(vals[j], (Line { slope, intercept: 0 }).eval_spec(j as u64)),
        }
    }

    /// The slope the fit uses: the average step between the endpoints,
    /// negative steps wrapped.
    pub open spec fn slope_spec(vals: Seq<u64>) -> u64 {
        if vals.len() >= 2 {
            let first = vals[0];
            let last = vals[vals.len() - 1];
            if last >= first {
                (((last - first) as int) / (vals.len() - 1)) as u64
            } else {
                wsub(0, ((((first - last) as int) / (vals.len() - 1))) as u64)
            }
        } else {
            0
        }
    }

    /// The index among `0..k` whose candidate line leaves the smallest
    /// largest residual; the earliest such index wins ties.
    pub open spec fn best_candidate_j(slope: u64, vals: Seq<u64>, k: int) -> int
        decreases k,
    {
        if k <= 1 {
            0
        } else {
            let prev = Line::best_candidate_j(slope, vals, k - 1);
            if max_residual_prefix(Line::candidate(slope, vals, k - 1), vals, vals.len() as int)
                < max_residual_prefix(Line::candidate(slope, vals, prev), vals, vals.len() as int) {
                k - 1
            } else {
                prev
            }
        }
    }

    /// The line the fit returns, as a function of the block alone.
    pub open spec fn train_spec(vals: Seq<u64>) -> Line {
        if vals.len() == 0 {
            Line { slope: 0, intercept: 0 }
        } else {
            Line::candidate(
                Line::slope_spec(vals),
                vals,
                Line::best_candidate_j(Line::slope_spec(vals), vals, vals.len() as int),
            )
        }
    }

    /// Fits a line to a block of values: the slope follows the endpoints,
    /// and the intercept shifts the line onto one of the values, chosen to
    /// minimize the largest wrapping residual among those candidates.
    ///
    /// Any line is sound — residuals are stored exactly — so the fit is a
    /// heuristic, but a fully pinned one: the result is `train_spec` of the
    /// block, some value in the block sits exactly on the returned line,
    /// and no candidate intercept would leave a smaller largest residual.
    pub fn train(values: &Vec<u64>) -> (r: Line)
        requires
            values@.len() <= 0xffff_ffff,
        ensures
            r == Line::train_spec(values@),
            values@.len() > 0 ==> exists|j: int|
                0 <= j < values@.len() && #[trigger] r.residual(values@, j) == 0,
            forall|j: int|
                0 <= j < values@.len() ==> max_residual_prefix(
                    r,
                    values@,
                    values@.len() as int,
                ) <= max_residual_prefix(
                    #[trigger] Line::candidate(r.slope, values@, j),
                    values@,
                    values@.len() as int,
                ),
    {
        let n = values.len();
        if n == 0 {
            return Line::zero();
        }
        let first = values[0];
        let last = values[n - 1];
        let slope: u64 = if n >= 2 {
            if last >= first {
                (last - first) / ((n - 1) as u64)
            } else {
                wrapping_sub_u64(0, (first - last) / ((n - 1) as u64))
            }
        } else {
            0
        };
        // Candidate intercepts: each value shifted back by the slope part.
        // Pick the one whose largest wrapping residual is smallest.
        let probe = Line { slope, intercept: 0 };
        let mut best_j: usize = 0;
        let mut best_intercept: u64 = wrapping_sub_u64(values[0], probe.eval(0));
        let mut best_max: u64 = max_residual_exec(&Line { slope, intercept: best_intercept }, values);
        proof {
            assert(Line::candidate(slope, values@, 0) == (Line {
                slope,
                intercept: best_intercept,
            }));
        }
        let mut j: usize = 1;
        while j < n
            invariant
                n == values@.len(),
                n <= 0xffff_ffff,
                probe == (Line { slope, intercept: 0u64 }),
                1 <= j <= n,
                0 <= best_j < n,
                slope == Line::slope_spec(values@),
                best_j == Line::best_candidate_j(slope, values@, j as int),
                best_intercept == Line::candidate(slope, values@, best_j as int).intercept,
                best_max == max_residual_prefix(
                    (Line { slope, intercept: best_intercept }),
                    values@,
                    n as int,
                ),
                forall|jj: int|
                    0 <= jj < j ==> best_max <= max_residual_prefix(
                        #[trigger] Line::candidate(slope, values@, jj),
                        values@,
                        n as int,
                    ),
            decreases n - j,
        {
            let cand = wrapping_sub_u64(values[j], probe.eval(j as u32));
            let cand_max = max_residual_exec(&Line { slope, intercept: cand }, values);
            proof {
                assert(Line::candidate(slope, values@, j as int) == (Line {
                    slope,
                    intercept: cand,
                }));
            }
            if cand_max < best_max {
                best_max = cand_max;
                best_intercept = cand;
                best_j = j;
            }
            j = j + 1;
        }
        let line = Line { slope, intercept: best_intercept };
        proof {
            lemma_intercept_zero_residual(line, values@, best_j as int);
            assert(line == Line::train_spec(values@));
        }
        line
    }

    /// Appends the line's on-disk record: slope then intercept, both
    /// variable-width.
    pub fn serialize(&self, out: &mut Vec<u8>)
        ensures
            final(out)@ == old(out)@ + line_bytes(*self),
    {
        write_vint(out, self.slope);
        write_vint(out, self.intercept);
        proof {
            assert(final(out)@ =~= old(out)@ + line_bytes(*self));
        }
    }

    /// The length of the line's on-disk record.
    pub fn num_bytes(&self) -> (r: u64)
        ensures
            r == line_bytes(*self).len(),
            2 <= r <= 20,
    {
        let a = vint_num_bytes(self.slope);
        let b = vint_num_bytes(self.intercept);
        a + b
    }
}

/// The on-disk record of a line.
pub open spec fn line_bytes(line: Line) -> Seq<u8> {
    vint_bytes(line.slope as nat) + vint_bytes(line.intercept as nat)
}

/// Parses a line record at `pos`: a slope and an intercept, each a
/// variable-width integer that must fit in a `u64`.
pub open spec fn parse_line_at(bytes: Seq<u8>, pos: int) -> Option<(Line, int)> {
    match parse_vint_at(bytes, pos, vint_max_len()) {
        Some((slope, mid)) => if slope < w64() {
            match parse_vint_at(bytes, mid, vint_max_len()) {
                Some((intercept, end)) => if intercept < w64() {
                    Some((Line { slope: slope as u64, intercept: intercept as u64 }, end))
                } else {
                    None
                },
                None => None,
            }
        } else {
            None
        },
        None => None,
    }
}

/// Reads a line record.
pub fn read_line_at(bytes: &[u8], pos: usize) -> (r: Option<(Line, usize)>)
    ensures
        match parse_line_at(bytes@, pos as int) {
            Some((line, end)) => r == Some((line, end as usize)),
            None => r is None,
        },
{
    let n = bytes.len();
    proof {
        crate::serial::lemma_parse_vint_bound(bytes@, pos as int, vint_max_len());
    }
    match read_vint_at(bytes, pos) {
        None => None,
        Some((slope, mid)) => {
            proof {
                crate::serial::lemma_parse_vint_bound(bytes@, mid as int, vint_max_len());
            }
            match read_vint_at(bytes, mid) {
                None => None,
                Some((intercept, end)) => Some((Line { slope, intercept }, end)),
            }
        },
    }
}

/// A parsed line record ends after where it started, within the bytes.
pub proof fn lemma_parse_line_bound(bytes: Seq<u8>, pos: int)
    ensures
        match parse_line_at(bytes, pos) {
            Some((line, end)) => pos < end <= bytes.len(),
            None => true,
        },
{
    crate::serial::lemma_parse_vint_bound(bytes, pos, vint_max_len());
    match crate::serial::parse_vint_at(bytes, pos, vint_max_len()) {
        Some((v, mid)) => {
            crate::serial::lemma_parse_vint_bound(bytes, mid, vint_max_len());
        },
        None => {},
    }
}

/// A line record embedded in a byte string parses back to the line.
pub proof fn lemma_line_roundtrip(bytes: Seq<u8>, pos: int, line: Line)
    requires
        0 <= pos,
        pos + line_bytes(line).len() <= bytes.len(),
        bytes.subrange(pos, pos + line_bytes(line).len() as int) == line_bytes(line),
    ensures
        parse_line_at(bytes, pos) == Some((line, pos + line_bytes(line).len())),
{
    let sb = vint_bytes(line.slope as nat);
    let ib = vint_bytes(line.intercept as nat);
    crate::serial::lemma_u64_lt_pow128_10();
    crate::serial::lemma_vint_bytes_len(line.slope as nat, 10);
    crate::serial::lemma_vint_bytes_len(line.intercept as nat, 10);
    assert(bytes.subrange(pos, pos + sb.len() as int) =~= sb) by {
        assert(forall|i: int|
            0 <= i < sb.len() ==> bytes.subrange(pos, pos + line_bytes(line).len() as int)[i]
                == #[trigger] sb[i]);
    }
    crate::serial::lemma_vint_roundtrip(bytes, pos, line.slope as nat, vint_max_len());
    let mid = pos + sb.len() as int;
    assert(bytes.subrange(mid, mid + ib.len() as int) =~= ib) by {
        assert(forall|i: int|
            0 <= i < ib.len() ==> bytes.subrange(pos, pos + line_bytes(line).len() as int)[sb.len()
                + i] == #[trigger] ib[i]);
    }
    crate::serial::lemma_vint_roundtrip(bytes, mid, line.intercept as nat, vint_max_len());
}

/// The largest wrapping residual the line leaves on `vals[..k]`.
pub open spec fn max_residual_prefix(line: Line, vals: Seq<u64>, k: int) -> u64
    decreases k,
{
    if k <= 0 {
        0
    } else if line.residual(vals, k - 1) > max_residual_prefix(line, vals, k - 1) {
        line.residual(vals, k - 1)
    } else {
        max_residual_prefix(line, vals, k - 1)
    }
}

/// Computes the largest wrapping residual the line leaves on `vals`.
pub fn max_residual_exec(line: &Line, vals: &Vec<u64>) -> (r: u64)
    requires
        vals@.len() <= 0xffff_ffff,
    ensures
        r == max_residual_prefix(*line, vals@, vals@.len() as int),
{
    let n = vals.len();
    let mut best: u64 = 0;
    let mut i: usize = 0;
    while i < n
        invariant
            n == vals@.len(),
            i <= n,
            n <= 0xffff_ffff,
            best == max_residual_prefix(*line, vals@, i as int),
        decreases n - i,
    {
        let e = line.eval(i as u32);
        let resid = wrapping_sub_u64(vals[i], e);
        if resid > best {
            best = resid;
        }
        i = i + 1;
    }
    best
}

/// Every residual in a prefix is bounded by the prefix's largest.
pub proof fn lemma_max_residual_ge(line: Line, vals: Seq<u64>, k: int, i: int)
    requires
        0 <= i < k <= vals.len(),
    ensures
        line.residual(vals, i) <= max_residual_prefix(line, vals, k),
    decreases k,
{
    if i < k - 1 {
        lemma_max_residual_ge(line, vals, k - 1, i);
    }
}

/// A line whose intercept was taken from position `j` leaves residual
/// zero there.
proof fn lemma_intercept_zero_residual(line: Line, vals: Seq<u64>, j: int)
    requires
        0 <= j < vals.len(),
        line.intercept == wsub(
            vals[j],
            (Line { slope: line.slope, intercept: 0 }).eval_spec(j as u64),
        ),
    ensures
        line.residual(vals, j) == 0,
{
    let probe = Line { slope: line.slope, intercept: 0 };
    let s = line.slope;
    let v = vals[j];
    let e0 = probe.eval_spec(j as u64);
    let c = line.intercept;
    // eval of the full line is the wrapping sum of the intercept and the
    // slope part, and the intercept was the wrapping difference from v.
    vstd::arithmetic::div_mod::lemma_mod_bound((0 + s * (j as u64)) as int, w64() as int);
    vstd::arithmetic::div_mod::lemma_mod_bound((c + s * (j as u64)) as int, w64() as int);
    assert(line.eval_spec(j as u64) == wadd(c, e0)) by {
        lemma_eval_split(line, j as u64);
    }
    // wadd(wsub(v, e0), e0) == v, so the residual wsub(v, eval) is zero.
    lemma_wrap_cancel(v, e0);
    lemma_wsub_self(v);
}

/// Evaluating a line splits into its intercept and its slope part.
proof fn lemma_eval_split(line: Line, x: u64)
    ensures
        line.eval_spec(x) == wadd(
            line.intercept,
            (Line { slope: line.slope, intercept: 0 }).eval_spec(x),
        ),
{
    let c = line.intercept as int;
    let sx = (line.slope * x) as int;
    let m = w64() as int;
    assert((c + sx % m) % m == (c + sx) % m) by {
        vstd::arithmetic::div_mod::lemma_add_mod_noop_right(c, sx, m);
        vstd::arithmetic::div_mod::lemma_mod_mod(c + sx, 1, m);
        vstd::arithmetic::div_mod::lemma_mod_twice(c + sx, m);
    }
    vstd::arithmetic::div_mod::lemma_mod_bound(sx, m);
    assert((0 + sx) % m == sx % m);
}

/// Adding back what was subtracted, with wrapping, returns the start.
proof fn lemma_wrap_cancel(v: u64, e: u64)
    ensures
        wadd(wsub(v, e), e) == v,
{
    let m = w64() as int;
    let d = (v + w64() - e) as int;
    vstd::arithmetic::div_mod::lemma_mod_bound(d, m);
    assert((d % m + e) % m == (d + e) % m) by {
        vstd::arithmetic::div_mod::lemma_add_mod_noop(d, e as int, m);
        vstd::arithmetic::div_mod::lemma_mod_twice(d + e, m);
        vstd::arithmetic::div_mod::lemma_mod_mod(e as int, 1, m);
        vstd::arithmetic::div_mod::lemma_small_mod(e as nat, w64());
    }
    assert((d + e) % m == (v as int) % m) by {
        vstd::arithmetic::div_mod::lemma_mod_add_multiples_vanish(v as int, m);
    }
    vstd::arithmetic::div_mod::lemma_small_mod(v as nat, w64());
}

/// A value's wrapping difference from itself is zero.
proof fn lemma_wsub_self(v: u64)
    ensures
        wsub(v, v) == 0,
{
    let m = w64() as int;
    vstd::arithmetic::div_mod::lemma_mod_self_0(m);
    assert((v + w64() - v) as int == m);
}

/// The wrapping sum of a residual and the evaluated line restores the
/// original value: the decode-side reconstruction identity.
pub proof fn lemma_residual_roundtrip(line: Line, vals: Seq<u64>, i: int)
    requires
        0 <= i < vals.len(),
    ensures
        wadd(line.eval_spec(i as u64), line.residual(vals, i)) == vals[i],
{
    let e = line.eval_spec(i as u64);
    let v = vals[i];
    lemma_wrap_cancel(v, e);
    lemma_wadd_comm(wsub(v, e), e);
}

/// Wrapping addition commutes.
proof fn lemma_wadd_comm(a: u64, b: u64)
    ensures
        wadd(a, b) == wadd(b, a),
{
}

} // verus!
