//! Streaming statistics collectors: row count, running (min, max), and the
//! greatest common divisor of the values' distances from each other.
//!
//! Each collector sees every value once, keeps O(1) state, and carries a
//! ghost history of the values it has seen so that its result can be
//! related to the whole column.

use vstd::prelude::*;

verus! {

/// Euclid's greatest common divisor, with `gcd(a, 0) == a`.
pub open spec fn gcd(a: nat, b: nat) -> nat
    decreases b,
{
    if b == 0 {
        a
    } else {
        gcd(b, a % b)
    }
}

/// `x` is a multiple of `d`; the divisor `0` divides only `0`.
pub open spec fn divides(d: nat, x: int) -> bool {
    if d == 0 {
        x == 0
    } else {
        x % (d as int) == 0
    }
}

/// The distance between two values.
pub open spec fn abs_diff(a: u64, b: u64) -> nat {
    if a >= b {
        (a - b) as nat
    } else {
        (b - a) as nat
    }
}

/// The least value of a nonempty sequence.
pub open spec fn seq_min(s: Seq<u64>) -> u64
    recommends
        s.len() > 0,
    decreases s.len(),
{
    if s.len() <= 1 {
        s[0]
    } else if s.last() < seq_min(s.drop_last()) {
        s.last()
    } else {
        seq_min(s.drop_last())
    }
}

/// The greatest value of a nonempty sequence.
pub open spec fn seq_max(s: Seq<u64>) -> u64
    recommends
        s.len() > 0,
    decreases s.len(),
{
    if s.len() <= 1 {
        s[0]
    } else if s.last() > seq_max(s.drop_last()) {
        s.last()
    } else {
        seq_max(s.drop_last())
    }
}

/// The GCD of every value's distance from the first value.
pub open spec fn seq_gcd(s: Seq<u64>) -> nat
    decreases s.len(),
{
    if s.len() <= 1 {
        0
    } else {
        gcd(seq_gcd(s.drop_last()), abs_diff(s.last(), s[0]))
    }
}

/// `seq_gcd`, normalized to a usable divisor: `1` when all values are equal.
pub open spec fn column_gcd(s: Seq<u64>) -> nat {
    if seq_gcd(s) == 0 {
        1
    } else {
        seq_gcd(s)
    }
}

/// The minimum is no larger than any element.
pub proof fn lemma_seq_min_le(s: Seq<u64>, i: int)
    requires
        0 <= i < s.len(),
    ensures
        seq_min(s) <= s[i],
    decreases s.len(),
{
    if s.len() > 1 && i < s.len() - 1 {
        lemma_seq_min_le(s.drop_last(), i);
    }
}

/// The maximum is no smaller than any element.
pub proof fn lemma_seq_max_ge(s: Seq<u64>, i: int)
    requires
        0 <= i < s.len(),
    ensures
        seq_max(s) >= s[i],
    decreases s.len(),
{
    if s.len() > 1 && i < s.len() - 1 {
        lemma_seq_max_ge(s.drop_last(), i);
    }
}

/// The minimum is attained by some element.
pub proof fn lemma_seq_min_in(s: Seq<u64>)
    requires
        s.len() > 0,
    ensures
        exists|j: int| 0 <= j < s.len() && s[j] == seq_min(s),
    decreases s.len(),
{
    if s.len() <= 1 {
        assert(s[0] == seq_min(s));
    } else if s.last() < seq_min(s.drop_last()) {
        assert(s[s.len() - 1] == seq_min(s));
    } else {
        lemma_seq_min_in(s.drop_last());
        let j = choose|j: int| 0 <= j < s.drop_last().len() && s.drop_last()[j] == seq_min(
            s.drop_last(),
        );
        assert(s[j] == seq_min(s));
    }
}

/// The maximum is attained by some element.
pub proof fn lemma_seq_max_in(s: Seq<u64>)
    requires
        s.len() > 0,
    ensures
        exists|j: int| 0 <= j < s.len() && s[j] == seq_max(s),
    decreases s.len(),
{
    if s.len() <= 1 {
        assert(s[0] == seq_max(s));
    } else if s.last() > seq_max(s.drop_last()) {
        assert(s[s.len() - 1] == seq_max(s));
    } else {
        lemma_seq_max_in(s.drop_last());
        let j = choose|j: int| 0 <= j < s.drop_last().len() && s.drop_last()[j] == seq_max(
            s.drop_last(),
        );
        assert(s[j] == seq_max(s));
    }
}

/// The GCD divides both its arguments.
pub proof fn lemma_gcd_divides(a: nat, b: nat)
    ensures
        divides(gcd(a, b), a as int),
        divides(gcd(a, b), b as int),
    decreases b,
{
    if b == 0 {
        if a != 0 {
            vstd::arithmetic::div_mod::lemma_mod_self_0(a as int);
        }
    } else {
        lemma_gcd_divides(b, a % b);
        let g = gcd(b, a % b);
        vstd::arithmetic::div_mod::lemma_mod_bound(a as int, b as int);
        if g == 0 {
            // b % g style reasoning is unavailable; here g == 0 forces
            // b == 0, contradicting b > 0, so this branch is vacuous.
            assert(b as int == 0);
        } else {
            vstd::arithmetic::div_mod::lemma_fundamental_div_mod(a as int, b as int);
            let q = a as int / b as int;
            let t = b as int / g as int;
            vstd::arithmetic::div_mod::lemma_fundamental_div_mod(b as int, g as int);
            assert(b as int == g * t);
            assert(a as int == g * (t * q) + (a as int % b as int)) by {
                vstd::arithmetic::mul::lemma_mul_is_associative(g as int, t, q);
            }
            assert(a as int % g as int == (a as int % b as int) % g as int) by {
                vstd::arithmetic::div_mod::lemma_mod_multiples_vanish(
                    t * q,
                    a as int % b as int,
                    g as int,
                );
            }
        }
    }
}

/// A divisor of two numbers divides their difference.
pub proof fn lemma_divides_sub(d: nat, x: int, y: int)
    requires
        divides(d, x),
        divides(d, y),
    ensures
        divides(d, x - y),
{
    if d != 0 {
        vstd::arithmetic::div_mod::lemma_sub_mod_noop(x, y, d as int);
        vstd::arithmetic::div_mod::lemma_small_mod(0, d);
    }
}

/// Transitivity: a divisor of a divisor divides.
pub proof fn lemma_divides_trans(d: nat, m: nat, x: int)
    requires
        divides(d, m as int),
        divides(m, x),
    ensures
        divides(d, x),
{
    if d != 0 && m != 0 {
        vstd::arithmetic::div_mod::lemma_fundamental_div_mod(m as int, d as int);
        vstd::arithmetic::div_mod::lemma_fundamental_div_mod(x, m as int);
        let t = m as int / d as int;
        let q = x / m as int;
        assert(x == d as int * (t * q)) by {
            vstd::arithmetic::mul::lemma_mul_is_associative(d as int, t, q);
        }
        assert(x % d as int == 0) by {
            vstd::arithmetic::div_mod::lemma_mod_multiples_vanish(t * q, 0, d as int);
        }
    }
}

/// The running GCD divides every value's distance from the first value;
/// a zero GCD means every distance is zero.
pub proof fn lemma_seq_gcd_divides(s: Seq<u64>, i: int)
    requires
        0 <= i < s.len(),
    ensures
        divides(seq_gcd(s), s[i] as int - s[0] as int),
    decreases s.len(),
{
    let g = seq_gcd(s);
    if s.len() <= 1 {
        // Only the first element: distance zero, divisible by anything.
    } else {
        lemma_gcd_divides(seq_gcd(s.drop_last()), abs_diff(s.last(), s[0]));
        if i == s.len() - 1 {
            lemma_divides_abs(g, s.last(), s[0]);
        } else {
            lemma_seq_gcd_divides(s.drop_last(), i);
            lemma_divides_trans(g, seq_gcd(s.drop_last()), s[i] as int - s[0] as int);
        }
    }
}

/// Divisibility of a distance gives divisibility of the signed difference.
pub proof fn lemma_divides_abs(d: nat, a: u64, b: u64)
    requires
        divides(d, abs_diff(a, b) as int),
    ensures
        divides(d, a as int - b as int),
        divides(d, b as int - a as int),
{
    if d != 0 {
        lemma_divides_sub(d, 0, abs_diff(a, b) as int);
    }
}

/// A divisor of a positive number is no larger than it.
pub proof fn lemma_divides_le(d: nat, x: nat)
    requires
        divides(d, x as int),
        x > 0,
    ensures
        d <= x,
{
    if d > 0 && d > x {
        vstd::arithmetic::div_mod::lemma_basic_div(x as int, d as int);
        vstd::arithmetic::div_mod::lemma_fundamental_div_mod(x as int, d as int);
    }
}

/// The running GCD of a column of 64-bit values fits in 64 bits.
pub proof fn lemma_seq_gcd_le(s: Seq<u64>)
    ensures
        seq_gcd(s) <= u64::MAX,
    decreases s.len(),
{
    if s.len() > 1 {
        lemma_seq_gcd_le(s.drop_last());
        let g0 = seq_gcd(s.drop_last());
        let d = abs_diff(s.last(), s[0]);
        lemma_gcd_divides(g0, d);
        if d > 0 {
            lemma_divides_le(gcd(g0, d), d);
        }
    }
}

/// The normalized column divisor fits in 64 bits.
pub proof fn lemma_column_gcd_le(s: Seq<u64>)
    ensures
        1 <= column_gcd(s) <= u64::MAX,
{
    lemma_seq_gcd_le(s);
}

/// The normalized column GCD divides every value's distance from the least
/// value: for every `i`, `(s[i] - seq_min(s)) % column_gcd(s) == 0`.
pub proof fn lemma_column_gcd(s: Seq<u64>, i: int)
    requires
        0 <= i < s.len(),
    ensures
        column_gcd(s) >= 1,
        (s[i] as int - seq_min(s) as int) % (column_gcd(s) as int) == 0,
{
    let g = column_gcd(s);
    lemma_seq_min_in(s);
    let j = choose|j: int| 0 <= j < s.len() && s[j] == seq_min(s);
    lemma_seq_gcd_divides(s, i);
    lemma_seq_gcd_divides(s, j);
    lemma_divides_sub(seq_gcd(s), s[i] as int - s[0] as int, s[j] as int - s[0] as int);
    assert(s[i] as int - seq_min(s) as int == (s[i] as int - s[0] as int) - (s[j] as int
        - s[0] as int));
}

/// Counts the rows of a column.
pub struct NumRowsCollector {
    count: u32,
    history: Ghost<Seq<u64>>,
}

impl NumRowsCollector {
    /// The values this collector has seen, in order.
    pub closed spec fn history(self) -> Seq<u64> {
        self.history@
    }

    /// The count always equals the number of values seen.
    pub closed spec fn wf(self) -> bool {
        self.count == self.history@.len()
    }

    /// A collector that has seen nothing.
    pub fn new() -> (r: Self)
        ensures
            r.wf(),
            r.history() == Seq::<u64>::empty(),
    {
        NumRowsCollector { count: 0, history: Ghost(Seq::empty()) }
    }

    /// Feeds one value.
    pub fn collect(&mut self, value: u64)
        requires
            old(self).wf(),
            old(self).history().len() < u32::MAX,
        ensures
            final(self).wf(),
            final(self).history() == old(self).history().push(value),
    {
        self.count = self.count + 1;
        proof {
            self.history@ = self.history@.push(value);
        }
    }

    /// The number of rows seen.
    pub fn finalize(&self) -> (r: u32)
        requires
            self.wf(),
        ensures
            r == self.history().len(),
    {
        self.count
    }

    /// On-disk footprint of the row count: one little-endian `u32`.
    pub fn num_bytes(&self) -> (r: u64)
        ensures
            r == 4,
    {
        4
    }
}

/// Tracks the least and greatest value of a column.
pub struct MinMaxCollector {
    min_value: u64,
    max_value: u64,
    any: bool,
    history: Ghost<Seq<u64>>,
}

impl MinMaxCollector {
    /// The values this collector has seen, in order.
    pub closed spec fn history(self) -> Seq<u64> {
        self.history@
    }

    /// The running extrema match the history.
    pub closed spec fn wf(self) -> bool {
        &&& self.any <==> self.history@.len() > 0
        &&& self.history@.len() > 0 ==> self.min_value == seq_min(self.history@)
        &&& self.history@.len() > 0 ==> self.max_value == seq_max(self.history@)
    }

    /// A collector that has seen nothing.
    pub fn new() -> (r: Self)
        ensures
            r.wf(),
            r.history() == Seq::<u64>::empty(),
    {
        MinMaxCollector { min_value: 0, max_value: 0, any: false, history: Ghost(Seq::empty()) }
    }

    /// Feeds one value.
    pub fn collect(&mut self, value: u64)
        requires
            old(self).wf(),
        ensures
            final(self).wf(),
            final(self).history() == old(self).history().push(value),
    {
        if !self.any {
            self.any = true;
            self.min_value = value;
            self.max_value = value;
        } else {
            if value < self.min_value {
                self.min_value = value;
            }
            if value > self.max_value {
                self.max_value = value;
            }
        }
        proof {
            self.history@ = self.history@.push(value);
            assert(self.history@.drop_last() =~= old(self).history@);
        }
    }

    /// The `(min, max)` pair of a nonempty column.
    pub fn finalize(&self) -> (r: (u64, u64))
        requires
            self.wf(),
            self.history().len() > 0,
        ensures
            r.0 == seq_min(self.history()),
            r.1 == seq_max(self.history()),
    {
        (self.min_value, self.max_value)
    }

    /// On-disk footprint of the extrema: two little-endian `u64` words.
    pub fn num_bytes(&self) -> (r: u64)
        ensures
            r == 16,
    {
        16
    }
}

/// Tracks the GCD of every value's distance from the first value seen;
/// finalizes to a nonzero divisor, `1` when all values are equal.
pub struct GcdCollector {
    first: u64,
    acc: u64,
    any: bool,
    history: Ghost<Seq<u64>>,
}

impl GcdCollector {
    /// The values this collector has seen, in order.
    pub closed spec fn history(self) -> Seq<u64> {
        self.history@
    }

    /// The running GCD matches the history.
    pub closed spec fn wf(self) -> bool {
        &&& self.any <==> self.history@.len() > 0
        &&& self.history@.len() > 0 ==> self.first == self.history@[0]
        &&& self.acc == seq_gcd(self.history@)
    }

    /// A collector that has seen nothing.
    pub fn new() -> (r: Self)
        ensures
            r.wf(),
            r.history() == Seq::<u64>::empty(),
    {
        GcdCollector { first: 0, acc: 0, any: false, history: Ghost(Seq::empty()) }
    }

    /// Feeds one value.
    pub fn collect(&mut self, value: u64)
        requires
            old(self).wf(),
        ensures
            final(self).wf(),
            final(self).history() == old(self).history().push(value),
    {
        if !self.any {
            self.any = true;
            self.first = value;
        } else {
            let diff: u64 = if value >= self.first {
                value - self.first
            } else {
                self.first - value
            };
            self.acc = gcd_u64(self.acc, diff);
        }
        proof {
            self.history@ = self.history@.push(value);
            assert(self.history@.drop_last() =~= old(self).history@);
            if old(self).history@.len() == 0 {
                assert(seq_gcd(self.history@) == 0);
            }
        }
    }

    /// The column's divisor: at least 1, and it divides the distance of
    /// every collected value from the least collected value.
    pub fn finalize(&self) -> (r: u64)
        requires
            self.wf(),
            self.history().len() > 0,
        ensures
            r == column_gcd(self.history()),
            r >= 1,
            forall|i: int|
                0 <= i < self.history().len() ==> (self.history()[i] as int - seq_min(
                    self.history(),
                ) as int) % (r as int) == 0,
    {
        proof {
            assert forall|i: int| 0 <= i < self.history().len() implies (self.history()[i] as int
                - seq_min(self.history()) as int) % (column_gcd(self.history()) as int) == 0 by {
                lemma_column_gcd(self.history@, i);
            }
        }
        if self.acc == 0 {
            1
        } else {
            self.acc
        }
    }

    /// On-disk footprint of the divisor: one little-endian `u64`.
    pub fn num_bytes(&self) -> (r: u64)
        ensures
            r == 8,
    {
        8
    }
}

/// Euclid's algorithm.
pub fn gcd_u64(a: u64, b: u64) -> (r: u64)
    ensures
        r == gcd(a as nat, b as nat),
{
    let mut x: u64 = a;
    let mut y: u64 = b;
    while y != 0
        invariant
            gcd(x as nat, y as nat) == gcd(a as nat, b as nat),
        decreases y,
    {
        proof {
            vstd::arithmetic::div_mod::lemma_mod_bound(x as int, y as int);
        }
        let t: u64 = x % y;
        x = y;
        y = t;
    }
    x
}

} // verus!
