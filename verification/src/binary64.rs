//! Numbers of the IEEE 754 binary64 format, held by their bits.
//!
//! Rates, percentages and thresholds are binary64 numbers. Keeping the bits as
//! an integer lets every comparison and every rounding be part of the proofs:
//! each operation is stated as the correctly rounded result of exact
//! arithmetic (round to nearest, ties to even).

use vstd::arithmetic::power2::*;
use vstd::prelude::*;

verus! {

/// A binary64 number. Two values are equal when their bits are.
#[derive(Clone, Copy, Debug, PartialEq, Eq, Structural)]
pub struct Binary64 {
    pub bits: u64,
}

/// Weight of the sign bit.
pub const SIGN: u64 = 0x8000_0000_0000_0000;

/// Magnitude bits of infinity; greater magnitudes are not numbers.
pub const INF: u64 = 0x7ff0_0000_0000_0000;

/// Weight of one exponent step in the bits.
pub const STEP: u64 = 0x0010_0000_0000_0000;

/// The bits given for a result that is not a number.
pub const QUIET_NAN: u64 = 0x7ff8_0000_0000_0000;

// ---------------------------------------------------------------------------
// Values

/// The magnitude `m` (bits without the sign) as a multiple of the smallest
/// positive number. At `INF` it continues the scale of the finite numbers.
pub open spec fn scaled(m: int) -> int {
    let e = m / (STEP as int);
    let f = m % (STEP as int);
    if e <= 0 {
        f
    } else {
        (STEP + f) * two_to(e - 1)
    }
}

/// Two to the power of `e`.
pub open spec fn two_to(e: int) -> int {
    pow2(e as nat) as int
}

/// One, as a multiple of the smallest positive number.
pub open spec fn unit() -> int {
    two_to(1074)
}

/// `m` is the magnitude closest to the ratio `n / d`, where a ratio half way
/// between two magnitudes goes to the even one. Ratios beyond the largest
/// finite magnitude reach `INF` as if the scale went on.
pub open spec fn rounds_to(n: int, d: int, m: int) -> bool {
    &&& 0 <= m <= INF
    &&& m > 0 ==> {
        ||| 2 * n > (scaled(m - 1) + scaled(m)) * d
        ||| 2 * n == (scaled(m - 1) + scaled(m)) * d && m % 2 == 0
    }
    &&& m < INF ==> {
        ||| 2 * n < (scaled(m) + scaled(m + 1)) * d
        ||| 2 * n == (scaled(m) + scaled(m + 1)) * d && m % 2 == 0
    }
}

/// The magnitude closest to `n / d`.
pub open spec fn nearest(n: int, d: int) -> int {
    choose|m: int| rounds_to(n, d, m)
}

impl Binary64 {
    pub open spec fn negative(self) -> bool {
        self.bits >= SIGN
    }

    /// The bits without the sign.
    pub open spec fn mag(self) -> int {
        if self.bits >= SIGN {
            self.bits - SIGN
        } else {
            self.bits as int
        }
    }

    pub open spec fn nan(self) -> bool {
        self.mag() > INF
    }

    pub open spec fn finite(self) -> bool {
        self.mag() < INF
    }

    pub open spec fn infinite(self) -> bool {
        self.mag() == INF
    }

    pub open spec fn zero(self) -> bool {
        self.mag() == 0
    }

    /// The exact value of a finite number, in multiples of the smallest
    /// positive number.
    pub open spec fn value(self) -> int {
        if self.negative() {
            -scaled(self.mag())
        } else {
            scaled(self.mag())
        }
    }

    /// A number that grows exactly as the numeric value does, infinities
    /// included; both zeros stand at 0.
    pub open spec fn place(self) -> int {
        if self.negative() {
            -self.mag()
        } else {
            self.mag()
        }
    }

    /// Numeric `<`: false when either side is not a number.
    pub open spec fn below(self, other: Binary64) -> bool {
        !self.nan() && !other.nan() && self.place() < other.place()
    }

    /// Numeric `<=`: false when either side is not a number.
    pub open spec fn at_most(self, other: Binary64) -> bool {
        !self.nan() && !other.nan() && self.place() <= other.place()
    }

    /// Position in the total order of all bit patterns: negative numbers by
    /// falling magnitude, then positive numbers by rising magnitude.
    pub open spec fn rank(self) -> int {
        if self.negative() {
            0xffff_ffff_ffff_ffff - self.bits
        } else {
            self.bits + SIGN
        }
    }

    /// The greater of two numbers; what is not a number gives way.
    pub open spec fn greater(self, other: Binary64) -> Binary64 {
        if self.nan() || self.below(other) {
            other
        } else {
            self
        }
    }

    /// The lesser of two numbers; what is not a number gives way.
    pub open spec fn lesser(self, other: Binary64) -> Binary64 {
        if self.nan() || other.below(self) {
            other
        } else {
            self
        }
    }
}

/// The number with the given sign and magnitude bits.
pub open spec fn signed(negative: bool, m: int) -> Binary64 {
    Binary64 {
        bits: if negative {
            (SIGN + m) as u64
        } else {
            m as u64
        },
    }
}

pub open spec fn quiet_nan() -> Binary64 {
    Binary64 { bits: QUIET_NAN }
}

/// Zero.
pub open spec fn zero() -> Binary64 {
    Binary64 { bits: 0 }
}

/// `a + b`, correctly rounded.
pub open spec fn sum(a: Binary64, b: Binary64) -> Binary64 {
    if a.nan() || b.nan() || (a.infinite() && b.infinite() && a.negative() != b.negative()) {
        quiet_nan()
    } else if a.infinite() {
        a
    } else if b.infinite() {
        b
    } else {
        let s = a.value() + b.value();
        if s == 0 {
            signed(a.negative() && b.negative(), 0)
        } else if s < 0 {
            signed(true, nearest(-s, 1))
        } else {
            signed(false, nearest(s, 1))
        }
    }
}

/// The number with its sign turned.
pub open spec fn negated(a: Binary64) -> Binary64 {
    signed(!a.negative(), a.mag())
}

/// `a - b`, correctly rounded.
pub open spec fn difference(a: Binary64, b: Binary64) -> Binary64 {
    sum(a, negated(b))
}

/// The number without its sign.
pub open spec fn absolute(a: Binary64) -> Binary64 {
    signed(false, a.mag())
}

/// `a * b`, correctly rounded.
pub open spec fn product(a: Binary64, b: Binary64) -> Binary64 {
    let negative = a.negative() != b.negative();
    if a.nan() || b.nan() || (a.infinite() && b.zero()) || (a.zero() && b.infinite()) {
        quiet_nan()
    } else if a.infinite() || b.infinite() {
        signed(negative, INF as int)
    } else {
        signed(negative, nearest(scaled(a.mag()) * scaled(b.mag()), unit()))
    }
}

/// `a / b`, correctly rounded.
pub open spec fn quotient(a: Binary64, b: Binary64) -> Binary64 {
    let negative = a.negative() != b.negative();
    if a.nan() || b.nan() || (a.infinite() && b.infinite()) || (a.zero() && b.zero()) {
        quiet_nan()
    } else if a.infinite() || b.zero() {
        signed(negative, INF as int)
    } else if b.infinite() {
        signed(negative, 0)
    } else {
        signed(negative, nearest(scaled(a.mag()) * unit(), scaled(b.mag())))
    }
}

/// The number closest to a natural number.
pub open spec fn whole(n: int) -> Binary64 {
    signed(false, nearest(n * unit(), 1))
}

/// The integer part, held within `0..=max`; 0 for what is not a number.
pub open spec fn integer_part(a: Binary64, max: int) -> int {
    if a.nan() || a.negative() {
        0
    } else if a.infinite() || scaled(a.mag()) / unit() > max {
        max
    } else {
        scaled(a.mag()) / unit()
    }
}

// ---------------------------------------------------------------------------
// The scale of magnitudes

/// Within one exponent the scale is even: the magnitude `u * STEP + t` stands
/// for `t * 2^u`, up to and with the first magnitude of the next exponent.
proof fn lemma_scaled(u: int, t: int)
    requires
        0 <= u,
        0 <= t <= 2 * STEP,
        u > 0 ==> STEP <= t,
    ensures
        scaled(u * STEP + t) == t * two_to(u),
{
    let m = u * STEP + t;
    lemma2_to64();
    if u == 0 && t < STEP {
        assert(t * two_to(0) == t) by (nonlinear_arith)
            requires
                two_to(0) == 1,
        ;
    } else if t < 2 * STEP {
        let f = t - STEP;
        assert(m == (u + 1) * STEP + f) by (nonlinear_arith)
            requires
                m == u * STEP + t,
                f == t - STEP,
        ;
        vstd::arithmetic::div_mod::lemma_fundamental_div_mod_converse(m, STEP as int, u + 1, f);
    } else {
        assert(m == (u + 2) * STEP) by (nonlinear_arith)
            requires
                m == u * STEP + t,
                t == 2 * STEP,
        ;
        vstd::arithmetic::div_mod::lemma_fundamental_div_mod_converse(m, STEP as int, u + 2, 0);
        lemma_pow2_unfold((u + 1) as nat);
        assert(STEP * (2 * two_to(u)) == (2 * STEP) * two_to(u)) by (nonlinear_arith);
    }
}

/// The exponent and the digits that a magnitude has.
proof fn lemma_parts(m: int) -> (r: (int, int))
    requires
        0 <= m,
    ensures
        0 <= r.0,
        0 <= r.1 < 2 * STEP,
        r.0 > 0 ==> STEP <= r.1,
        m == r.0 * STEP + r.1,
        scaled(m) == r.1 * two_to(r.0),
{
    let e = m / (STEP as int);
    let f = m % (STEP as int);
    vstd::arithmetic::div_mod::lemma_fundamental_div_mod(m, STEP as int);
    let r = if e == 0 {
        (0int, f)
    } else {
        (e - 1, STEP + f)
    };
    assert(m == r.0 * STEP + r.1) by (nonlinear_arith)
        requires
            m == STEP * e + f,
            e == 0 ==> r.0 == 0 && r.1 == f,
            e > 0 ==> r.0 == e - 1 && r.1 == STEP + f,
            e >= 0,
    ;
    lemma_scaled(r.0, r.1);
    r
}

/// Between a magnitude and the next one lies the weight of its last digit.
proof fn lemma_gap(u: int, t: int)
    requires
        0 <= u,
        0 <= t < 2 * STEP,
        u > 0 ==> STEP <= t,
    ensures
        scaled(u * STEP + t + 1) == (t + 1) * two_to(u),
        scaled(u * STEP + t) == t * two_to(u),
        scaled(u * STEP + t) < scaled(u * STEP + t + 1),
{
    lemma_scaled(u, t);
    lemma_scaled(u, t + 1);
    assert(u * STEP + t + 1 == u * STEP + (t + 1));
    lemma_pow2_pos(u as nat);
    assert((t + 1) * two_to(u) == t * two_to(u) + two_to(u)) by (nonlinear_arith);
}

proof fn lemma_scaled_rises(a: int, b: int)
    requires
        0 <= a < b,
    ensures
        scaled(a) < scaled(b),
    decreases b - a,
{
    let (u, t) = lemma_parts(a);
    lemma_gap(u, t);
    if a + 1 < b {
        lemma_scaled_rises(a + 1, b);
    }
}

/// No two magnitudes are both closest to the same ratio.
pub proof fn lemma_nearest(n: int, d: int, m: int)
    requires
        d > 0,
        rounds_to(n, d, m),
    ensures
        nearest(n, d) == m,
{
    let k = nearest(n, d);
    assert(rounds_to(n, d, k));
    if k < m {
        lemma_apart(n, d, k, m);
    } else if m < k {
        lemma_apart(n, d, m, k);
    }
}

proof fn lemma_apart(n: int, d: int, k: int, m: int)
    requires
        d > 0,
        0 <= k < m,
    ensures
        !(rounds_to(n, d, k) && rounds_to(n, d, m)),
{
    let hi = scaled(m - 1) + scaled(m);
    let lo = scaled(k) + scaled(k + 1);
    if k + 1 < m {
        lemma_scaled_rises(k, m - 1);
        lemma_scaled_rises(k + 1, m);
        assert(lo * d < hi * d) by (nonlinear_arith)
            requires
                lo < hi,
                d > 0,
        ;
    }
}

pub proof fn exact_rounds(m: int)
    requires
        0 <= m < INF,
    ensures
        rounds_to(scaled(m), 1, m),
{
    if m > 0 {
        lemma_scaled_rises(m - 1, m);
    }
    lemma_scaled_rises(m, m + 1);
}

/// A number that a magnitude stands for exactly is closest to that magnitude.
pub proof fn exact_is_nearest(m: int)
    requires
        0 <= m < INF,
    ensures
        nearest(scaled(m), 1) == m,
{
    exact_rounds(m);
    lemma_nearest(scaled(m), 1, m);
}

proof fn lemma_search(n: int, d: int, m: int) -> (k: int)
    requires
        0 <= n,
        d > 0,
        0 <= m <= INF,
        m > 0 ==> {
            ||| 2 * n > (scaled(m - 1) + scaled(m)) * d
            ||| 2 * n == (scaled(m - 1) + scaled(m)) * d && m % 2 == 0
        },
    ensures
        rounds_to(n, d, k),
    decreases INF - m,
{
    let mid = (scaled(m) + scaled(m + 1)) * d;
    if m == INF || 2 * n < mid || (2 * n == mid && m % 2 == 0) {
        m
    } else {
        lemma_search(n, d, m + 1)
    }
}

/// Every ratio has a magnitude that is closest to it.
pub proof fn nearest_exists(n: int, d: int)
    requires
        0 <= n,
        d > 0,
    ensures
        rounds_to(n, d, nearest(n, d)),
{
    let k = lemma_search(n, d, 0);
    lemma_nearest(n, d, k);
}

/// Rounding keeps the order of ratios.
pub proof fn nearest_keeps_order(a: int, b: int, d: int)
    requires
        0 <= a <= b,
        d > 0,
    ensures
        0 <= nearest(a, d) <= nearest(b, d) <= INF,
{
    let k = nearest(a, d);
    let m = nearest(b, d);
    nearest_exists(a, d);
    nearest_exists(b, d);
    if m < k {
        let lo = scaled(m) + scaled(m + 1);
        let hi = scaled(k - 1) + scaled(k);
        if m + 1 < k {
            lemma_scaled_rises(m, k - 1);
            lemma_scaled_rises(m + 1, k);
            assert(lo * d < hi * d) by (nonlinear_arith)
                requires
                    lo < hi,
                    d > 0,
            ;
        } else {
            assert(lo == hi);
        }
    }
}

/// Two to the power of 53 is what the digits of a number stay below.
proof fn lemma_wide_gap(u: int, t: int)
    requires
        0 <= u,
        0 <= t <= 2 * STEP,
        t * two_to(u) >= unit(),
    ensures
        two_to(u) >= two_to(1021),
{
    lemma2_to64();
    lemma2_to64_rest();
    assert(pow2(53) == 2 * STEP);
    if u < 1021 {
        lemma_pow2_adds(53, u as nat);
        lemma_pow2_strictly_increases((53 + u) as nat, 1074);
        assert(t * two_to(u) <= pow2(53) * two_to(u)) by (nonlinear_arith)
            requires
                t <= pow2(53),
                two_to(u) >= 0,
        ;
    } else if u > 1021 {
        lemma_pow2_strictly_increases(1021, u as nat);
    }
}

/// From one on, the magnitudes stand at least 2^-53 apart.
pub proof fn lemma_gaps_from_one(m: int)
    requires
        0 < m,
        scaled(m) >= unit(),
    ensures
        scaled(m) - scaled(m - 1) >= two_to(1021),
        scaled(m + 1) - scaled(m) >= two_to(1021),
{
    let (u, t) = lemma_parts(m - 1);
    lemma_gap(u, t);
    lemma_wide_gap(u, t + 1);
    assert((t + 1) * two_to(u) - t * two_to(u) == two_to(u)) by (nonlinear_arith);
    let (v, w) = lemma_parts(m);
    lemma_gap(v, w);
    lemma_wide_gap(v, w);
    assert((w + 1) * two_to(v) - w * two_to(v) == two_to(v)) by (nonlinear_arith);
}

/// Magnitudes stand in the order of what they stand for.
pub proof fn lemma_scaled_order(a: int, b: int)
    requires
        0 <= a,
        0 <= b,
    ensures
        a <= b <==> scaled(a) <= scaled(b),
{
    if a < b {
        lemma_scaled_rises(a, b);
    } else if b < a {
        lemma_scaled_rises(b, a);
    }
}

pub proof fn lemma_scaled_natural(m: int)
    requires
        0 <= m,
    ensures
        0 <= scaled(m),
        m > 0 ==> 0 < scaled(m),
{
    assert(scaled(0) == 0);
    if m > 0 {
        lemma_scaled_rises(0, m);
    }
}

/// A natural number is held without a sign.
pub proof fn whole_is_unsigned(n: int)
    requires
        0 <= n,
    ensures
        !whole(n).negative(),
        !whole(n).nan(),
{
    lemma_pow2_pos(1074);
    assert(n * unit() >= 0) by (nonlinear_arith)
        requires
            n >= 0,
            unit() > 0,
    ;
    nearest_exists(n * unit(), 1);
}

/// Small natural numbers stand in their order.
pub proof fn wholes_in_order(a: int, b: int)
    requires
        0 <= a <= b <= 2 * STEP,
    ensures
        whole(a).at_most(whole(b)),
        a < b ==> whole(a).below(whole(b)),
{
    whole_is_exact(a);
    whole_is_exact(b);
    lemma_pow2_pos(1074);
    assert(a * unit() <= b * unit() && (a < b ==> a * unit() < b * unit())) by (nonlinear_arith)
        requires
            a <= b,
            unit() > 0,
    ;
    lemma_scaled_order(whole(a).mag(), whole(b).mag());
    lemma_scaled_order(whole(b).mag(), whole(a).mag());
}

/// A quotient of numbers without a sign is not below zero.
pub proof fn quotient_is_not_below_zero(a: Binary64, b: Binary64)
    requires
        !a.negative(),
        !b.negative(),
    ensures
        !quotient(a, b).below(zero()),
        !quotient(a, b).negative(),
{
    let n = scaled(a.mag()) * unit();
    let d = scaled(b.mag());
    if !a.nan() && !b.nan() && !a.infinite() && !b.infinite() && !b.zero() {
        lemma_pow2_pos(1074);
        lemma_scaled_natural(a.mag());
        lemma_scaled_natural(b.mag());
        assert(n >= 0) by (nonlinear_arith)
            requires
                n == scaled(a.mag()) * unit(),
                scaled(a.mag()) >= 0,
                unit() > 0,
        ;
        nearest_exists(n, d);
    }
}

/// A product of numbers without a sign is not below zero.
pub proof fn product_is_not_below_zero(a: Binary64, b: Binary64)
    requires
        !a.negative(),
        !b.negative(),
    ensures
        !product(a, b).below(zero()),
        !product(a, b).negative(),
{
    let n = scaled(a.mag()) * scaled(b.mag());
    if !a.nan() && !b.nan() && !a.infinite() && !b.infinite() {
        lemma_pow2_pos(1074);
        lemma_scaled_natural(a.mag());
        lemma_scaled_natural(b.mag());
        assert(n >= 0) by (nonlinear_arith)
            requires
                n == scaled(a.mag()) * scaled(b.mag()),
                scaled(a.mag()) >= 0,
                scaled(b.mag()) >= 0,
        ;
        nearest_exists(n, unit());
    }
}

/// The magnitude of `t * 2^u`, found by doubling `t` while it is short.
proof fn lemma_normal(t: int, u: int) -> (m: int)
    requires
        0 < t <= 2 * STEP,
        53 <= u <= 1074,
    ensures
        0 <= m < INF,
        scaled(m) == t * two_to(u),
    decreases 2 * STEP - t,
{
    if t >= STEP {
        lemma_scaled(u, t);
        assert(0 <= u * STEP + t < INF) by (nonlinear_arith)
            requires
                0 < t <= 2 * STEP,
                0 <= u <= 1074,
                INF == 2047 * STEP,
        ;
        u * STEP + t
    } else {
        lemma_halving(t, u)
    }
}

proof fn lemma_halving(t: int, u: int) -> (m: int)
    requires
        0 < t < STEP,
        0 <= u <= 1074,
    ensures
        0 <= m < INF,
        scaled(m) == t * two_to(u),
    decreases u,
{
    if u == 0 {
        lemma_scaled(0, t);
        assert(0 * STEP + t == t);
        t
    } else {
        lemma_pow2_unfold(u as nat);
        assert((2 * t) * two_to(u - 1) == t * two_to(u)) by (nonlinear_arith)
            requires
                two_to(u) == 2 * two_to(u - 1),
        ;
        if 2 * t < STEP {
            lemma_halving(2 * t, u - 1)
        } else {
            lemma_scaled(u - 1, 2 * t);
            assert(0 <= (u - 1) * STEP + 2 * t < INF) by (nonlinear_arith)
                requires
                    0 < t < STEP,
                    0 < u <= 1074,
                    INF == 2047 * STEP,
            ;
            (u - 1) * STEP + 2 * t
        }
    }
}

/// Natural numbers up to 2^53 are held exactly, and come back as they were.
pub proof fn whole_is_exact(n: int)
    requires
        0 <= n <= 2 * STEP,
    ensures
        whole(n).finite(),
        !whole(n).negative(),
        scaled(whole(n).mag()) == n * unit(),
        forall|max: int| n <= max ==> #[trigger] integer_part(whole(n), max) == n,
{
    lemma_pow2_pos(1074);
    let m = if n == 0 {
        assert(scaled(0) == 0);
        assert(0 * unit() == 0);
        0
    } else {
        lemma_normal(n, 1074)
    };
    exact_is_nearest(m);
    assert(whole(n).mag() == m);
    vstd::arithmetic::div_mod::lemma_div_by_multiple(n, unit());
}

// ---------------------------------------------------------------------------
// Rounding

/// Bound on the digits that a rounding starts from.
pub const WIDE: u128 = 0x40_0000_0000_0000_0000_0000_0000_0000;

/// Rounding `n / d` to a multiple of `2^u` that a magnitude can hold gives the
/// closest magnitude.
proof fn lemma_place(n: int, d: int, u: int, t: int, up: bool)
    requires
        d > 0,
        0 <= u,
        0 <= t < 2 * STEP,
        u > 0 ==> STEP <= t,
        t * (two_to(u) * d) <= n < (t + 1) * (two_to(u) * d),
        up <==> (2 * n > (2 * t + 1) * (two_to(u) * d) || (2 * n == (2 * t + 1) * (two_to(u) * d)
            && t % 2 == 1)),
    ensures
        ({
            let m = u * STEP + t + (if up {
                1int
            } else {
                0int
            });
            rounds_to(n, d, if m < INF {
                m
            } else {
                INF as int
            })
        }),
{
    let b = u * STEP + t;
    let w = two_to(u) * d;
    lemma_gap(u, t);
    lemma_pow2_pos(u as nat);
    assert(b >= 0) by (nonlinear_arith)
        requires
            b == u * STEP + t,
            u >= 0,
            t >= 0,
    ;
    assert(b % 2 == t % 2) by {
        assert(u * STEP == 2 * (u * (STEP / 2))) by (nonlinear_arith)
            requires
                STEP == 2 * (STEP / 2),
        ;
    }
    assert(scaled(b) * d == t * w && scaled(b + 1) * d == (t + 1) * w) by (nonlinear_arith)
        requires
            scaled(b) == t * two_to(u),
            scaled(b + 1) == (t + 1) * two_to(u),
            w == two_to(u) * d,
    ;
    assert((scaled(b) + scaled(b + 1)) * d == (2 * t + 1) * w) by (nonlinear_arith)
        requires
            scaled(b) * d == t * w,
            scaled(b + 1) * d == (t + 1) * w,
    ;
    let m = if up {
        b + 1
    } else {
        b
    };
    let r = if m < INF {
        m
    } else {
        INF as int
    };
    if r > 0 {
        if r < m {
            // beyond the scale
            let top = scaled(r - 1) + scaled(r);
            let low = if up {
                scaled(b) + scaled(b + 1)
            } else {
                2 * scaled(b)
            };
            if r < b {
                lemma_scaled_rises(r, b);
            }
            lemma_scaled_rises(r - 1, b);
            assert(top * d < low * d) by (nonlinear_arith)
                requires
                    top < low,
                    d > 0,
            ;
            assert(low * d <= 2 * n) by (nonlinear_arith)
                requires
                    up ==> low * d == (2 * t + 1) * w && 2 * n >= (2 * t + 1) * w,
                    !up ==> low == 2 * scaled(b) && scaled(b) * d <= n,
            ;
        } else if !up {
            lemma_scaled_rises(b - 1, b);
            assert((scaled(b - 1) + scaled(b)) * d < 2 * (scaled(b) * d)) by (nonlinear_arith)
                requires
                    scaled(b - 1) < scaled(b),
                    d > 0,
            ;
        }
    }
    if r < INF && up {
        lemma_scaled_rises(b + 1, b + 2);
        assert(2 * (scaled(b + 1) * d) < (scaled(b + 1) + scaled(b + 2)) * d) by (nonlinear_arith)
            requires
                scaled(b + 1) < scaled(b + 2),
                d > 0,
        ;
    }
}

/// What is known of a ratio `a` after `t` digits of weight `w`: the digit that
/// follows (`guard`), and whether anything is left after that one (`rest`).
spec fn split(a: int, t: int, w: int, guard: bool, rest: bool) -> bool {
    &&& t * w <= a < (t + 1) * w
    &&& (guard ==> 2 * a >= (2 * t + 1) * w)
    &&& (!guard ==> 2 * a < (2 * t + 1) * w)
    &&& (2 * a == (2 * t + 1) * w <==> guard && !rest)
}

/// Dropping one binary digit keeps account of the ratio.
proof fn lemma_drop_digit(a: int, t: int, w: int, inexact: bool)
    requires
        w > 0,
        t >= 0,
        t * w <= a < (t + 1) * w,
        inexact <==> a != t * w,
    ensures
        split(a, t / 2, 2 * w, t % 2 == 1, inexact),
        (t % 2 == 1 || inexact) <==> a != (t / 2) * (2 * w),
{
    let h = t / 2;
    let b = t % 2;
    assert(h * (2 * w) == (2 * h) * w) by (nonlinear_arith);
    assert((h + 1) * (2 * w) == (2 * h + 2) * w) by (nonlinear_arith);
    assert((2 * h + 1) * (2 * w) == 2 * ((2 * h + 1) * w)) by (nonlinear_arith);
    assert((t + 1) * w == t * w + w) by (nonlinear_arith);
    if b == 1 {
        assert((2 * h + 1) * w == (2 * h) * w + w) by (nonlinear_arith);
        assert((2 * h + 2) * w == (2 * h + 1) * w + w) by (nonlinear_arith);
    } else {
        assert((2 * h + 1) * w == (2 * h) * w + w) by (nonlinear_arith);
        assert((2 * h + 2) * w == (2 * h + 1) * w + w) by (nonlinear_arith);
    }
}

/// The weights `2^x` above and below one.
pub open spec fn up_weight(x: int) -> int {
    if x >= 0 {
        two_to(x)
    } else {
        1
    }
}

pub open spec fn down_weight(x: int) -> int {
    if x >= 0 {
        1
    } else {
        two_to(-x)
    }
}

/// `two_to(k) * up_weight(x)` is `two_to(x + k) * down_weight(x)`.
proof fn lemma_weights(x: int, k: int)
    requires
        0 <= k,
        0 <= x + k,
    ensures
        two_to(k) * up_weight(x) == two_to(x + k) * down_weight(x),
        up_weight(x) > 0,
        down_weight(x) > 0,
{
    lemma2_to64();
    if x >= 0 {
        lemma_pow2_adds(k as nat, x as nat);
        lemma_pow2_pos(x as nat);
    } else {
        lemma_pow2_adds((x + k) as nat, (-x) as nat);
        lemma_pow2_pos((-x) as nat);
        assert(two_to(k) * 1 == two_to(x + k) * two_to(-x));
    }
}

/// A number below `WIDE` has fewer than 118 digits.
proof fn lemma_digits(t: int, k: int, s: int)
    requires
        t >= 1,
        k >= 0,
        t * two_to(k) <= s,
        s < WIDE,
    ensures
        k < 118,
{
    lemma_pow2_pos(k as nat);
    assert(two_to(k) <= s) by (nonlinear_arith)
        requires
            t >= 1,
            two_to(k) > 0,
            t * two_to(k) <= s,
    ;
    if k >= 118 {
        lemma2_to64();
        lemma2_to64_rest();
        lemma_pow2_adds(64, 54);
        assert(two_to(118) == WIDE);
        if k > 118 {
            lemma_pow2_strictly_increases(118, k as nat);
        }
    }
}

/// A common factor does not matter to how a ratio stands to its digits.
proof fn lemma_cancel(n: int, t: int, z: int, q: int)
    requires
        q > 0,
    ensures
        t * (z * q) <= n * q <==> t * z <= n,
        n * q < (t + 1) * (z * q) <==> n < (t + 1) * z,
        n * q == t * (z * q) <==> n == t * z,
        2 * (n * q) >= (2 * t + 1) * (z * q) <==> 2 * n >= (2 * t + 1) * z,
        2 * (n * q) == (2 * t + 1) * (z * q) <==> 2 * n == (2 * t + 1) * z,
{
    assert(t * (z * q) == (t * z) * q) by (nonlinear_arith);
    assert((t + 1) * (z * q) == ((t + 1) * z) * q) by (nonlinear_arith);
    assert((2 * t + 1) * (z * q) == ((2 * t + 1) * z) * q) by (nonlinear_arith);
    assert(2 * (n * q) == (2 * n) * q) by (nonlinear_arith);
    lemma_scale(t * z, n, q);
    lemma_scale(n, (t + 1) * z, q);
    lemma_scale((2 * t + 1) * z, 2 * n, q);
}

proof fn lemma_scale(a: int, b: int, q: int)
    by (nonlinear_arith)
    requires
        q > 0,
    ensures
        a * q <= b * q <==> a <= b,
        a * q < b * q <==> a < b,
        a * q == b * q <==> a == b,
{
}

/// The magnitude closest to `n / d`, where `s` holds the leading digits of
/// `n / (d * 2^x)` and `inexact` tells whether digits are left behind them.
#[verifier::spinoff_prover]
pub(crate) fn round(s: u128, x: i32, inexact: bool, Ghost(n): Ghost<int>, Ghost(d): Ghost<int>) -> (m: u64)
    requires
        d > 0,
        -4000 <= x <= 4000,
        s < WIDE,
        s * (up_weight(x as int) * d) <= n * down_weight(x as int) < (s + 1) * (up_weight(x as int) * d),
        inexact <==> n * down_weight(x as int) != s * (up_weight(x as int) * d),
        inexact ==> s >= 2 * STEP,
    ensures
        rounds_to(n, d, m as int),
{
    let ghost x0 = x as int;
    let ghost a = n * down_weight(x0);
    let ghost v = up_weight(x0) * d;
    let mut t: u128 = s;
    let mut u: i32 = x;
    let mut guard: bool = false;
    let mut rest: bool = inexact;
    let ghost mut k: int = 0;
    proof {
        lemma2_to64();
        lemma_weights(x0, if x0 >= 0 { 0 } else { -x0 });
        assert(v > 0) by (nonlinear_arith)
            requires
                v == up_weight(x0) * d,
                up_weight(x0) > 0,
                d > 0,
        ;
        assert(two_to(0) * v == v) by (nonlinear_arith)
            requires
                two_to(0) == 1,
        ;
    }
    while t >= 2 * (STEP as u128) || u < 0
        invariant
            k >= 0,
            u == x0 + k,
            -4000 <= x0 <= 4000,
            inexact ==> s >= 2 * STEP,
            u <= 4200,
            v > 0,
            t < WIDE,
            t * (two_to(k) * v) <= a < (t + 1) * (two_to(k) * v),
            (guard || rest) <==> a != t * (two_to(k) * v),
            k > 0 ==> split(a, t as int, two_to(k) * v, guard, rest),
            k > 0 && u > 0 ==> t >= STEP,
            k == 0 ==> t == s && !guard && rest == inexact,
            t * two_to(k) <= s,
            s < WIDE,
        decreases (if u < 0 { -u as int } else { 0 }), t,
    {
        proof {
            if u >= 0 {
                lemma_digits(t as int, k, s as int);
            }
            let w = two_to(k) * v;
            lemma_pow2_pos(k as nat);
            lemma_pow2_unfold((k + 1) as nat);
            assert(w > 0 && two_to(k + 1) * v == 2 * w) by (nonlinear_arith)
                requires
                    w == two_to(k) * v,
                    two_to(k) > 0,
                    v > 0,
                    two_to(k + 1) == 2 * two_to(k),
            ;
            lemma_drop_digit(a, t as int, w, guard || rest);
            assert((t / 2) * two_to(k + 1) <= s) by (nonlinear_arith)
                requires
                    two_to(k + 1) == 2 * two_to(k),
                    t * two_to(k) <= s,
                    two_to(k) > 0,
                    2 * (t / 2) <= t,
            ;
        }
        rest = rest || guard;
        guard = t % 2 == 1;
        t = t / 2;
        u = u + 1;
        proof {
            k = k + 1;
        }
    }
    proof {
        let w = two_to(k) * v;
        lemma_weights(x0, k);
        let q = down_weight(x0);
        assert(w == (two_to(u as int) * d) * q) by (nonlinear_arith)
            requires
                w == two_to(k) * v,
                v == up_weight(x0) * d,
                two_to(k) * up_weight(x0) == two_to(u as int) * q,
        ;
        lemma_cancel(n, t as int, two_to(u as int) * d, q);
        if k == 0 {
            lemma_pow2_pos(u as nat);
            let y = two_to(u as int) * d;
            assert((2 * t + 1) * y > 2 * (t * y)) by (nonlinear_arith)
                requires
                    y == two_to(u as int) * d,
                    two_to(u as int) > 0,
                    d > 0,
            ;
        }
    }
    let ghost mut z = two_to(u as int) * d;
    while u > 0 && t < STEP as u128
        invariant
            0 <= u <= 4200,
            0 <= t < 2 * STEP,
            z == two_to(u as int) * d,
            d > 0,
            t * z <= n < (t + 1) * z,
            u > 0 && t < STEP ==> !guard && !rest && n == t * z,
            guard ==> 2 * n >= (2 * t + 1) * z,
            !guard ==> 2 * n < (2 * t + 1) * z,
            2 * n == (2 * t + 1) * z <==> guard && !rest,
        decreases u,
    {
        proof {
            lemma_pow2_unfold(u as nat);
            lemma_pow2_pos((u - 1) as nat);
            let y = two_to(u - 1) * d;
            assert(z == 2 * y && y > 0) by (nonlinear_arith)
                requires
                    z == two_to(u as int) * d,
                    y == two_to(u - 1) * d,
                    two_to(u as int) == 2 * two_to(u - 1),
                    two_to(u - 1) > 0,
                    d > 0,
            ;
            assert(t * z == (2 * t) * y) by (nonlinear_arith)
                requires
                    z == 2 * y,
            ;
            assert((2 * t + 1) * y == (2 * t) * y + y) by (nonlinear_arith);
            assert((2 * (2 * t) + 1) * y == 2 * ((2 * t) * y) + y) by (nonlinear_arith);
            z = y;
        }
        t = t * 2;
        u = u - 1;
    }
    let up: bool = guard && (rest || t % 2 == 1);
    proof {
        lemma_place(n, d, u as int, t as int, up);
    }
    if u >= 2046 {
        assert(u * STEP + t >= INF) by (nonlinear_arith)
            requires
                u >= 2046,
                t >= STEP,
                INF == 2047 * STEP,
        ;
        return INF;
    }
    let m: u64 = (u as u64) * STEP + (t as u64) + (if up {
        1
    } else {
        0
    });
    if m < INF {
        m
    } else {
        INF
    }
}

// ---------------------------------------------------------------------------
// Operations

/// Two to the power of `e`.
fn power(e: u32) -> (r: u128)
    requires
        e <= 64,
    ensures
        r == two_to(e as int),
        r <= 0x1_0000_0000_0000_0000,
{
    let mut r: u128 = 1;
    let mut i: u32 = 0;
    proof {
        lemma2_to64();
        lemma2_to64_rest();
    }
    while i < e
        invariant
            i <= e <= 64,
            r == two_to(i as int),
            r <= two_to(64),
            two_to(64) == 0x1_0000_0000_0000_0000,
        decreases e - i,
    {
        proof {
            lemma_pow2_unfold((i + 1) as nat);
            if i + 1 < 64 {
                lemma_pow2_strictly_increases((i + 1) as nat, 64);
            }
        }
        r = r * 2;
        i = i + 1;
    }
    r
}

/// The magnitude closest to `s * 2^x`.
fn round_whole(s: u128, x: i32) -> (m: u64)
    requires
        s < WIDE,
        0 <= x <= 4000,
    ensures
        m == nearest(s * two_to(x as int), 1),
        m <= INF,
{
    let ghost n = s * two_to(x as int);
    proof {
        lemma_pow2_pos(x as nat);
        assert((s + 1) * two_to(x as int) == n + two_to(x as int)) by (nonlinear_arith)
            requires
                n == s * two_to(x as int),
        ;
    }
    let m = round(s, x, false, Ghost(n), Ghost(1));
    proof {
        lemma_nearest(n, 1, m as int);
    }
    m
}

/// Adding what is far below the last digit changes nothing.
proof fn lemma_far(u: int, t: int, small: int)
    requires
        64 < u,
        STEP <= t < 2 * STEP,
        u * STEP + t < INF,
        0 <= small,
        4 * small < two_to(u),
    ensures
        nearest(t * two_to(u) + small, 1) == u * STEP + t,
        nearest(t * two_to(u) - small, 1) == u * STEP + t,
{
    let m = u * STEP + t;
    lemma_gap(u, t);
    lemma_pow2_unfold(u as nat);
    assert((t + 1) * two_to(u) == t * two_to(u) + two_to(u)) by (nonlinear_arith);
    if t > STEP {
        lemma_gap(u, t - 1);
        assert((t - 1) * two_to(u) == t * two_to(u) - two_to(u)) by (nonlinear_arith);
        assert(m - 1 == u * STEP + (t - 1));
    } else {
        lemma_gap(u - 1, 2 * STEP - 1);
        assert(m - 1 == (u - 1) * STEP + (2 * STEP - 1)) by (nonlinear_arith)
            requires
                m == u * STEP + STEP,
        ;
        assert((2 * STEP - 1) * two_to(u - 1) == STEP * two_to(u) - two_to(u - 1)) by (nonlinear_arith)
            requires
                two_to(u) == 2 * two_to(u - 1),
        ;
    }
    assert(m > 0) by (nonlinear_arith)
        requires
            m == u * STEP + t,
            u > 0,
            t > 0,
    ;
    assert(rounds_to(t * two_to(u) + small, 1, m));
    assert(rounds_to(t * two_to(u) - small, 1, m));
    lemma_nearest(t * two_to(u) + small, 1, m);
    lemma_nearest(t * two_to(u) - small, 1, m);
}

impl Binary64 {
    /// The number with the given bits.
    pub fn from_bits(bits: u64) -> (r: Binary64)
        ensures
            r.bits == bits,
    {
        Binary64 { bits }
    }

    pub(crate) fn with_sign(negative: bool, m: u64) -> (r: Binary64)
        requires
            m < SIGN,
        ensures
            r == signed(negative, m as int),
    {
        if negative {
            Binary64 { bits: SIGN + m }
        } else {
            Binary64 { bits: m }
        }
    }

    pub(crate) fn is_negative(&self) -> (r: bool)
        ensures
            r == self.negative(),
    {
        self.bits >= SIGN
    }

    pub(crate) fn magnitude(&self) -> (r: u64)
        ensures
            r == self.mag(),
            r < SIGN,
    {
        if self.bits >= SIGN {
            self.bits - SIGN
        } else {
            self.bits
        }
    }

    pub fn is_nan(&self) -> (r: bool)
        ensures
            r == self.nan(),
    {
        self.magnitude() > INF
    }

    pub fn is_finite(&self) -> (r: bool)
        ensures
            r == self.finite(),
    {
        self.magnitude() < INF
    }

    /// Numeric `<`.
    pub fn lt(&self, other: &Binary64) -> (r: bool)
        ensures
            r == self.below(*other),
    {
        if self.is_nan() || other.is_nan() {
            return false;
        }
        let a = self.magnitude();
        let b = other.magnitude();
        if self.is_negative() {
            if other.is_negative() {
                a > b
            } else {
                a > 0 || b > 0
            }
        } else if other.is_negative() {
            false
        } else {
            a < b
        }
    }

    /// Numeric `<=`.
    pub fn le(&self, other: &Binary64) -> (r: bool)
        ensures
            r == self.at_most(*other),
    {
        !self.is_nan() && !other.is_nan() && !other.lt(self)
    }

    /// Position in the total order of all bit patterns.
    pub fn order_key(&self) -> (r: u64)
        ensures
            r == self.rank(),
    {
        if self.is_negative() {
            0xffff_ffff_ffff_ffff - self.bits
        } else {
            self.bits + SIGN
        }
    }

    pub fn max(&self, other: &Binary64) -> (r: Binary64)
        ensures
            r == self.greater(*other),
    {
        if self.is_nan() || self.lt(other) {
            *other
        } else {
            *self
        }
    }

    pub fn min(&self, other: &Binary64) -> (r: Binary64)
        ensures
            r == self.lesser(*other),
    {
        if self.is_nan() || other.lt(self) {
            *other
        } else {
            *self
        }
    }

    /// Digits and exponent of a magnitude.
    fn digits(&self) -> (r: (u64, i32))
        requires
            self.finite(),
        ensures
            r.0 < 2 * STEP,
            0 <= r.1 <= 2045,
            r.1 > 0 ==> STEP <= r.0,
            self.mag() == r.1 * STEP + r.0,
            scaled(self.mag()) == r.0 * two_to(r.1 as int),
            r.0 == 0 <==> self.zero(),
    {
        let m = self.magnitude();
        let e = m / STEP;
        let f = m % STEP;
        proof {
            let (u, t) = lemma_parts(m as int);
            assert(m == STEP * (m / STEP) + m % STEP);
            lemma2_to64();
            if e == 0 {
                assert(f * two_to(0) == f) by (nonlinear_arith)
                    requires
                        two_to(0) == 1,
                ;
            }
        }
        if e == 0 {
            (f, 0)
        } else {
            assert(m == (e - 1) * STEP + (STEP + f)) by (nonlinear_arith)
                requires
                    m == STEP * e + f,
            ;
            (STEP + f, (e - 1) as i32)
        }
    }

    /// `self + other`, correctly rounded.
    pub fn plus(&self, other: &Binary64) -> (r: Binary64)
        ensures
            r == sum(*self, *other),
    {
        if self.is_nan() || other.is_nan() {
            return Binary64 { bits: QUIET_NAN };
        }
        let na = self.is_negative();
        let nb = other.is_negative();
        if !self.is_finite() {
            if !other.is_finite() && na != nb {
                return Binary64 { bits: QUIET_NAN };
            }
            return *self;
        }
        if !other.is_finite() {
            return *other;
        }
        let (ta, xa) = self.digits();
        let (tb, xb) = other.digits();
        if xa >= xb {
            add_digits(*self, *other, ta, xa, tb, xb)
        } else {
            add_digits(*other, *self, tb, xb, ta, xa)
        }
    }
}

/// The sum of two finite numbers, the one with the greater exponent first.
fn add_digits(a: Binary64, b: Binary64, ta: u64, xa: i32, tb: u64, xb: i32) -> (r: Binary64)
    requires
        a.finite() && b.finite(),
        0 <= xb <= xa <= 2045,
        ta < 2 * STEP && tb < 2 * STEP,
        xa > 0 ==> STEP <= ta,
        a.mag() == xa * STEP + ta,
        scaled(a.mag()) == ta * two_to(xa as int),
        scaled(b.mag()) == tb * two_to(xb as int),
    ensures
        r == sum(a, b),
{
    let na = a.is_negative();
    let nb = b.is_negative();
    let ghost w = two_to(xb as int);
    proof {
        lemma_pow2_pos(xa as nat);
        lemma_pow2_pos(xb as nat);
    }
    if xa - xb > 64 {
        proof {
            let small = scaled(b.mag());
            lemma_pow2_adds(65, xb as nat);
            if xa > xb + 65 {
                lemma_pow2_strictly_increases((65 + xb) as nat, xa as nat);
            }
            lemma2_to64_rest();
            lemma_pow2_unfold(65);
            assert(4 * small < two_to(xa as int)) by (nonlinear_arith)
                requires
                    small == tb * w,
                    tb < 2 * STEP,
                    8 * STEP <= two_to(65),
                    two_to(65) * w <= two_to(xa as int),
                    w > 0,
            ;
            assert(small >= 0) by (nonlinear_arith)
                requires
                    small == tb * w,
                    tb >= 0,
                    w > 0,
            ;
            lemma_far(xa as int, ta as int, small);
            assert(ta * two_to(xa as int) >= two_to(xa as int)) by (nonlinear_arith)
                requires
                    ta >= STEP,
                    two_to(xa as int) > 0,
            ;
        }
        return a;
    }
    let p = power((xa - xb) as u32);
    assert(ta * p <= 0x20_0000_0000_0000 * 0x1_0000_0000_0000_0000) by (nonlinear_arith)
        requires
            ta < 2 * STEP,
            p <= 0x1_0000_0000_0000_0000,
    ;
    let s: u128 = (ta as u128) * p;
    proof {
        lemma_pow2_adds((xa - xb) as nat, xb as nat);
        assert(scaled(a.mag()) == s * w) by (nonlinear_arith)
            requires
                scaled(a.mag()) == ta * two_to(xa as int),
                s == ta * two_to(xa - xb),
                two_to(xa as int) == two_to(xa - xb) * w,
        ;
    }
    if na == nb {
        let t: u128 = s + tb as u128;
        assert(scaled(a.mag()) + scaled(b.mag()) == t * w) by (nonlinear_arith)
            requires
                scaled(a.mag()) == s * w,
                scaled(b.mag()) == tb * w,
                t == s + tb,
        ;
        if t == 0 {
            return Binary64::with_sign(na, 0);
        }
        assert(t * w > 0) by (nonlinear_arith)
            requires
                t > 0,
                w > 0,
        ;
        let m = round_whole(t, xb);
        return Binary64::with_sign(na, m);
    }
    let big: bool = s >= tb as u128;
    let t: u128 = if big {
        s - tb as u128
    } else {
        tb as u128 - s
    };
    assert(t * w == if big {
        scaled(a.mag()) - scaled(b.mag())
    } else {
        scaled(b.mag()) - scaled(a.mag())
    }) by (nonlinear_arith)
        requires
            scaled(a.mag()) == s * w,
            scaled(b.mag()) == tb * w,
            t == if big { s - tb } else { tb - s },
    ;
    if t == 0 {
        return Binary64::with_sign(false, 0);
    }
    assert(t * w > 0) by (nonlinear_arith)
        requires
            t > 0,
            w > 0,
    ;
    let m = round_whole(t, xb);
    Binary64::with_sign(na == big, m)
}

impl Binary64 {
    /// `self - other`, correctly rounded.
    pub fn minus(&self, other: &Binary64) -> (r: Binary64)
        ensures
            r == difference(*self, *other),
    {
        self.plus(&Binary64::with_sign(!other.is_negative(), other.magnitude()))
    }

    /// The number without its sign.
    pub fn abs(&self) -> (r: Binary64)
        ensures
            r == absolute(*self),
    {
        Binary64::with_sign(false, self.magnitude())
    }

    /// `self * other`, correctly rounded.
    pub fn times(&self, other: &Binary64) -> (r: Binary64)
        ensures
            r == product(*self, *other),
    {
        if self.is_nan() || other.is_nan() {
            return Binary64 { bits: QUIET_NAN };
        }
        let negative = self.is_negative() != other.is_negative();
        if !self.is_finite() || !other.is_finite() {
            if self.magnitude() == 0 || other.magnitude() == 0 {
                return Binary64 { bits: QUIET_NAN };
            }
            return Binary64::with_sign(negative, INF);
        }
        let (ta, xa) = self.digits();
        let (tb, xb) = other.digits();
        assert(ta * tb < 0x400_0000_0000_0000_0000_0000_0000) by (nonlinear_arith)
            requires
                ta < 2 * STEP,
                tb < 2 * STEP,
        ;
        let s: u128 = (ta as u128) * (tb as u128);
        let x: i32 = xa + xb - 1074;
        let ghost n = scaled(self.mag()) * scaled(other.mag());
        proof {
            let up = up_weight(x as int);
            let down = down_weight(x as int);
            lemma_weights(x as int, 1074);
            lemma_pow2_adds(xa as nat, xb as nat);
            lemma_pow2_pos(1074);
            assert(n * down == s * (up * unit())) by (nonlinear_arith)
                requires
                    n == (ta * two_to(xa as int)) * (tb * two_to(xb as int)),
                    s == ta * tb,
                    two_to(xa + xb) == two_to(xa as int) * two_to(xb as int),
                    unit() * up == two_to(xa + xb) * down,
            ;
            assert((s + 1) * (up * unit()) > s * (up * unit())) by (nonlinear_arith)
                requires
                    up > 0,
                    unit() > 0,
            ;
        }
        let m = round(s, x, false, Ghost(n), Ghost(unit()));
        proof {
            lemma_nearest(n, unit(), m as int);
        }
        Binary64::with_sign(negative, m)
    }

    /// `self / other`, correctly rounded.
    pub fn over(&self, other: &Binary64) -> (r: Binary64)
        ensures
            r == quotient(*self, *other),
    {
        if self.is_nan() || other.is_nan() {
            return Binary64 { bits: QUIET_NAN };
        }
        let negative = self.is_negative() != other.is_negative();
        if !self.is_finite() {
            if !other.is_finite() {
                return Binary64 { bits: QUIET_NAN };
            }
            return Binary64::with_sign(negative, INF);
        }
        if !other.is_finite() {
            return Binary64::with_sign(negative, 0);
        }
        let (ta, xa) = self.digits();
        let (tb, xb) = other.digits();
        if tb == 0 {
            if ta == 0 {
                return Binary64 { bits: QUIET_NAN };
            }
            return Binary64::with_sign(negative, INF);
        }
        let m = divide(ta, xa, tb, xb);
        Binary64::with_sign(negative, m)
    }

    /// The number closest to `n`.
    pub fn from_u64(n: u64) -> (r: Binary64)
        ensures
            r == whole(n as int),
    {
        let m = round_whole(n as u128, 1074);
        Binary64::with_sign(false, m)
    }

    /// The integer part, held within `0..=max`.
    pub fn to_integer(&self, max: u64) -> (r: u64)
        ensures
            r == integer_part(*self, max as int),
    {
        if self.is_nan() || self.is_negative() {
            return 0;
        }
        if !self.is_finite() {
            return max;
        }
        let (t, x) = self.digits();
        let ghost v = scaled(self.mag());
        proof {
            lemma_pow2_pos(1074);
            lemma2_to64();
            lemma2_to64_rest();
        }
        if x >= 1074 {
            proof {
                lemma_pow2_adds((x - 1074) as nat, 1074);
                assert(v == (t * two_to(x - 1074)) * unit()) by (nonlinear_arith)
                    requires
                        v == t * two_to(x as int),
                        two_to(x as int) == two_to(x - 1074) * unit(),
                ;
                vstd::arithmetic::div_mod::lemma_div_by_multiple(t * two_to(x - 1074), unit());
            }
            if x >= 1074 + 12 {
                proof {
                    if x > 1074 + 12 {
                        lemma_pow2_strictly_increases(12, (x - 1074) as nat);
                    }
                    assert(t * two_to(x - 1074) >= 0x1_0000_0000_0000_0000) by (nonlinear_arith)
                        requires
                            t >= STEP,
                            two_to(x - 1074) >= 4096,
                    ;
                }
                return max;
            }
            let p = power((x - 1074) as u32);
            proof {
                if x < 1074 + 12 {
                    lemma_pow2_strictly_increases((x - 1074) as nat, 12);
                }
                assert(t * p < 0x4000_0000_0000_0000_0000) by (nonlinear_arith)
                    requires
                        t < 2 * STEP,
                        p <= 4096,
                ;
            }
            let w: u128 = (t as u128) * p;
            if w > max as u128 {
                max
            } else {
                w as u64
            }
        } else {
            proof {
                lemma_pow2_adds(x as nat, (1074 - x) as nat);
                lemma_pow2_pos(x as nat);
                lemma_pow2_pos((1074 - x) as nat);
                vstd::arithmetic::div_mod::lemma_div_denominator(
                    v,
                    two_to(x as int),
                    two_to(1074 - x),
                );
                assert(v == t * two_to(x as int));
                vstd::arithmetic::div_mod::lemma_div_by_multiple(t as int, two_to(x as int));
                assert(v / unit() == t as int / two_to(1074 - x));
            }
            if x <= 1074 - 53 {
                proof {
                    if x < 1074 - 53 {
                        lemma_pow2_strictly_increases(53, (1074 - x) as nat);
                    }
                    vstd::arithmetic::div_mod::lemma_basic_div(t as int, two_to(1074 - x));
                }
                return 0;
            }
            let p = power((1074 - x) as u32);
            let w: u128 = (t as u128) / p;
            proof {
                assert(w == t as int / two_to(1074 - x));
                vstd::arithmetic::div_mod::lemma_div_nonincreasing(t as int, two_to(1074 - x));
            }
            if w > max as u128 {
                max
            } else {
                w as u64
            }
        }
    }
}

/// The magnitude of a quotient, from digits and exponents.
fn divide(ta: u64, xa: i32, tb: u64, xb: i32) -> (m: u64)
    requires
        0 <= xa <= 2045 && 0 <= xb <= 2045,
        ta < 2 * STEP && 0 < tb < 2 * STEP,
        xa > 0 ==> STEP <= ta,
    ensures
        m == nearest((ta * two_to(xa as int)) * unit(), tb * two_to(xb as int)),
        m <= INF,
{
    let ghost n = (ta * two_to(xa as int)) * unit();
    let ghost d = tb * two_to(xb as int);
    proof {
        lemma2_to64();
        lemma2_to64_rest();
        lemma_pow2_pos(xb as nat);
        assert(d > 0) by (nonlinear_arith)
            requires
                d == tb * two_to(xb as int),
                tb > 0,
                two_to(xb as int) > 0,
        ;
    }
    if ta == 0 {
        assert(n == 0) by (nonlinear_arith)
            requires
                n == (0 * two_to(xa as int)) * unit(),
        ;
        assert(0 * (1 * d) == 0 && (0 + 1) * (1 * d) == d) by (nonlinear_arith);
        let m = round(0, 0, false, Ghost(n), Ghost(d));
        proof {
            lemma_nearest(n, d, m as int);
        }
        return m;
    }
    let mut t: u64 = ta;
    let mut j: i32 = 0;
    assert(ta * two_to(0) == ta) by (nonlinear_arith)
        requires
            two_to(0) == 1,
    ;
    while t < STEP
        invariant
            0 < t < 2 * STEP,
            ta > 0,
            t == ta * two_to(j as int),
            0 <= j,
            j > 0 ==> two_to(j as int) <= t,
            j <= 53,
        decreases 2 * STEP - t,
    {
        proof {
            lemma_pow2_unfold((j + 1) as nat);
            lemma_pow2_pos(j as nat);
            assert(t * 2 == ta * two_to(j + 1)) by (nonlinear_arith)
                requires
                    t == ta * two_to(j as int),
                    two_to(j + 1) == 2 * two_to(j as int),
            ;
            assert(two_to(j as int) <= t) by (nonlinear_arith)
                requires
                    t == ta * two_to(j as int),
                    ta >= 1,
                    two_to(j as int) > 0,
            ;
            lemma2_to64();
            lemma2_to64_rest();
            if j >= 53 {
                assert(two_to(53) == 2 * STEP);
                if j > 53 {
                    lemma_pow2_strictly_increases(53, j as nat);
                }
            }
        }
        t = t * 2;
        j = j + 1;
    }
    let top: u128 = (t as u128) * 0x1_0000_0000_0000_0000;
    let s: u128 = top / (tb as u128);
    let left: u128 = top % (tb as u128);
    let x: i32 = xa - xb + 1074 - 64 - j;
    proof {
        let up = up_weight(x as int);
        let down = down_weight(x as int);
        let w = two_to(xb as int) * up;
        let k = 64 + j + xb;
        lemma_weights(x as int, k as int);
        lemma_pow2_adds(64, j as nat);
        lemma_pow2_adds((64 + j) as nat, xb as nat);
        lemma_pow2_adds(xa as nat, 1074);
        assert(n * down == top * w) by (nonlinear_arith)
            requires
                n == (ta * two_to(xa as int)) * unit(),
                two_to(xa + 1074) == two_to(xa as int) * unit(),
                two_to(k as int) * up == two_to(xa + 1074) * down,
                two_to(k as int) == two_to(64 + j) * two_to(xb as int),
                two_to(64 + j) == two_to(64) * two_to(j as int),
                two_to(64) == 0x1_0000_0000_0000_0000,
                w == two_to(xb as int) * up,
                t == ta * two_to(j as int),
                top == t * 0x1_0000_0000_0000_0000,
        ;
        assert(up * d == tb * w) by (nonlinear_arith)
            requires
                d == tb * two_to(xb as int),
                w == two_to(xb as int) * up,
        ;
        assert(w > 0) by (nonlinear_arith)
            requires
                w == two_to(xb as int) * up,
                two_to(xb as int) > 0,
                up > 0,
        ;
        vstd::arithmetic::div_mod::lemma_fundamental_div_mod(top as int, tb as int);
        assert(top == tb * s + left);
        assert(s * (tb * w) <= top * w < (s + 1) * (tb * w)) by (nonlinear_arith)
            requires
                top == tb * s + left,
                0 <= left < tb,
                w > 0,
        ;
        assert(top * w == s * (tb * w) <==> left == 0) by (nonlinear_arith)
            requires
                top == tb * s + left,
                0 <= left < tb,
                w > 0,
        ;
        assert(s >= 2 * STEP) by (nonlinear_arith)
            requires
                top == tb * s + left,
                left < tb,
                tb < 2 * STEP,
                top >= STEP * 0x1_0000_0000_0000_0000,
                s >= 0,
        ;
        assert(s <= top) by (nonlinear_arith)
            requires
                top == tb * s + left,
                left >= 0,
                tb >= 1,
                s >= 0,
        ;
    }
    let m = round(s, x, left != 0, Ghost(n), Ghost(d));
    proof {
        lemma_nearest(n, d, m as int);
    }
    m
}

// ---------------------------------------------------------------------------
// What holds of whole numbers

/// A common factor does not change the number closest to a ratio.
pub proof fn common_factor_cancels(n: int, d: int, k: int)
    requires
        0 <= n,
        d > 0,
        k > 0,
    ensures
        nearest(n * k, d * k) == nearest(n, d),
{
    let m = nearest(n, d);
    nearest_exists(n, d);
    assert(d * k > 0 && n * k >= 0) by (nonlinear_arith)
        requires
            n >= 0,
            d > 0,
            k > 0,
    ;
    let lo = scaled(m - 1) + scaled(m);
    let hi = scaled(m) + scaled(m + 1);
    assert((2 * n > lo * d ==> 2 * (n * k) > lo * (d * k)) && (2 * n == lo * d ==> 2 * (n * k) == lo
        * (d * k)) && (2 * n < hi * d ==> 2 * (n * k) < hi * (d * k)) && (2 * n == hi * d ==> 2 * (n
        * k) == hi * (d * k))) by {
        assert(lo * (d * k) == (lo * d) * k && hi * (d * k) == (hi * d) * k && 2 * (n * k) == (2 * n)
            * k) by (nonlinear_arith);
        assert(forall|x: int, y: int| x < y ==> #[trigger] (x * k) < #[trigger] (y * k))
            by (nonlinear_arith)
            requires
                k > 0,
        ;
    }
    assert(rounds_to(n * k, d * k, m));
    lemma_nearest(n * k, d * k, m);
}

/// The number closest to `n / d`.
pub open spec fn closest(n: int, d: int) -> Binary64 {
    signed(false, nearest(n * unit(), d))
}

/// A sum of natural numbers is their sum.
pub proof fn sum_of_wholes(a: int, b: int)
    requires
        0 <= a,
        0 <= b,
        a + b <= 2 * STEP,
    ensures
        sum(whole(a), whole(b)) == whole(a + b),
{
    whole_is_exact(a);
    whole_is_exact(b);
    lemma_pow2_pos(1074);
    assert(a * unit() + b * unit() == (a + b) * unit()) by (nonlinear_arith);
    if (a + b) * unit() == 0 {
        assert(a + b == 0) by (nonlinear_arith)
            requires
                (a + b) * unit() == 0,
                unit() > 0,
        ;
        whole_of_nothing();
    }
    assert((a + b) * unit() >= 0) by (nonlinear_arith)
        requires
            a + b >= 0,
            unit() > 0,
    ;
}

/// The natural number zero is zero.
pub proof fn whole_of_nothing()
    ensures
        whole(0) == zero(),
{
    exact_is_nearest(0);
    assert(scaled(0) == 0 && 0 * unit() == 0);
}

/// A product of natural numbers is the number closest to their product.
pub proof fn product_of_wholes(a: int, b: int)
    requires
        0 <= a <= 2 * STEP,
        0 <= b <= 2 * STEP,
    ensures
        product(whole(a), whole(b)) == whole(a * b),
{
    whole_is_exact(a);
    whole_is_exact(b);
    lemma_pow2_pos(1074);
    let u = unit();
    assert((a * u) * (b * u) == ((a * b) * u) * u) by (nonlinear_arith);
    assert((a * b) * u >= 0) by (nonlinear_arith)
        requires
            a >= 0,
            b >= 0,
            u > 0,
    ;
    common_factor_cancels((a * b) * u, 1, u);
    assert(1 * u == u);
}

/// A quotient of natural numbers is the number closest to their ratio.
pub proof fn quotient_of_wholes(a: int, b: int)
    requires
        0 <= a <= 2 * STEP,
        0 < b <= 2 * STEP,
    ensures
        quotient(whole(a), whole(b)) == closest(a, b),
{
    whole_is_exact(a);
    whole_is_exact(b);
    lemma_pow2_pos(1074);
    let u = unit();
    assert(b * u > 0 && a * u >= 0) by (nonlinear_arith)
        requires
            a >= 0,
            b > 0,
            u > 0,
    ;
    assert(scaled(0) == 0);
    common_factor_cancels(a * u, b, u);
}

/// A natural number is closest to itself and to every ratio that equals it.
pub proof fn closest_to_multiple(a: int, b: int)
    requires
        0 <= a,
        b > 0,
    ensures
        closest(a * b, b) == whole(a),
{
    lemma_pow2_pos(1074);
    let u = unit();
    assert((a * b) * u == (a * u) * b && a * u >= 0) by (nonlinear_arith)
        requires
            a >= 0,
            u > 0,
    ;
    common_factor_cancels(a * u, 1, b);
    assert(1 * b == b);
}

/// A multiple of a natural number that is divided by it is the other factor.
pub proof fn quotient_of_multiple(a: int, b: int)
    requires
        0 <= a,
        0 < b <= 2 * STEP,
        a * b <= 2 * STEP,
    ensures
        quotient(whole(a * b), whole(b)) == whole(a),
{
    assert(a * b >= 0) by (nonlinear_arith)
        requires
            a >= 0,
            b > 0,
    ;
    quotient_of_wholes(a * b, b);
    closest_to_multiple(a, b);
}

/// The greater of two numbers is one of them and not below either.
pub proof fn greater_is_greatest(a: Binary64, b: Binary64)
    requires
        !a.nan(),
        !b.nan(),
    ensures
        a.at_most(a.greater(b)),
        b.at_most(a.greater(b)),
        a.greater(b) == a || a.greater(b) == b,
{
}

/// The lesser of two numbers is one of them and not above either.
pub proof fn lesser_is_least(a: Binary64, b: Binary64)
    requires
        !a.nan(),
        !b.nan(),
    ensures
        a.lesser(b).at_most(a),
        a.lesser(b).at_most(b),
        a.lesser(b) == a || a.lesser(b) == b,
{
}

/// Zero divided by what is above zero is zero.
pub proof fn nothing_per_second(elapsed_s: Binary64)
    requires
        zero().below(elapsed_s),
    ensures
        quotient(whole(0), elapsed_s) == zero(),
{
    whole_of_nothing();
    if !elapsed_s.infinite() {
        let d = scaled(elapsed_s.mag());
        lemma_scaled_natural(elapsed_s.mag());
        assert(scaled(0) == 0 && 0 * unit() == 0);
        assert(rounds_to(0, d, 0)) by {
            lemma_scaled_natural(1);
            assert((scaled(0) + scaled(1)) * d > 0) by (nonlinear_arith)
                requires
                    scaled(0) + scaled(1) > 0,
                    d > 0,
            ;
        }
        lemma_nearest(0, d, 0);
    }
}

/// Whether a number is one of the list and not below any of it.
pub open spec fn greatest_of(x: Binary64, s: Seq<Binary64>) -> bool {
    &&& s.contains(x)
    &&& forall|i: int| 0 <= i < s.len() ==> (#[trigger] s[i]).at_most(x)
}

/// The greater of the greatest and one more number is the greatest of all.
pub proof fn greatest_goes_on(x: Binary64, s: Seq<Binary64>, y: Binary64)
    requires
        greatest_of(x, s),
        !y.nan(),
    ensures
        greatest_of(x.greater(y), s.push(y)),
{
    let t = s.push(y);
    let k = choose|k: int| 0 <= k < s.len() && s[k] == x;
    assert(x.at_most(x)) by {
        assert(s[k].at_most(x));
    }
    greater_is_greatest(x, y);
    assert(t[k] == x);
    assert(t[s.len() as int] == y);
    assert forall|i: int| 0 <= i < t.len() implies (#[trigger] t[i]).at_most(x.greater(y)) by {
        if i < s.len() {
            assert(s[i].at_most(x));
        }
    }
}

/// The sum of a list of integers.
pub open spec fn total_of(ns: Seq<int>) -> int
    decreases ns.len(),
{
    if ns.len() == 0 {
        0
    } else {
        total_of(ns.drop_last()) + ns.last()
    }
}

/// The sum of natural numbers is no less than that of all but the last.
pub proof fn lemma_total_grows(ns: Seq<int>)
    requires
        forall|i: int| 0 <= i < ns.len() ==> 0 <= #[trigger] ns[i],
    ensures
        0 <= total_of(ns),
        ns.len() > 0 ==> total_of(ns.drop_last()) <= total_of(ns),
    decreases ns.len(),
{
    if ns.len() > 0 {
        let h = ns.drop_last();
        assert forall|i: int| 0 <= i < h.len() implies 0 <= #[trigger] h[i] by {
            assert(ns[i] >= 0);
        }
        lemma_total_grows(h);
        assert(ns[ns.len() - 1] >= 0);
    }
}

/// The number with these bits is 2^-52.
pub proof fn lemma_gap_of_one()
    ensures
        scaled(0x3cb0_0000_0000_0000) == two_to(1022),
        4 * two_to(1022) < unit(),
{
    lemma_pow2_adds(52, 970);
    lemma2_to64();
    lemma2_to64_rest();
    assert(0x3cb0_0000_0000_0000int / (STEP as int) == 971);
    assert(0x3cb0_0000_0000_0000int % (STEP as int) == 0);
    assert(STEP == pow2(52));
    lemma_pow2_adds(52, 1022);
    lemma_pow2_pos(1022);
    assert(4 * two_to(1022) < pow2(52) * two_to(1022)) by (nonlinear_arith)
        requires
            pow2(52) > 4,
            two_to(1022) > 0,
    ;
}

/// Half of a natural number is held exactly.
pub proof fn half_is_exact(n: int)
    requires
        0 <= n <= 2 * STEP,
    ensures
        closest(n, 2).finite(),
        !closest(n, 2).negative(),
        2 * scaled(closest(n, 2).mag()) == n * unit(),
{
    lemma_pow2_unfold(1074);
    lemma_pow2_pos(1073);
    let m = if n == 0 {
        0
    } else {
        lemma_normal(n, 1073)
    };
    assert(scaled(0) == 0);
    assert(scaled(m) == n * two_to(1073)) by (nonlinear_arith)
        requires
            n == 0 ==> scaled(m) == 0,
            n > 0 ==> scaled(m) == n * two_to(1073),
            n >= 0,
    ;
    assert(n * unit() == scaled(m) * 2) by (nonlinear_arith)
        requires
            unit() == 2 * two_to(1073),
            scaled(m) == n * two_to(1073),
    ;
    lemma_scaled_natural(m);
    common_factor_cancels(scaled(m), 1, 2);
    exact_is_nearest(m);
}

/// A number divided by one is itself.
pub proof fn quotient_by_one(x: Binary64)
    requires
        x.finite(),
        !x.negative(),
    ensures
        quotient(x, whole(1)) == x,
{
    whole_is_exact(1);
    lemma_pow2_pos(1074);
    lemma_scaled_natural(x.mag());
    assert(1 * unit() == unit());
    assert(scaled(0) == 0);
    common_factor_cancels(scaled(x.mag()), 1, unit());
    exact_is_nearest(x.mag());
}

/// The product of a number that is half a natural number and an even one.
pub proof fn product_of_half(x: Binary64, n: int, k: int)
    requires
        x.finite(),
        !x.negative(),
        0 <= n,
        2 * scaled(x.mag()) == n * unit(),
        0 <= 2 * k <= 2 * STEP,
    ensures
        product(x, whole(2 * k)) == whole(n * k),
{
    whole_is_exact(2 * k);
    lemma_pow2_pos(1074);
    let u = unit();
    let s = scaled(x.mag());
    assert(s * ((2 * k) * u) == ((n * k) * u) * u && (n * k) * u >= 0) by (nonlinear_arith)
        requires
            2 * s == n * u,
            n >= 0,
            k >= 0,
            u > 0,
    ;
    common_factor_cancels((n * k) * u, 1, u);
    assert(1 * u == u);
}

/// The distance of two natural numbers is their difference.
pub proof fn distance_of_wholes(a: int, b: int)
    requires
        0 <= a <= 2 * STEP,
        0 <= b <= 2 * STEP,
    ensures
        absolute(difference(whole(a), whole(b))) == whole(
            if a < b {
                b - a
            } else {
                a - b
            },
        ),
{
    whole_is_exact(a);
    whole_is_exact(b);
    lemma_pow2_pos(1074);
    let u = unit();
    let x = whole(a);
    let y = negated(whole(b));
    assert(y.mag() == whole(b).mag() && y.negative());
    assert(a * u - b * u == (a - b) * u && -(a * u - b * u) == (b - a) * u) by (nonlinear_arith);
    whole_of_nothing();
    let d = if a < b {
        b - a
    } else {
        a - b
    };
    whole_is_exact(d);
    assert(d * u >= 0) by (nonlinear_arith)
        requires
            d >= 0,
            u > 0,
    ;
    nearest_exists(d * u, 1);
    let s = x.value() + y.value();
    assert(s == (a - b) * u);
    assert((a - b) * u < 0 <==> a < b) by (nonlinear_arith)
        requires
            u > 0,
    ;
    assert((a - b) * u == 0 <==> a == b) by (nonlinear_arith)
        requires
            u > 0,
    ;
}

/// Two natural numbers whose ratio is below one are apart from one.
pub proof fn part_of_one(n: int)
    requires
        1 < n <= 2 * STEP,
    ensures
        quotient(whole(1), whole(n)).below(whole(1)),
        zero().below(quotient(whole(1), whole(n))),
{
    quotient_of_wholes(1, n);
    whole_is_exact(1);
    whole_is_exact(n);
    lemma_pow2_pos(1074);
    lemma_pow2_pos(1020);
    let u = unit();
    let m = nearest(1 * u, n);
    let one = whole(1).mag();
    assert(1 * u == u);
    nearest_exists(u, n);
    assert(scaled(0) == 0);
    lemma_scaled_order(0, one);
    // at one or above the ratio would be at least three quarters
    if m >= one {
        lemma_scaled_order(one, m);
        lemma_scaled_natural(m - 1);
        lemma_pow2_unfold(1074);
        let half = two_to(1073);
        // the number before one is no less than a half
        lemma_half_before_one();
        lemma_scaled_order(one - 1, m - 1);
        assert((scaled(m - 1) + scaled(m)) * n >= (half + u) * n) by (nonlinear_arith)
            requires
                scaled(m - 1) >= half,
                scaled(m) >= u,
                n > 0,
        ;
        assert((half + u) * n > 2 * u) by (nonlinear_arith)
            requires
                u == 2 * half,
                half > 0,
                n >= 2,
        ;
    }
    if m == 0 {
        // zero would need a ratio below half of the least number
        assert(scaled(1) == 1);
        assert((scaled(0) + scaled(1)) * n == n) by (nonlinear_arith)
            requires
                scaled(0) + scaled(1) == 1,
        ;
        assert(n <= 2 * STEP);
        lemma_unit_is_large();
    }
}

proof fn lemma_unit_is_large()
    ensures
        unit() > 2 * STEP,
{
    lemma2_to64();
    lemma2_to64_rest();
    lemma_pow2_strictly_increases(53, 1074);
    assert(pow2(53) == 2 * STEP);
}

proof fn lemma_half_before_one()
    ensures
        scaled(whole(1).mag() - 1) >= two_to(1073),
        whole(1).mag() > 0,
{
    whole_is_exact(1);
    half_is_exact(1);
    lemma_pow2_unfold(1074);
    lemma_pow2_pos(1073);
    let h = closest(1, 2).mag();
    let one = whole(1).mag();
    assert(1 * unit() == unit());
    assert(scaled(0) == 0);
    lemma_scaled_order(one, h);
    lemma_scaled_order(h, one);
    lemma_scaled_order(h, one - 1);
}

} // verus!
