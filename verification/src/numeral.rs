//! Numbers between text and binary64: the nearest number to a numeral, and a
//! number with a fixed count of decimals.

use vstd::arithmetic::power2::*;
use vstd::prelude::*;
use vstd::slice::slice_subrange;

use crate::binary64::{
    down_weight, nearest, round, rounds_to, scaled, signed, two_to, unit, up_weight, whole, Binary64,
    INF, QUIET_NAN, STEP,
};
use crate::text::{
    chars_of, decimal, digit, digit_of, digits_only, is_digit, lemma_decimal, number, push_decimal,
    same_text,
};

verus! {

/// Ten to the power of `n`.
pub open spec fn ten_to(n: int) -> int
    decreases n,
{
    if n <= 0 {
        1
    } else {
        10 * ten_to(n - 1)
    }
}

pub proof fn lemma_ten_pos(n: int)
    ensures
        ten_to(n) >= 1,
    decreases n,
{
    if n > 0 {
        lemma_ten_pos(n - 1);
    }
}

pub proof fn lemma_ten_adds(a: int, b: int)
    requires
        0 <= a,
        0 <= b,
    ensures
        ten_to(a + b) == ten_to(a) * ten_to(b),
    decreases a,
{
    if a > 0 {
        lemma_ten_adds(a - 1, b);
        assert(10 * (ten_to(a - 1) * ten_to(b)) == (10 * ten_to(a - 1)) * ten_to(b))
            by (nonlinear_arith);
    }
}

/// Ten is more than eight.
proof fn lemma_ten_and_two(n: int)
    requires
        0 <= n,
    ensures
        ten_to(n) >= two_to(3 * n),
    decreases n,
{
    lemma2_to64();
    if n > 0 {
        lemma_ten_and_two(n - 1);
        lemma_pow2_adds(3, (3 * (n - 1)) as nat);
        assert(two_to(3 * n) == 8 * two_to(3 * (n - 1)));
        lemma_pow2_pos((3 * (n - 1)) as nat);
    }
}

// ---------------------------------------------------------------------------
// Numbers of any size, as decimal digits with the last one first

/// The digit of weight `10^i`.
spec fn at(v: Seq<u8>, i: int) -> int {
    if 0 <= i < v.len() {
        v[i] as int
    } else {
        0
    }
}

/// What the `n` lowest digits stand for.
spec fn low(v: Seq<u8>, n: int) -> int
    decreases n,
{
    if n <= 0 {
        0
    } else {
        low(v, n - 1) + at(v, n - 1) * ten_to(n - 1)
    }
}

/// What the digits stand for.
spec fn big(v: Seq<u8>) -> int {
    low(v, v.len() as int)
}

spec fn is_big(v: Seq<u8>) -> bool {
    forall|i: int| 0 <= i < v.len() ==> #[trigger] v[i] < 10
}

proof fn lemma_low_beyond(v: Seq<u8>, n: int)
    requires
        v.len() <= n,
    ensures
        low(v, n) == big(v),
    decreases n,
{
    if n > v.len() {
        lemma_low_beyond(v, n - 1);
    }
}

proof fn lemma_low_bound(v: Seq<u8>, n: int)
    requires
        is_big(v),
        0 <= n,
    ensures
        0 <= low(v, n) < ten_to(n),
    decreases n,
{
    if n > 0 {
        lemma_low_bound(v, n - 1);
        lemma_ten_pos(n - 1);
        let c = at(v, n - 1);
        let t = ten_to(n - 1);
        assert(0 <= c * t <= 9 * t) by (nonlinear_arith)
            requires
                0 <= c <= 9,
                t >= 1,
        ;
    }
}

proof fn lemma_low_agrees(v: Seq<u8>, w: Seq<u8>, n: int)
    requires
        forall|i: int| 0 <= i < n ==> at(v, i) == at(w, i),
    ensures
        low(v, n) == low(w, n),
    decreases n,
{
    if n > 0 {
        assert(at(v, n - 1) == at(w, n - 1));
        lemma_low_agrees(v, w, n - 1);
    }
}

/// The lowest digit, and the digits above it.
proof fn lemma_low_split(v: Seq<u8>, n: int)
    requires
        0 < n <= v.len(),
    ensures
        low(v, n) == v[0] + 10 * low(v.drop_first(), n - 1),
    decreases n,
{
    if n > 1 {
        lemma_low_split(v, n - 1);
        let c = at(v, n - 1);
        assert(at(v.drop_first(), n - 2) == c);
        assert(c * (10 * ten_to(n - 2)) == 10 * (c * ten_to(n - 2))) by (nonlinear_arith);
    } else {
        assert(low(v, 0) == 0);
        assert(low(v.drop_first(), 0) == 0);
        assert(ten_to(0) == 1);
    }
}

/// Zeros put below the digits.
proof fn lemma_shift(v: Seq<u8>, n: int)
    requires
        0 <= n,
    ensures
        big(Seq::new(n as nat, |i: int| 0u8) + v) == ten_to(n) * big(v),
    decreases n,
{
    let z = Seq::new(n as nat, |i: int| 0u8) + v;
    if n == 0 {
        assert(z =~= v);
    } else {
        lemma_shift(v, n - 1);
        let y = Seq::new((n - 1) as nat, |i: int| 0u8) + v;
        assert(z.drop_first() =~= y);
        lemma_low_split(z, z.len() as int);
        assert(10 * (ten_to(n - 1) * big(v)) == (10 * ten_to(n - 1)) * big(v)) by (nonlinear_arith);
    }
}

/// Twice the number.
fn double(v: &mut Vec<u8>)
    requires
        is_big(old(v)@),
    ensures
        is_big(final(v)@),
        big(final(v)@) == 2 * big(old(v)@),
{
    let ghost before = v@;
    let mut carry: u8 = 0;
    let n = v.len();
    for i in 0..n
        invariant
            n == v@.len(),
            n == before.len(),
            is_big(before),
            is_big(v@),
            carry <= 1,
            forall|j: int| i <= j < n ==> v@[j] == before[j],
            low(v@, i as int) + carry * ten_to(i as int) == 2 * low(before, i as int),
    {
        let x: u8 = 2 * v[i] + carry;
        let ghost old_v = v@;
        let ghost old_carry = carry as int;
        v.set(i, x % 10);
        carry = x / 10;
        proof {
            lemma_low_agrees(old_v, v@, i as int);
            let t = ten_to(i as int);
            assert((x % 10) * t + (x / 10) * (10 * t) == 2 * (before[i as int] * t) + old_carry * t)
                by (nonlinear_arith)
                requires
                    (x % 10) + 10 * (x / 10) == x,
                    x == 2 * before[i as int] + old_carry,
            ;
            assert(carry * (10 * t) == carry * ten_to(i + 1));
        }
    }
    if carry > 0 {
        let ghost mid = v@;
        v.push(carry);
        proof {
            lemma_low_agrees(mid, v@, n as int);
        }
    }
}

/// The difference, where the first number is at least the second.
fn subtract(a: &Vec<u8>, b: &Vec<u8>) -> (r: Option<Vec<u8>>)
    requires
        is_big(a@),
        is_big(b@),
    ensures
        match r {
            Some(d) => {
                &&& is_big(d@)
                &&& big(d@) == big(a@) - big(b@)
                &&& big(a@) >= big(b@)
            },
            None => big(a@) < big(b@),
        },
{
    let n: usize = if a.len() >= b.len() {
        a.len()
    } else {
        b.len()
    };
    let mut out: Vec<u8> = Vec::new();
    let mut borrow: u8 = 0;
    for i in 0..n
        invariant
            n >= a@.len(),
            n >= b@.len(),
            is_big(a@),
            is_big(b@),
            is_big(out@),
            out@.len() == i,
            borrow <= 1,
            low(out@, i as int) == low(a@, i as int) - low(b@, i as int) + borrow * ten_to(i as int),
    {
        let p: u8 = if i < a.len() {
            a[i]
        } else {
            0
        };
        let q: u8 = if i < b.len() {
            b[i]
        } else {
            0
        };
        let x: u8 = 10 + p - q - borrow;
        let ghost old_out = out@;
        let ghost old_borrow = borrow as int;
        out.push(x % 10);
        borrow = if x < 10 {
            1
        } else {
            0
        };
        proof {
            lemma_low_agrees(old_out, out@, i as int);
            let t = ten_to(i as int);
            assert(x % 10 == p - q - old_borrow + 10 * borrow);
            assert((x % 10) * t == p * t - q * t - old_borrow * t + borrow * (10 * t))
                by (nonlinear_arith)
                requires
                    x % 10 == p - q - old_borrow + 10 * borrow,
            ;
            assert(borrow * (10 * t) == borrow * ten_to(i + 1));
        }
    }
    proof {
        lemma_low_beyond(a@, n as int);
        lemma_low_beyond(b@, n as int);
        lemma_low_bound(out@, n as int);
    }
    if borrow == 0 {
        Some(out)
    } else {
        None
    }
}

fn all_zero(v: &Vec<u8>) -> (r: bool)
    requires
        is_big(v@),
    ensures
        r == (big(v@) == 0),
{
    for i in 0..v.len()
        invariant
            is_big(v@),
            low(v@, i as int) == 0,
    {
        if v[i] != 0 {
            proof {
                lemma_ten_pos(i as int);
                assert(v@[i as int] * ten_to(i as int) >= 1) by (nonlinear_arith)
                    requires
                        v@[i as int] >= 1,
                        ten_to(i as int) >= 1,
                ;
                lemma_low_rises(v@, i as int + 1, v@.len() as int);
            }
            return false;
        }
        assert(0 * ten_to(i as int) == 0);
    }
    true
}

proof fn lemma_low_rises(v: Seq<u8>, a: int, b: int)
    requires
        0 <= a <= b,
    ensures
        low(v, a) <= low(v, b),
    decreases b - a,
{
    if a < b {
        lemma_low_rises(v, a, b - 1);
        lemma_ten_pos(b - 1);
        assert(at(v, b - 1) * ten_to(b - 1) >= 0) by (nonlinear_arith)
            requires
                at(v, b - 1) >= 0,
                ten_to(b - 1) >= 1,
        ;
    }
}

// ---------------------------------------------------------------------------
// The nearest number to a ratio

/// A ratio of `2^1100` or more is beyond all finite numbers.
proof fn lemma_huge(n: int, d: int)
    requires
        d > 0,
        n >= two_to(1100) * d,
    ensures
        rounds_to(n * unit(), d, INF as int),
{
    lemma2_to64();
    lemma_pow2_adds(1100, 1074);
    lemma_pow2_adds(53, 2046);
    lemma_pow2_strictly_increases(2099, 2174);
    lemma2_to64_rest();
    assert(INF == 2047 * STEP && STEP == two_to(52));
    lemma_pow2_unfold(53);
    assert(scaled(INF as int) == (STEP + 0) * two_to(2046)) by {
        assert(INF as int / STEP as int == 2047 && INF as int % STEP as int == 0);
    }
    let below = INF - 1;
    assert(below / STEP as int == 2046 && below % STEP as int == STEP - 1);
    assert(scaled(below) == (STEP + (STEP - 1)) * two_to(2045));
    lemma_pow2_unfold(2046);
    lemma_pow2_pos(2045);
    lemma_pow2_pos(1074);
    let top = scaled(INF as int) + scaled(below);
    assert(top <= two_to(2099)) by (nonlinear_arith)
        requires
            top == STEP * two_to(2046) + (2 * STEP - 1) * two_to(2045),
            two_to(2046) == 2 * two_to(2045),
            two_to(2045) > 0,
            two_to(2099) == two_to(53) * two_to(2046),
            two_to(53) == 2 * STEP,
    ;
    assert(2 * (n * unit()) > top * d) by (nonlinear_arith)
        requires
            n >= two_to(1100) * d,
            unit() == two_to(1074),
            two_to(2174) == two_to(1100) * two_to(1074),
            two_to(2174) > two_to(2099),
            two_to(1074) > 0,
            top <= two_to(2099),
            top > 0,
            d > 0,
    ;
}

/// A ratio of less than `2^-1200` is closest to zero.
proof fn lemma_tiny(n: int, d: int)
    requires
        0 <= n,
        n * two_to(1200) < d,
    ensures
        rounds_to(n * unit(), d, 0),
{
    lemma2_to64();
    lemma_pow2_unfold(1075);
    lemma_pow2_strictly_increases(1075, 1200);
    assert(n * two_to(1075) <= n * two_to(1200)) by (nonlinear_arith)
        requires
            n >= 0,
            two_to(1075) < two_to(1200),
    ;
    assert(2 * (n * unit()) == n * two_to(1075)) by (nonlinear_arith)
        requires
            two_to(1075) == 2 * unit(),
    ;
    assert(scaled(0) == 0 && scaled(1) == 1);
}

/// What `round` asks of the leading digits `q` of a ratio `n / d` that was
/// doubled `i` times, or halved `j` times, and then divided with rest `r`.
proof fn lemma_leading(n: int, d: int, i: int, j: int, q: int, r: int)
    requires
        d > 0,
        i == 0 || j == 0,
        0 <= i,
        0 <= j,
        (n * two_to(i)) * two_to(63) == q * (d * two_to(j)) + r,
        0 <= r < d * two_to(j),
    ensures
        ({
            let x = 1011 - i + j;
            let v = up_weight(x) * d;
            let a = (n * unit()) * down_weight(x);
            &&& q * v <= a < (q + 1) * v
            &&& (r != 0 <==> a != q * v)
        }),
{
    let x = 1011 - i + j;
    let v = up_weight(x) * d;
    let a = (n * unit()) * down_weight(x);
    lemma2_to64();
    lemma2_to64_rest();
    let e = if i <= 1011 {
        1011 - i
    } else {
        0
    };
    lemma_pow2_pos(e as nat);
    let g = two_to(e);
    // both sides times 2^e
    assert(v == (d * two_to(j)) * g) by {
        if i == 0 {
            lemma_pow2_adds(j as nat, e as nat);
            assert(up_weight(x) == two_to(j + e));
            assert((two_to(j) * g) * d == (d * two_to(j)) * g) by (nonlinear_arith);
        } else {
            assert(two_to(0) == 1);
            if x >= 0 {
                assert(up_weight(x) == g);
            } else {
                assert(g == 1 && up_weight(x) == 1);
            }
            assert((d * 1) * g == g * d) by (nonlinear_arith);
        }
    }
    assert(a == ((n * two_to(i)) * two_to(63)) * g) by {
        lemma_pow2_adds(i as nat, 63);
        lemma_pow2_adds((i + 63) as nat, e as nat);
        assert(two_to(i + 63) == two_to(i) * two_to(63));
        assert(two_to(i + 63 + e) == two_to(i + 63) * g);
        assert(n * two_to(i + 63 + e) == ((n * two_to(i)) * two_to(63)) * g) by (nonlinear_arith)
            requires
                two_to(i + 63) == two_to(i) * two_to(63),
                two_to(i + 63 + e) == two_to(i + 63) * g,
        ;
        if x >= 0 {
            assert(i + 63 + e == 1074);
            assert(a == n * unit()) by (nonlinear_arith)
                requires
                    a == (n * unit()) * down_weight(x),
                    down_weight(x) == 1,
            ;
        } else {
            lemma_pow2_adds(1074, (-x) as nat);
            assert(i + 63 + e == 1074 + (-x));
            assert(two_to(1074 + (-x)) == two_to(1074) * two_to(-x));
            assert((n * two_to(1074)) * two_to(-x) == n * two_to(1074 + (-x))) by (nonlinear_arith)
                requires
                    two_to(1074 + (-x)) == two_to(1074) * two_to(-x),
            ;
        }
    }
    let w = d * two_to(j);
    assert(a == q * v + r * g) by (nonlinear_arith)
        requires
            a == (q * w + r) * g,
            v == w * g,
    ;
    assert(0 <= r * g < v && (r != 0 <==> r * g != 0)) by (nonlinear_arith)
        requires
            0 <= r < w,
            g > 0,
            v == w * g,
    ;
    assert((q + 1) * v == q * v + v) by (nonlinear_arith);
}

/// The magnitude closest to a ratio of two numbers of any size.
#[verifier::spinoff_prover]
fn closest(num: &Vec<u8>, den: &Vec<u8>) -> (m: u64)
    requires
        is_big(num@),
        is_big(den@),
        big(num@) > 0,
        big(den@) > 0,
    ensures
        m == nearest(big(num@) * unit(), big(den@)),
        m <= INF,
{
    let ghost n = big(num@);
    let ghost d = big(den@);
    let mut a = clone_digits(num);
    let mut b = clone_digits(den);
    let mut i: i32 = 0;
    let mut j: i32 = 0;
    proof {
        lemma2_to64();
        assert(two_to(0) == 1);
    }
    // b up to a
    let mut done: bool = false;
    while !done
        invariant
            is_big(a@),
            is_big(b@),
            n == big(num@),
            d == big(den@),
            two_to(0) == 1,
            n > 0,
            d > 0,
            big(a@) == n,
            big(b@) == d * two_to(j as int),
            0 <= j <= 1100,
            done ==> n < 2 * big(b@),
            j > 0 ==> big(b@) <= n,
        decreases (if done { 0int } else { 2000 - j }),
    {
        let mut b2 = clone_digits(&b);
        double(&mut b2);
        if subtract(&a, &b2).is_none() {
            done = true;
        } else {
            proof {
                lemma_pow2_unfold((j + 1) as nat);
                assert(d * two_to(j + 1) == 2 * (d * two_to(j as int))) by (nonlinear_arith)
                    requires
                        two_to(j + 1) == 2 * two_to(j as int),
                ;
            }
            if j >= 1100 {
                proof {
                    assert(n >= two_to(1100) * d) by (nonlinear_arith)
                        requires
                            n >= d * two_to(j as int),
                            j == 1100,
                            d > 0,
                    ;
                    lemma_huge(n, d);
                    crate::binary64::lemma_nearest(n * unit(), d, INF as int);
                }
                return INF;
            }
            b = b2;
            j = j + 1;
        }
    }
    // a up to b
    done = j > 0;
    while !done
        invariant
            is_big(a@),
            is_big(b@),
            n == big(num@),
            d == big(den@),
            two_to(0) == 1,
            n > 0,
            d > 0,
            big(a@) == n * two_to(i as int),
            big(b@) == d * two_to(j as int),
            0 <= j <= 1100,
            0 <= i <= 1200,
            i == 0 || j == 0,
            big(a@) < 2 * big(b@),
            done ==> big(b@) <= big(a@),
            !done ==> j == 0,
        decreases (if done { 0int } else { 2000 - i }),
    {
        if subtract(&a, &b).is_some() {
            done = true;
        } else {
            proof {
                lemma_pow2_unfold((i + 1) as nat);
                assert(n * two_to(i + 1) == 2 * (n * two_to(i as int))) by (nonlinear_arith)
                    requires
                        two_to(i + 1) == 2 * two_to(i as int),
                ;
            }
            if i >= 1200 {
                proof {
                    lemma_tiny(n, d);
                    crate::binary64::lemma_nearest(n * unit(), d, 0);
                }
                return 0;
            }
            double(&mut a);
            i = i + 1;
        }
    }
    // 64 binary digits of the quotient
    let ghost a1 = big(a@);
    let ghost b1 = big(b@);
    let mut q: u64 = 1;
    let mut rest: Vec<u8> = match subtract(&a, &b) {
        Some(r) => r,
        None => Vec::new(),
    };
    let mut s: u32 = 0;
    proof {
        lemma2_to64();
        assert(two_to(0) == 1 && two_to(1) == 2);
    }
    while s < 63
        invariant
            s <= 63,
            is_big(rest@),
            is_big(b@),
            big(b@) == b1,
            b1 > 0,
            a1 * two_to(s as int) == q * b1 + big(rest@),
            0 <= big(rest@) < b1,
            two_to(s as int) <= q < two_to(s + 1),
        decreases 63 - s,
    {
        let ghost r0 = big(rest@);
        let ghost q0 = q as int;
        proof {
            lemma_pow2_unfold((s + 1) as nat);
            lemma_pow2_unfold((s + 2) as nat);
            lemma2_to64_rest();
            if s + 1 < 63 {
                lemma_pow2_strictly_increases((s + 1) as nat, 63);
            }
            assert(a1 * two_to(s + 1) == 2 * (a1 * two_to(s as int))) by (nonlinear_arith)
                requires
                    two_to(s + 1) == 2 * two_to(s as int),
            ;
            assert((2 * q0) * b1 == 2 * (q0 * b1)) by (nonlinear_arith);
            assert((2 * q0 + 1) * b1 == 2 * (q0 * b1) + b1) by (nonlinear_arith);
        }
        double(&mut rest);
        q = 2 * q;
        match subtract(&rest, &b) {
            Some(r) => {
                rest = r;
                q = q + 1;
            },
            None => {},
        }
        proof {
            lemma_low_bound(rest@, rest@.len() as int);
        }
        s = s + 1;
    }
    let inexact = !all_zero(&rest);
    let x: i32 = 1011 - i + j;
    proof {
        lemma_leading(n, d, i as int, j as int, q as int, big(rest@));
        lemma2_to64();
        lemma2_to64_rest();
    }
    let m = round(q as u128, x, inexact, Ghost(n * unit()), Ghost(d));
    proof {
        crate::binary64::lemma_nearest(n * unit(), d, m as int);
    }
    m
}

// ---------------------------------------------------------------------------
// Numerals

/// The end of the run of digits at `i`.
pub open spec fn digits_end(s: Seq<char>, i: int) -> int
    decreases s.len() - i,
{
    if i >= s.len() || !digit(s[i]) {
        i
    } else {
        digits_end(s, i + 1)
    }
}

pub proof fn lemma_digits_end(s: Seq<char>, i: int)
    requires
        0 <= i <= s.len(),
    ensures
        i <= digits_end(s, i) <= s.len(),
        digits_only(s.subrange(i, digits_end(s, i))),
    decreases s.len() - i,
{
    if i < s.len() && digit(s[i]) {
        lemma_digits_end(s, i + 1);
        let e = digits_end(s, i);
        assert forall|j: int| 0 <= j < e - i implies digit(#[trigger] s.subrange(i, e)[j]) by {
            if j > 0 {
                assert(s.subrange(i, e)[j] == s.subrange(i + 1, e)[j - 1]);
            }
        }
    }
}

/// The power of ten behind an `e`: digits with an optional sign.
pub open spec fn exponent(s: Seq<char>) -> Option<int> {
    let d = if s.len() > 0 && (s[0] == '+' || s[0] == '-') {
        s.subrange(1, s.len() as int)
    } else {
        s
    };
    if d.len() == 0 || !digits_only(d) {
        None
    } else if s[0] == '-' {
        Some(-number(d))
    } else {
        Some(number(d))
    }
}

/// A numeral without its sign, as digits and a power of ten: digits that may
/// have a point among them, and an exponent that may follow.
pub open spec fn numeral(s: Seq<char>) -> Option<(Seq<char>, int)> {
    let i = digits_end(s, 0);
    let j = if i < s.len() && s[i] == '.' {
        digits_end(s, i + 1)
    } else {
        i
    };
    let frac = if j > i {
        s.subrange(i + 1, j)
    } else {
        seq![]
    };
    let digits = s.subrange(0, i) + frac;
    if digits.len() == 0 {
        None
    } else if j == s.len() {
        Some((digits, -(frac.len() as int)))
    } else if s[j] == 'e' || s[j] == 'E' {
        match exponent(s.subrange(j + 1, s.len() as int)) {
            Some(e) => Some((digits, e - frac.len())),
            None => None,
        }
    } else {
        None
    }
}

/// The magnitude closest to `n * 10^e`.
pub open spec fn closest_magnitude(n: int, e: int) -> int {
    if e >= 0 {
        nearest((n * ten_to(e)) * unit(), 1)
    } else {
        nearest(n * unit(), ten_to(-e))
    }
}

/// A capital letter of the alphabet as a small one.
pub open spec fn lower(c: char) -> char {
    if 'A' <= c && c <= 'Z' {
        (c as int + 32) as char
    } else {
        c
    }
}

pub open spec fn lowered(s: Seq<char>) -> Seq<char> {
    Seq::new(s.len(), |i: int| lower(s[i]))
}

/// A text without its sign.
pub open spec fn unsigned_part(s: Seq<char>) -> Seq<char> {
    if s.len() > 0 && (s[0] == '+' || s[0] == '-') {
        s.subrange(1, s.len() as int)
    } else {
        s
    }
}

/// The number that a text stands for: a numeral, `inf`, `infinity` or `nan`,
/// with an optional sign.
pub open spec fn float(s: Seq<char>) -> Option<Binary64> {
    let negative = s.len() > 0 && s[0] == '-';
    let d = unsigned_part(s);
    if lowered(d) == "inf"@ || lowered(d) == "infinity"@ {
        Some(signed(negative, INF as int))
    } else if lowered(d) == "nan"@ {
        Some(signed(negative, QUIET_NAN as int))
    } else {
        match numeral(d) {
            Some((digits, e)) => Some(signed(negative, closest_magnitude(number(digits), e))),
            None => None,
        }
    }
}

pub(crate) fn end_of_digits(s: &[char], from: usize) -> (r: usize)
    requires
        from <= s@.len(),
    ensures
        r == digits_end(s@, from as int),
        from <= r <= s@.len(),
        digits_only(s@.subrange(from as int, r as int)),
{
    let mut i: usize = from;
    proof {
        lemma_digits_end(s@, from as int);
    }
    while i < s.len() && is_digit(s[i])
        invariant
            from <= i <= s@.len(),
            digits_end(s@, from as int) == digits_end(s@, i as int),
        decreases s@.len() - i,
    {
        i = i + 1;
    }
    i
}

/// Bound on the exponents that are told apart.
const FAR: u128 = 1_000_000_000_000_000_000_000_000_000_000;

/// The exponent, held to at most ten times `FAR` on either side.
fn read_exponent(s: &[char]) -> (r: Option<i128>)
    ensures
        match r {
            Some(e) => {
                &&& exponent(s@) matches Some(x) && (if -(FAR as int) < x < FAR {
                    e == x
                } else if x > 0 {
                    FAR <= e <= 10 * FAR
                } else {
                    -10 * FAR <= e <= -(FAR as int)
                })
            },
            None => exponent(s@) is None,
        },
{
    let signed_text = s.len() > 0 && (s[0] == '+' || s[0] == '-');
    let d = if signed_text {
        slice_subrange(s, 1, s.len())
    } else {
        s
    };
    if d.len() == 0 {
        return None;
    }
    let end = end_of_digits(d, 0);
    if end < d.len() {
        proof {
            if digits_only(d@) {
                lemma_all_digits(d@, 0);
            }
        }
        return None;
    }
    assert(d@.subrange(0, end as int) =~= d@);
    let mut acc: u128 = 0;
    for i in 0..d.len()
        invariant
            digits_only(d@),
            acc < 10 * FAR + 10,
            acc < FAR ==> acc == number(d@.take(i as int)),
            acc >= FAR ==> number(d@.take(i as int)) >= FAR && acc <= 10 * FAR,
    {
        assert(d@.take(i as int + 1).drop_last() =~= d@.take(i as int));
        assert(digit(d@[i as int]));
        if acc < FAR {
            acc = acc * 10 + (d[i] as u32 - 48) as u128;
        }
    }
    assert(d@.take(d@.len() as int) =~= d@);
    proof {
        crate::text::lemma_number_grows(d@, 0);
    }
    if s[0] == '-' {
        Some(-(acc as i128))
    } else {
        Some(acc as i128)
    }
}

proof fn lemma_all_digits(s: Seq<char>, i: int)
    requires
        digits_only(s),
        0 <= i <= s.len(),
    ensures
        digits_end(s, i) == s.len(),
    decreases s.len() - i,
{
    if i < s.len() {
        assert(digit(s[i]));
        lemma_all_digits(s, i + 1);
    }
}

/// The digits of two texts, the last first.
spec fn turned(s: Seq<char>) -> Seq<u8> {
    Seq::new(s.len(), |i: int| (s[s.len() - 1 - i] as int - 48) as u8)
}

proof fn lemma_turned(s: Seq<char>)
    requires
        digits_only(s),
    ensures
        is_big(turned(s)),
        big(turned(s)) == number(s),
    decreases s.len(),
{
    let v = turned(s);
    assert forall|i: int| 0 <= i < v.len() implies #[trigger] v[i] < 10 by {
        assert(digit(s[s.len() - 1 - i]));
    }
    if s.len() > 0 {
        assert(digit(s[s.len() - 1]));
        let h = s.drop_last();
        assert forall|i: int| 0 <= i < h.len() implies digit(#[trigger] h[i]) by {
            assert(digit(s[i]));
        }
        lemma_turned(h);
        assert(v.drop_first() =~= turned(h));
        lemma_low_split(v, v.len() as int);
    }
}

fn push_turned(out: &mut Vec<u8>, s: &[char])
    requires
        digits_only(s@),
    ensures
        final(out)@ == old(out)@ + turned(s@),
{
    let ghost start = out@;
    let n = s.len();
    for i in 0..n
        invariant
            n == s@.len(),
            digits_only(s@),
            out@ == start + turned(s@).take(i as int),
    {
        assert(digit(s@[n - 1 - i]));
        out.push((s[n - 1 - i] as u32 - 48) as u8);
        assert(turned(s@).take(i as int + 1) =~= turned(s@).take(i as int).push(
            turned(s@)[i as int],
        ));
    }
    assert(turned(s@).take(n as int) =~= turned(s@));
}

/// Zeros, then the digits.
fn shifted(v: &Vec<u8>, n: u128) -> (r: Vec<u8>)
    requires
        is_big(v@),
    ensures
        is_big(r@),
        big(r@) == ten_to(n as int) * big(v@),
{
    let mut out: Vec<u8> = Vec::new();
    let mut i: u128 = 0;
    while i < n
        invariant
            i <= n,
            out@ == Seq::new(i as nat, |j: int| 0u8),
        decreases n - i,
    {
        out.push(0);
        i = i + 1;
        assert(out@ =~= Seq::new(i as nat, |j: int| 0u8));
    }
    let ghost zeros = out@;
    for k in 0..v.len()
        invariant
            out@ == zeros + v@.take(k as int),
    {
        out.push(v[k]);
        assert(v@.take(k as int + 1) =~= v@.take(k as int).push(v@[k as int]));
    }
    assert(v@.take(v@.len() as int) =~= v@);
    proof {
        lemma_shift(v@, n as int);
    }
    out
}

/// How many digits there are up to the highest that is not zero.
fn significant(v: &Vec<u8>) -> (r: usize)
    requires
        is_big(v@),
    ensures
        r <= v@.len(),
        r == 0 <==> big(v@) == 0,
        r > 0 ==> ten_to(r - 1) <= big(v@) < ten_to(r as int),
{
    let mut n: usize = v.len();
    while n > 0 && v[n - 1] == 0
        invariant
            n <= v@.len(),
            low(v@, n as int) == big(v@),
        decreases n,
    {
        assert(0 * ten_to(n - 1) == 0);
        n = n - 1;
    }
    proof {
        lemma_low_bound(v@, n as int);
        if n > 0 {
            lemma_low_bound(v@, n - 1);
            lemma_ten_pos(n - 1);
            assert(v@[n - 1] * ten_to(n - 1) >= ten_to(n - 1)) by (nonlinear_arith)
                requires
                    v@[n - 1] >= 1,
                    ten_to(n - 1) >= 1,
            ;
        }
    }
    n
}

/// A number of `10^400` or more.
proof fn lemma_great(n: int, len: int, e: int)
    requires
        len >= 1,
        ten_to(len - 1) <= n,
        e + len > 400,
    ensures
        closest_magnitude(n, e) == INF,
{
    lemma_ten_and_two(400);
    lemma_pow2_strictly_increases(1100, 1200);
    lemma_ten_pos(len - 1);
    if e >= 0 {
        lemma_ten_adds(len - 1, e);
        lemma_ten_adds(400, len - 1 + e - 400);
        lemma_ten_pos(len - 1 + e - 400);
        lemma_ten_pos(e);
        assert(n * ten_to(e) >= two_to(1100) * 1) by (nonlinear_arith)
            requires
                n >= ten_to(len - 1),
                ten_to(e) >= 1,
                ten_to(len - 1) >= 1,
                ten_to(len - 1 + e) == ten_to(len - 1) * ten_to(e),
                ten_to(len - 1 + e) == ten_to(400) * ten_to(len - 1 + e - 400),
                ten_to(len - 1 + e - 400) >= 1,
                ten_to(400) >= two_to(1100),
        ;
        lemma_huge(n * ten_to(e), 1);
        crate::binary64::lemma_nearest((n * ten_to(e)) * unit(), 1, INF as int);
    } else {
        lemma_ten_adds(400 - e, len - 1 - (400 - e));
        lemma_ten_pos(len - 1 - (400 - e));
        lemma_ten_adds(400, -e);
        lemma_ten_pos(-e);
        assert(n >= two_to(1100) * ten_to(-e)) by (nonlinear_arith)
            requires
                n >= ten_to(len - 1),
                ten_to(len - 1) == ten_to(400 - e) * ten_to(len - 1 - (400 - e)),
                ten_to(len - 1 - (400 - e)) >= 1,
                ten_to(400 - e) == ten_to(400) * ten_to(-e),
                ten_to(-e) >= 1,
                ten_to(400) >= two_to(1100),
        ;
        lemma_huge(n, ten_to(-e));
        crate::binary64::lemma_nearest(n * unit(), ten_to(-e), INF as int);
    }
}

/// A number of less than `10^-400`.
proof fn lemma_small(n: int, len: int, e: int)
    requires
        len >= 1,
        0 <= n < ten_to(len),
        e + len <= -400,
    ensures
        closest_magnitude(n, e) == 0,
{
    lemma_ten_and_two(400);
    lemma_pow2_pos(1200);
    lemma_ten_adds(400, len);
    lemma_ten_adds(400 + len, -e - 400 - len);
    lemma_ten_pos(-e - 400 - len);
    lemma_ten_pos(len);
    assert(n * two_to(1200) < ten_to(-e)) by (nonlinear_arith)
        requires
            0 <= n < ten_to(len),
            two_to(1200) <= ten_to(400),
            two_to(1200) > 0,
            ten_to(400 + len) == ten_to(400) * ten_to(len),
            ten_to(-e) == ten_to(400 + len) * ten_to(-e - 400 - len),
            ten_to(-e - 400 - len) >= 1,
            ten_to(len) >= 1,
    ;
    lemma_tiny(n, ten_to(-e));
    lemma_ten_pos(-e);
    crate::binary64::lemma_nearest(n * unit(), ten_to(-e), 0);
}

/// Zero, whatever the power of ten.
proof fn lemma_nothing(e: int)
    ensures
        closest_magnitude(0, e) == 0,
{
    lemma_ten_pos(-e);
    let d = if e >= 0 {
        1
    } else {
        ten_to(-e)
    };
    assert(0 * two_to(1200) < d);
    lemma_tiny(0, d);
    assert(0 * unit() == 0 && 0 * ten_to(e) == 0);
    crate::binary64::lemma_nearest(0, d, 0);
}

/// The magnitude closest to the digits at a power of ten. A power as far off
/// as `FAR` stands for all that lie further off on its side.
fn magnitude_of(v: &Vec<u8>, e: i128, Ghost(x): Ghost<int>) -> (m: u64)
    requires
        is_big(v@),
        v@.len() <= 2 * usize::MAX,
        -11 * FAR <= e <= 11 * FAR,
        e == x || (e > 0x4_0000_0000_0000_0000 && x > 0x4_0000_0000_0000_0000) || (e
            < -0x4_0000_0000_0000_0000 && x < -0x4_0000_0000_0000_0000),
    ensures
        m == closest_magnitude(big(v@), x),
        m <= INF,
{
    let len = significant(v);
    if len == 0 {
        proof {
            lemma_nothing(x);
        }
        return 0;
    }
    if e + len as i128 > 400 {
        proof {
            lemma_great(big(v@), len as int, x);
        }
        return INF;
    }
    if e + len as i128 <= -400 {
        proof {
            lemma_small(big(v@), len as int, x);
        }
        return 0;
    }
    let one: Vec<u8> = vec![1];
    assert(big(one@) == 1) by {
        assert(low(one@, 1) == low(one@, 0) + at(one@, 0) * ten_to(0));
    }
    if e >= 0 {
        let a = shifted(v, e as u128);
        proof {
            lemma_ten_pos(e as int);
            assert(big(a@) > 0) by (nonlinear_arith)
                requires
                    big(a@) == ten_to(e as int) * big(v@),
                    ten_to(e as int) >= 1,
                    big(v@) > 0,
            ;
            assert(ten_to(e as int) * big(v@) == big(v@) * ten_to(e as int)) by (nonlinear_arith);
        }
        closest(&a, &one)
    } else {
        let b = shifted(&one, (-e) as u128);
        proof {
            lemma_ten_pos(-e);
        }
        closest(v, &b)
    }
}

/// The magnitude that a numeral without sign stands for.
fn read_numeral(s: &[char]) -> (r: Option<u64>)
    ensures
        match r {
            Some(m) => {
                &&& numeral(s@) matches Some((digits, e)) && m == closest_magnitude(
                    number(digits),
                    e,
                )
                &&& m <= INF
            },
            None => numeral(s@) is None,
        },
{
    let n = s.len();
    let i = end_of_digits(s, 0);
    let dot = i < n && s[i] == '.';
    let j: usize = if dot {
        end_of_digits(s, i + 1)
    } else {
        i
    };
    let whole_digits = slice_subrange(s, 0, i);
    let frac = if dot {
        slice_subrange(s, i + 1, j)
    } else {
        slice_subrange(s, 0, 0)
    };
    let ghost digits = whole_digits@ + frac@;
    assert(frac@ =~= if j > i {
        s@.subrange(i + 1, j as int)
    } else {
        seq![]
    });
    if whole_digits.len() == 0 && frac.len() == 0 {
        return None;
    }
    let mut v: Vec<u8> = Vec::new();
    push_turned(&mut v, frac);
    push_turned(&mut v, whole_digits);
    proof {
        assert(digits_only(digits)) by {
            assert forall|k: int| 0 <= k < digits.len() implies digit(#[trigger] digits[k]) by {
                if k < whole_digits@.len() {
                    assert(digits[k] == whole_digits@[k]);
                } else {
                    assert(digits[k] == frac@[k - whole_digits@.len()]);
                }
            }
        }
        assert(v@ =~= turned(digits));
        lemma_turned(digits);
    }
    if j == n {
        let ghost x = -(frac@.len() as int);
        let m = magnitude_of(&v, -(frac.len() as i128), Ghost(x));
        Some(m)
    } else if s[j] == 'e' || s[j] == 'E' {
        match read_exponent(slice_subrange(s, j + 1, n)) {
            Some(e) => {
                let ghost x = exponent(s@.subrange(j + 1, n as int))->0 - frac@.len();
                let m = magnitude_of(&v, e - frac.len() as i128, Ghost(x));
                Some(m)
            },
            None => None,
        }
    } else {
        None
    }
}

/// Whether a text is the given word, its letters large or small.
fn same_word(s: &[char], word: &str) -> (r: bool)
    ensures
        r == (lowered(s@) == word@),
{
    let mut low_s: Vec<char> = Vec::new();
    for i in 0..s.len()
        invariant
            low_s@ == lowered(s@).take(i as int),
    {
        let c = s[i];
        if 'A' <= c && c <= 'Z' {
            low_s.push((c as u8 + 32) as char);
        } else {
            low_s.push(c);
        }
        assert(lowered(s@).take(i as int + 1) =~= lowered(s@).take(i as int).push(
            lower(s@[i as int]),
        ));
    }
    assert(lowered(s@).take(s@.len() as int) =~= lowered(s@));
    same_text(low_s.as_slice(), word)
}

/// Reads a number.
pub fn parse_float(s: &[char]) -> (r: Option<Binary64>)
    ensures
        r == float(s@),
{
    let negative = s.len() > 0 && s[0] == '-';
    let d = if s.len() > 0 && (s[0] == '+' || s[0] == '-') {
        slice_subrange(s, 1, s.len())
    } else {
        s
    };
    if same_word(d, "inf") || same_word(d, "infinity") {
        return Some(Binary64::with_sign(negative, INF));
    }
    if same_word(d, "nan") {
        return Some(Binary64::with_sign(negative, QUIET_NAN));
    }
    match read_numeral(d) {
        Some(m) => Some(Binary64::with_sign(negative, m)),
        None => None,
    }
}

fn clone_digits(v: &Vec<u8>) -> (r: Vec<u8>)
    ensures
        r@ == v@,
{
    let mut out: Vec<u8> = Vec::new();
    for i in 0..v.len()
        invariant
            out@ == v@.take(i as int),
    {
        out.push(v[i]);
    }
    assert(v@.take(v@.len() as int) =~= v@);
    out
}

// ---------------------------------------------------------------------------
// A fixed count of decimals

/// The integer closest to `n / d`; half way goes to the even one.
pub open spec fn nearest_integer(n: int, d: int) -> int {
    let q = n / d;
    let r = n % d;
    if 2 * r > d || (2 * r == d && q % 2 == 1) {
        q + 1
    } else {
        q
    }
}

/// The `w` lowest digits of `n`.
pub open spec fn padded(n: int, w: int) -> Seq<char>
    decreases w,
{
    if w <= 0 {
        seq![]
    } else {
        padded(n / 10, w - 1).push(digit_of(n % 10))
    }
}

/// `q / 10^p` with `p` decimals.
pub open spec fn with_point(q: int, p: int) -> Seq<char> {
    if p <= 0 {
        decimal(q)
    } else {
        decimal(q / ten_to(p)) + "."@ + padded(q % ten_to(p), p)
    }
}

/// A number with `p` decimals, correctly rounded from its exact value.
pub open spec fn fixed(x: Binary64, p: int) -> Seq<char> {
    let sign = if x.negative() {
        "-"@
    } else {
        seq![]
    };
    if x.nan() {
        "NaN"@
    } else if x.infinite() {
        sign + "inf"@
    } else {
        sign + with_point(nearest_integer(scaled(x.mag()) * ten_to(p), unit()), p)
    }
}

/// A common factor does not change a ratio.
proof fn lemma_common_factor(n: int, d: int, g: int)
    requires
        d > 0,
        g > 0,
        n >= 0,
    ensures
        nearest_integer(n * g, d * g) == nearest_integer(n, d),
{
    let q = n / d;
    let r = n % d;
    vstd::arithmetic::div_mod::lemma_fundamental_div_mod(n, d);
    assert(n * g == q * (d * g) + r * g && 0 <= r * g < d * g) by (nonlinear_arith)
        requires
            n == d * q + r,
            0 <= r < d,
            g > 0,
    ;
    vstd::arithmetic::div_mod::lemma_fundamental_div_mod_converse(n * g, d * g, q, r * g);
    assert(2 * (r * g) > d * g <==> 2 * r > d) by (nonlinear_arith)
        requires
            g > 0,
    ;
    assert(2 * (r * g) == d * g <==> 2 * r == d) by (nonlinear_arith)
        requires
            g > 0,
    ;
}

/// Digits without a leading zero are the decimal text.
proof fn lemma_digit_text(v: Seq<u8>)
    requires
        is_big(v),
        v.len() > 0,
        v.last() > 0,
    ensures
        decimal(big(v)) == Seq::new(v.len(), |i: int| digit_of(v[v.len() - 1 - i] as int)),
        big(v) >= 1,
    decreases v.len(),
{
    let t = Seq::new(v.len(), |i: int| digit_of(v[v.len() - 1 - i] as int));
    lemma_low_split(v, v.len() as int);
    let h = v.drop_first();
    if v.len() == 1 {
        assert(low(h, 0) == 0);
        assert(decimal(big(v)) =~= t);
    } else {
        assert(h.last() == v.last());
        assert forall|i: int| 0 <= i < h.len() implies #[trigger] h[i] < 10 by {
            assert(h[i] == v[i + 1]);
        }
        lemma_digit_text(h);
        let th = Seq::new(h.len(), |i: int| digit_of(h[h.len() - 1 - i] as int));
        assert(v[0] < 10);
        assert(big(v) / 10 == big(h) && big(v) % 10 == v[0]);
        assert(t =~= th.push(digit_of(v[0] as int)));
    }
}

/// The digits of a number.
fn digits_from(n: u64) -> (r: Vec<u8>)
    ensures
        is_big(r@),
        big(r@) == n,
{
    let mut out: Vec<u8> = Vec::new();
    let mut rest: u64 = n;
    assert(rest * ten_to(0) == rest);
    while rest > 0
        invariant
            is_big(out@),
            big(out@) + rest * ten_to(out@.len() as int) == n,
        decreases rest,
    {
        let ghost before = out@;
        let ghost t = ten_to(before.len() as int);
        let ghost old_rest = rest as int;
        out.push((rest % 10) as u8);
        rest = rest / 10;
        proof {
            lemma_low_agrees(before, out@, before.len() as int);
            assert((old_rest % 10) * t + (old_rest / 10) * (10 * t) == old_rest * t)
                by (nonlinear_arith)
                requires
                    old_rest == 10 * (old_rest / 10) + old_rest % 10,
            ;
            assert(rest * ten_to(out@.len() as int) == (old_rest / 10) * (10 * t));
        }
    }
    assert(0 * ten_to(out@.len() as int) == 0);
    out
}

/// Appends the digits, the highest that is not zero first.
fn push_digits(out: &mut String, v: &Vec<u8>)
    requires
        is_big(v@),
        big(v@) > 0,
    ensures
        final(out)@ == old(out)@ + decimal(big(v@)),
{
    let n = significant(v);
    let ghost start = out@;
    let ghost h = v@.take(n as int);
    let ghost t = Seq::new(n as nat, |i: int| digit_of(h[n - 1 - i] as int));
    proof {
        lemma_low_agrees(v@, h, n as int);
        if h.last() == 0 {
            lemma_low_bound(v@, n - 1);
            assert(0 * ten_to(n - 1) == 0);
            lemma_top(v@, n as int);
        }
        lemma_top(v@, n as int);
        lemma_digit_text(h);
    }
    for i in 0..n
        invariant
            n <= v@.len(),
            is_big(v@),
            h == v@.take(n as int),
            t == Seq::new(n as nat, |i: int| digit_of(h[n - 1 - i] as int)),
            out@ == start + t.take(i as int),
    {
        assert(v@[n - 1 - i] < 10);
        out.push((48 + v[n - 1 - i]) as char);
        assert(t.take(i as int + 1) =~= t.take(i as int).push(t[i as int]));
    }
    assert(t.take(n as int) =~= t);
}

/// Where the digits reach `10^(n-1)`, the number is that of the `n` lowest.
proof fn lemma_top(v: Seq<u8>, n: int)
    requires
        is_big(v),
        0 < n <= v.len(),
        ten_to(n - 1) <= big(v) < ten_to(n),
    ensures
        low(v, n) == big(v),
        v[n - 1] > 0,
{
    lemma_rest_zero(v, n, v.len() as int);
    lemma_low_bound(v, n - 1);
    if v[n - 1] == 0 {
        assert(0 * ten_to(n - 1) == 0);
    }
}

proof fn lemma_rest_zero(v: Seq<u8>, n: int, k: int)
    requires
        is_big(v),
        0 < n <= k,
        low(v, k) < ten_to(n),
    ensures
        low(v, n) == low(v, k),
    decreases k - n,
{
    if n < k {
        lemma_low_bound(v, k - 1);
        lemma_ten_rises(n, k - 1);
        lemma_ten_pos(k - 1);
        let c = at(v, k - 1);
        if c > 0 {
            assert(c * ten_to(k - 1) >= ten_to(k - 1)) by (nonlinear_arith)
                requires
                    c >= 1,
                    ten_to(k - 1) >= 1,
            ;
        } else {
            assert(0 * ten_to(k - 1) == 0);
        }
        lemma_rest_zero(v, n, k - 1);
    }
}

proof fn lemma_ten_rises(a: int, b: int)
    requires
        0 <= a <= b,
    ensures
        ten_to(a) <= ten_to(b),
    decreases b - a,
{
    if a < b {
        lemma_ten_rises(a, b - 1);
        lemma_ten_pos(b - 1);
    }
}

/// Appends the `w` lowest digits.
pub fn push_padded(out: &mut String, n: u64, w: u32)
    ensures
        final(out)@ == old(out)@ + padded(n as int, w as int),
    decreases w,
{
    if w > 0 {
        push_padded(out, n / 10, w - 1);
        let d: u8 = (n % 10) as u8;
        out.push((48 + d) as char);
    }
    assert(out@ =~= old(out)@ + padded(n as int, w as int));
}

fn ten_power(p: u32) -> (r: u64)
    requires
        p <= 18,
    ensures
        r == ten_to(p as int),
        1 <= r <= 1_000_000_000_000_000_000,
{
    let mut r: u64 = 1;
    let mut i: u32 = 0;
    let ghost top = 1_000_000_000_000_000_000int;
    proof {
        reveal_with_fuel(ten_to, 19);
        assert(ten_to(18) == top);
    }
    while i < p
        invariant
            i <= p <= 18,
            r == ten_to(i as int),
            r >= 1,
            r <= top,
            ten_to(18) == top,
            top == 1_000_000_000_000_000_000int,
        decreases p - i,
    {
        proof {
            lemma_ten_rises(i as int + 1, 18);
        }
        r = r * 10;
        i = i + 1;
    }
    r
}

fn two_power(k: u32) -> (r: u128)
    requires
        k < 120,
    ensures
        r == two_to(k as int),
        r >= 1,
        r <= 0x80_0000_0000_0000_0000_0000_0000_0000,
{
    let mut r: u128 = 1;
    let mut i: u32 = 0;
    proof {
        lemma2_to64();
        lemma2_to64_rest();
        lemma_pow2_adds(64, 55);
        assert(two_to(119) == 0x80_0000_0000_0000_0000_0000_0000_0000);
    }
    while i < k
        invariant
            i <= k < 120,
            r == two_to(i as int),
            r >= 1,
            r <= two_to(119),
            two_to(119) == 0x80_0000_0000_0000_0000_0000_0000_0000,
        decreases k - i,
    {
        proof {
            lemma_pow2_unfold((i + 1) as nat);
            if i + 1 < 119 {
                lemma_pow2_strictly_increases((i + 1) as nat, 119);
            }
        }
        r = r * 2;
        i = i + 1;
    }
    r
}

/// The rounded quotient of `t * 10^p` and `2^k`.
fn scale_down(t: u64, ten: u64, k: u32, Ghost(p): Ghost<int>) -> (q: u128)
    requires
        t < 2 * STEP,
        1 <= ten <= 1_000_000_000_000_000_000,
        ten == ten_to(p),
        1 <= k,
    ensures
        q == nearest_integer(t * ten_to(p), two_to(k as int)),
        q <= t * ten + 1,
{
    assert(t * ten < 0x40_0000_0000_0000 * 1_000_000_000_000_000_001) by (nonlinear_arith)
        requires
            t < 2 * STEP,
            STEP == 0x0010_0000_0000_0000,
            ten <= 1_000_000_000_000_000_000,
    ;
    let n: u128 = t as u128 * ten as u128;
    if k >= 120 {
        proof {
            lemma2_to64();
            lemma2_to64_rest();
            lemma_pow2_adds(64, 55);
            lemma_pow2_unfold(120);
            if k > 120 {
                lemma_pow2_strictly_increases(120, k as nat);
            }
            let d = two_to(k as int);
            assert(2 * n < d);
            vstd::arithmetic::div_mod::lemma_fundamental_div_mod_converse(n as int, d, 0, n as int);
        }
        return 0;
    }
    let d = two_power(k);
    let q = n / d;
    let r = n % d;
    assert(q <= n) by (nonlinear_arith)
        requires
            q == n / d,
            d >= 1,
            n >= 0,
    ;
    if 2 * r > d || (2 * r == d && q % 2 == 1) {
        q + 1
    } else {
        q
    }
}

/// The digits and the exponent of a magnitude.
fn parts(m: u64) -> (r: (u64, u32))
    requires
        m < INF,
    ensures
        scaled(m as int) == r.0 * two_to(r.1 as int),
        r.0 < 2 * STEP,
        r.1 > 0 ==> r.0 > 0,
        r.1 <= 2046,
{
    let e = m / STEP;
    let f = m % STEP;
    proof {
        lemma2_to64();
        assert(f * two_to(0) == f) by (nonlinear_arith)
            requires
                two_to(0) == 1,
        ;
    }
    if e == 0 {
        (f, 0)
    } else {
        (STEP + f, (e - 1) as u32)
    }
}

/// Writes a number with `p` decimals.
pub fn format_fixed(x: &Binary64, p: u32) -> (r: String)
    requires
        p <= 18,
    ensures
        r@ == fixed(*x, p as int),
{
    let mut out: String = String::new();
    if x.is_nan() {
        return "NaN".to_string();
    }
    if x.is_negative() {
        out.append("-");
    }
    let ghost sign = out@;
    assert(sign =~= if x.negative() {
        "-"@
    } else {
        seq![]
    });
    let m = x.magnitude();
    if m == INF {
        out.append("inf");
        return out;
    }
    let (t, u) = parts(m);
    let ten = ten_power(p);
    let ghost q0 = nearest_integer(scaled(x.mag()) * ten_to(p as int), unit());
    if u >= 1074 {
        let mut v = digits_from(t);
        let mut i: u32 = 1074;
        proof {
            lemma2_to64();
            assert(t * two_to(0) == t) by (nonlinear_arith)
                requires
                    two_to(0) == 1,
            ;
        }
        while i < u
            invariant
                1074 <= i <= u <= 2046,
                t > 0,
                is_big(v@),
                big(v@) == t * two_to(i - 1074),
            decreases u - i,
        {
            proof {
                lemma_pow2_unfold((i - 1074 + 1) as nat);
                assert(t * two_to(i + 1 - 1074) == 2 * (t * two_to(i - 1074))) by (nonlinear_arith)
                    requires
                        two_to(i + 1 - 1074) == 2 * two_to(i - 1074),
                ;
            }
            double(&mut v);
            i = i + 1;
        }
        let ghost w = big(v@);
        proof {
            lemma_pow2_pos((u - 1074) as nat);
            assert(w > 0) by (nonlinear_arith)
                requires
                    w == t * two_to(u - 1074),
                    t > 0,
                    two_to(u - 1074) > 0,
            ;
            lemma_pow2_adds((u - 1074) as nat, 1074);
            let g = ten_to(p as int);
            assert(scaled(x.mag()) * g == (w * g) * unit()) by (nonlinear_arith)
                requires
                    scaled(x.mag()) == t * two_to(u as int),
                    w == t * two_to(u - 1074),
                    two_to(u as int) == two_to(u - 1074) * unit(),
            ;
            lemma_pow2_pos(1074);
            vstd::arithmetic::div_mod::lemma_fundamental_div_mod_converse(
                (w * g) * unit(),
                unit(),
                w * g,
                0,
            );
            assert(q0 == w * g);
            vstd::arithmetic::div_mod::lemma_fundamental_div_mod_converse(w * g, g, w, 0);
            assert(p == 0 ==> w * g == w) by (nonlinear_arith)
                requires
                    p == 0 ==> g == 1,
            ;
        }
        push_digits(&mut out, &v);
        if p > 0 {
            out.append(".");
            push_padded(&mut out, 0, p);
        }
        assert(out@ =~= fixed(*x, p as int));
        return out;
    }
    let k: u32 = 1074 - u;
    let q = scale_down(t, ten, k, Ghost(p as int));
    proof {
        let g = ten_to(p as int);
        lemma_pow2_adds(k as nat, u as nat);
        lemma_pow2_pos(u as nat);
        lemma_pow2_pos(k as nat);
        assert(scaled(x.mag()) * g == (t * g) * two_to(u as int)) by (nonlinear_arith)
            requires
                scaled(x.mag()) == t * two_to(u as int),
        ;
        assert(t * g >= 0) by (nonlinear_arith)
            requires
                t >= 0,
                g >= 1,
        ;
        lemma_common_factor(t * g, two_to(k as int), two_to(u as int));
        assert(q0 == q);
    }
    let whole_part: u128 = q / ten as u128;
    assert(whole_part <= t + 1) by (nonlinear_arith)
        requires
            whole_part == q / ten as u128,
            q <= t * ten + 1,
            ten >= 1,
    ;
    push_decimal(&mut out, whole_part as u64);
    if p > 0 {
        out.append(".");
        push_padded(&mut out, (q % ten as u128) as u64, p);
    }
    assert(out@ =~= fixed(*x, p as int));
    out
}

// ---------------------------------------------------------------------------
// What is written can be read

/// The number that two runs of digits spell together.
proof fn lemma_number_joins(a: Seq<char>, b: Seq<char>)
    ensures
        number(a + b) == number(a) * ten_to(b.len() as int) + number(b),
    decreases b.len(),
{
    if b.len() == 0 {
        assert(a + b =~= a);
        assert(number(a) * 1 == number(a));
    } else {
        let h = b.drop_last();
        lemma_number_joins(a, h);
        assert((a + b).drop_last() =~= a + h);
        let t = ten_to(h.len() as int);
        assert(10 * (number(a) * t) == number(a) * (10 * t)) by (nonlinear_arith);
    }
}

pub proof fn lemma_padded(n: int, w: int)
    requires
        0 <= n < ten_to(w),
        0 <= w,
    ensures
        padded(n, w).len() == w,
        digits_only(padded(n, w)),
        number(padded(n, w)) == n,
    decreases w,
{
    let s = padded(n, w);
    if w > 0 {
        lemma_padded(n / 10, w - 1);
        assert(s.drop_last() =~= padded(n / 10, w - 1));
        assert forall|i: int| 0 <= i < s.len() implies digit(#[trigger] s[i]) by {
            if i < s.len() - 1 {
                assert(s[i] == padded(n / 10, w - 1)[i]);
            }
        }
    }
}

/// Digits that stand before something else end there.
pub proof fn lemma_run_of_digits(s: Seq<char>, i: int, k: int)
    requires
        0 <= i <= k <= s.len(),
        forall|j: int| i <= j < k ==> digit(#[trigger] s[j]),
        k < s.len() ==> !digit(s[k]),
    ensures
        digits_end(s, i) == k,
    decreases k - i,
{
    if i < k {
        assert(digit(s[i]));
        lemma_run_of_digits(s, i + 1, k);
    }
}

/// No word begins with a digit.
proof fn lemma_no_word(s: Seq<char>)
    requires
        s.len() > 0,
        digit(s[0]),
    ensures
        lowered(s) != "inf"@,
        lowered(s) != "infinity"@,
        lowered(s) != "nan"@,
        unsigned_part(s) == s,
{
    reveal_strlit("inf");
    reveal_strlit("infinity");
    reveal_strlit("nan");
    assert(lowered(s)[0] == s[0]);
}

/// A natural number that is written in decimal is read as the number closest
/// to it.
pub proof fn decimal_reads_as_whole(n: int)
    requires
        0 <= n,
    ensures
        float(decimal(n)) == Some(whole(n)),
{
    let s = decimal(n);
    lemma_decimal(n);
    assert(digit(s[0]));
    lemma_no_word(s);
    lemma_run_of_digits(s, 0, s.len() as int);
    assert(s.subrange(0, s.len() as int) + Seq::<char>::empty() =~= s);
    assert(ten_to(0) == 1 && n * 1 == n);
}

/// What a number is rounded to when it is written with `p` decimals, in units
/// of the last one.
pub open spec fn rounded(x: Binary64, p: int) -> int {
    nearest_integer(scaled(x.mag()) * ten_to(p), unit())
}

pub proof fn lemma_rounded_natural(x: Binary64, p: int)
    ensures
        0 <= rounded(x, p),
{
    crate::binary64::lemma_scaled_natural(x.mag());
    lemma_ten_pos(p);
    lemma_pow2_pos(1074);
    assert(scaled(x.mag()) * ten_to(p) >= 0) by (nonlinear_arith)
        requires
            scaled(x.mag()) >= 0,
            ten_to(p) >= 1,
    ;
    vstd::arithmetic::div_mod::lemma_div_pos_is_pos(scaled(x.mag()) * ten_to(p), unit());
}

/// A number that is written with a fixed count of decimals is read as the
/// number closest to the rounded value. A number that has no more decimals
/// than those comes back as it was.
pub proof fn fixed_reads_back(x: Binary64, p: int)
    requires
        x.finite(),
        0 <= p,
    ensures
        float(fixed(x, p)) == Some(signed(x.negative(), closest_magnitude(rounded(x, p), -p))),
        (scaled(x.mag()) * ten_to(p)) % unit() == 0 ==> float(fixed(x, p)) == Some(x),
{
    let q = rounded(x, p);
    let body = with_point(q, p);
    let s = fixed(x, p);
    lemma_rounded_natural(x, p);
    lemma_ten_pos(p);
    lemma_pow2_pos(1074);
    lemma_body_reads(q, p);
    reveal_strlit("-");
    if x.negative() {
        assert(s[0] == '-');
        assert(unsigned_part(s) =~= body);
    } else {
        assert(s =~= body);
    }
    assert(s.len() > 0 && s[0] == '-' <==> x.negative());
    assert(float(s) == Some(signed(x.negative(), closest_magnitude(q, -p))));
    if (scaled(x.mag()) * ten_to(p)) % unit() == 0 {
        let n = scaled(x.mag()) * ten_to(p);
        vstd::arithmetic::div_mod::lemma_fundamental_div_mod(n, unit());
        assert(q == n / unit());
        assert(q * unit() == scaled(x.mag()) * ten_to(p)) by (nonlinear_arith)
            requires
                n == unit() * q + 0,
                n == scaled(x.mag()) * ten_to(p),
        ;
        crate::binary64::exact_is_nearest(x.mag());
        if p == 0 {
            assert((q * ten_to(0)) * unit() == scaled(x.mag())) by (nonlinear_arith)
                requires
                    q * unit() == scaled(x.mag()) * ten_to(0),
                    ten_to(0) == 1,
            ;
        } else {
            lemma_exact_ratio(x.mag(), q * unit(), ten_to(p));
        }
        assert(signed(x.negative(), x.mag()) == x);
    }
}

proof fn lemma_integers_in_order(a: int, b: int, d: int)
    requires
        0 <= a <= b,
        d > 0,
    ensures
        0 <= nearest_integer(a, d) <= nearest_integer(b, d),
{
    vstd::arithmetic::div_mod::lemma_div_is_ordered(a, b, d);
    vstd::arithmetic::div_mod::lemma_div_pos_is_pos(a, d);
    vstd::arithmetic::div_mod::lemma_fundamental_div_mod(a, d);
    vstd::arithmetic::div_mod::lemma_fundamental_div_mod(b, d);
    if a / d == b / d {
        assert(d * (a / d) == d * (b / d));
    }
}

/// Writing numbers with a fixed count of decimals and reading them keeps their
/// order.
pub proof fn rereading_keeps_order(a: Binary64, b: Binary64, p: int)
    requires
        a.finite(),
        b.finite(),
        a.mag() <= b.mag(),
        0 <= p,
    ensures
        0 <= closest_magnitude(rounded(a, p), -p) <= closest_magnitude(rounded(b, p), -p) <= INF,
{
    let t = ten_to(p);
    lemma_ten_pos(p);
    lemma_pow2_pos(1074);
    crate::binary64::lemma_scaled_order(a.mag(), b.mag());
    crate::binary64::lemma_scaled_natural(a.mag());
    assert(0 <= scaled(a.mag()) * t <= scaled(b.mag()) * t) by (nonlinear_arith)
        requires
            0 <= scaled(a.mag()) <= scaled(b.mag()),
            t >= 1,
    ;
    lemma_integers_in_order(scaled(a.mag()) * t, scaled(b.mag()) * t, unit());
    let x = rounded(a, p);
    let y = rounded(b, p);
    if p == 0 {
        assert(x * ten_to(0) == x && y * ten_to(0) == y) by (nonlinear_arith)
            requires
                ten_to(0) == 1,
        ;
    }
    assert(0 <= x * unit() <= y * unit()) by (nonlinear_arith)
        requires
            0 <= x <= y,
            unit() > 0,
    ;
    if p == 0 {
        crate::binary64::nearest_keeps_order(x * unit(), y * unit(), 1);
    } else {
        crate::binary64::nearest_keeps_order(x * unit(), y * unit(), t);
    }
}

// ---------------------------------------------------------------------------
// As few decimals as needed

/// How many decimals suffice for a number to be read back.
pub const ENOUGH: u32 = 16;

/// The first count of decimals from `p` on with which a number is read back.
pub open spec fn decimals_needed(x: Binary64, p: int) -> int
    decreases ENOUGH - p,
{
    if p >= ENOUGH || float(fixed(x, p)) == Some(x) {
        p
    } else {
        decimals_needed(x, p + 1)
    }
}

/// A number with as few decimals as it is read back with.
pub open spec fn shortest(x: Binary64) -> Seq<char> {
    fixed(x, decimals_needed(x, 0))
}

/// Writes a number with as few decimals as it is read back with.
pub fn format_shortest(x: &Binary64) -> (r: String)
    ensures
        r@ == shortest(*x),
{
    let mut p: u32 = 0;
    while p < ENOUGH
        invariant
            p <= ENOUGH,
            decimals_needed(*x, 0) == decimals_needed(*x, p as int),
        decreases ENOUGH - p,
    {
        let text = format_fixed(x, p);
        let cs = chars_of(text.as_str());
        if let Some(v) = parse_float(cs.as_slice()) {
            if v == *x {
                return text;
            }
        }
        p = p + 1;
    }
    format_fixed(x, ENOUGH)
}

/// The closest integer is off by no more than a half.
proof fn lemma_off_by_half(n: int, d: int)
    requires
        0 <= n,
        d > 0,
    ensures
        -d <= 2 * (nearest_integer(n, d) * d - n) <= d,
{
    let q = n / d;
    let r = n % d;
    vstd::arithmetic::div_mod::lemma_fundamental_div_mod(n, d);
    assert(q * d == d * q && (q + 1) * d == d * q + d) by (nonlinear_arith);
}

/// With this many decimals, numbers from one on are read back.
proof fn lemma_enough(x: Binary64)
    requires
        x.finite(),
        !x.negative(),
        scaled(x.mag()) >= unit(),
    ensures
        float(fixed(x, ENOUGH as int)) == Some(x),
{
    let m = x.mag();
    let s = scaled(m);
    let t = ten_to(16);
    let q = rounded(x, 16);
    lemma_pow2_pos(1074);
    reveal_with_fuel(ten_to, 17);
    assert(t == 10_000_000_000_000_000);
    assert(m > 0) by {
        assert(scaled(0) == 0);
    }
    assert(s * t >= 0) by (nonlinear_arith)
        requires
            s >= 0,
            t >= 0,
    ;
    lemma_off_by_half(s * t, unit());
    crate::binary64::lemma_gaps_from_one(m);
    let gap = two_to(1021);
    lemma_pow2_adds(53, 1021);
    lemma2_to64();
    lemma2_to64_rest();
    lemma_pow2_pos(1021);
    assert(unit() < gap * t) by (nonlinear_arith)
        requires
            unit() == 0x20_0000_0000_0000 * gap,
            gap > 0,
            t == 10_000_000_000_000_000,
    ;
    let lo = scaled(m - 1);
    let hi = scaled(m + 1);
    assert(2 * (q * unit()) > (lo + s) * t && 2 * (q * unit()) < (s + hi) * t) by (nonlinear_arith)
        requires
            -unit() <= 2 * (q * unit() - s * t) <= unit(),
            unit() < gap * t,
            s - lo >= gap,
            hi - s >= gap,
            t > 0,
    ;
    assert(rounds_to(q * unit(), t, m));
    crate::binary64::lemma_nearest(q * unit(), t, m);
    fixed_reads_back(x, 16);
    assert(signed(x.negative(), m) == x);
}

/// A number from one on that is written with as few decimals as needed is read
/// back.
pub proof fn shortest_reads_back(x: Binary64)
    requires
        x.finite(),
        whole(1).at_most(x),
    ensures
        float(shortest(x)) == Some(x),
        0 <= decimals_needed(x, 0) <= ENOUGH,
{
    crate::binary64::whole_is_exact(1);
    crate::binary64::lemma_scaled_natural(x.mag());
    lemma_pow2_pos(1074);
    assert(whole(1).mag() > 0) by {
        assert(scaled(0) == 0);
    }
    crate::binary64::lemma_scaled_order(whole(1).mag(), x.mag());
    lemma_enough(x);
    lemma_needed(x, 0);
}

proof fn lemma_needed(x: Binary64, p: int)
    requires
        0 <= p <= ENOUGH,
        float(fixed(x, ENOUGH as int)) == Some(x),
    ensures
        p <= decimals_needed(x, p) <= ENOUGH,
        float(fixed(x, decimals_needed(x, p))) == Some(x),
    decreases ENOUGH - p,
{
    if p < ENOUGH && float(fixed(x, p)) != Some(x) {
        lemma_needed(x, p + 1);
    }
}

/// The characters of a number with a fixed count of decimals.
pub proof fn lemma_fixed_characters(x: Binary64, p: int)
    requires
        x.finite(),
        0 <= p,
    ensures
        fixed(x, p).len() > 0,
        fixed(x, p)[0] == '-' || digit(fixed(x, p)[0]),
        forall|i: int|
            0 <= i < fixed(x, p).len() ==> digit(#[trigger] fixed(x, p)[i]) || fixed(x, p)[i] == '.'
                || fixed(x, p)[i] == '-',
{
    let q = rounded(x, p);
    let body = with_point(q, p);
    let s = fixed(x, p);
    lemma_rounded_natural(x, p);
    lemma_body_reads(q, p);
    reveal_strlit("-");
    if x.negative() {
        assert forall|i: int| 0 <= i < s.len() implies digit(#[trigger] s[i]) || s[i] == '.' || s[i]
            == '-' by {
            if i > 0 {
                assert(s[i] == body[i - 1]);
            }
        }
    } else {
        assert(s =~= body);
    }
}

/// A ratio that is a magnitude exactly is closest to it.
proof fn lemma_exact_ratio(m: int, n: int, d: int)
    requires
        0 <= m < INF,
        d > 0,
        n == scaled(m) * d,
    ensures
        nearest(n, d) == m,
{
    crate::binary64::exact_is_nearest(m);
    assert(rounds_to(scaled(m), 1, m)) by {
        crate::binary64::exact_rounds(m);
    }
    if m > 0 {
        assert(2 * n > (scaled(m - 1) + scaled(m)) * d || (2 * n == (scaled(m - 1) + scaled(m)) * d
            && m % 2 == 0)) by (nonlinear_arith)
            requires
                n == scaled(m) * d,
                d > 0,
                2 * scaled(m) > (scaled(m - 1) + scaled(m)) * 1 || (2 * scaled(m) == (scaled(m - 1)
                    + scaled(m)) * 1 && m % 2 == 0),
        ;
    }
    assert(2 * n < (scaled(m) + scaled(m + 1)) * d || (2 * n == (scaled(m) + scaled(m + 1)) * d && m
        % 2 == 0)) by (nonlinear_arith)
        requires
            n == scaled(m) * d,
            d > 0,
            2 * scaled(m) < (scaled(m) + scaled(m + 1)) * 1 || (2 * scaled(m) == (scaled(m)
                + scaled(m + 1)) * 1 && m % 2 == 0),
    ;
    crate::binary64::lemma_nearest(n, d, m);
}

/// Digits with a point among them are read as they were written.
proof fn lemma_body_reads(q: int, p: int)
    requires
        0 <= q,
        0 <= p,
    ensures
        ({
            let s = with_point(q, p);
            &&& s.len() > 0
            &&& digit(s[0])
            &&& unsigned_part(s) == s
            &&& lowered(s) != "inf"@
            &&& lowered(s) != "infinity"@
            &&& lowered(s) != "nan"@
            &&& numeral(s) matches Some((digits, e)) && number(digits) == q && e == -p
            &&& forall|i: int| 0 <= i < s.len() ==> digit(#[trigger] s[i]) || s[i] == '.'
        }),
{
    let s = with_point(q, p);
    let d = ten_to(p);
    lemma_ten_pos(p);
    if p == 0 {
        lemma_decimal(q);
        assert(digit(s[0]));
        lemma_no_word(s);
        lemma_run_of_digits(s, 0, s.len() as int);
        assert(s.subrange(0, s.len() as int) + Seq::<char>::empty() =~= s);
    } else {
        let a = q / d;
        let b = q % d;
        vstd::arithmetic::div_mod::lemma_fundamental_div_mod(q, d);
        vstd::arithmetic::div_mod::lemma_div_pos_is_pos(q, d);
        lemma_decimal(a);
        lemma_padded(b, p);
        let x = decimal(a);
        let y = padded(b, p);
        reveal_strlit(".");
        assert(s[0] == x[0]);
        assert(digit(x[0]));
        lemma_no_word(s);
        let i = x.len() as int;
        assert(s[i] == '.');
        assert forall|j: int| 0 <= j < i implies digit(#[trigger] s[j]) by {
            assert(s[j] == x[j]);
        }
        lemma_run_of_digits(s, 0, i);
        assert forall|j: int| i + 1 <= j < s.len() implies digit(#[trigger] s[j]) by {
            assert(s[j] == y[j - i - 1]);
        }
        lemma_run_of_digits(s, i + 1, s.len() as int);
        assert(s.subrange(0, i) =~= x);
        assert(s.subrange(i + 1, s.len() as int) =~= y);
        lemma_number_joins(x, y);
        assert(a * d == d * a) by (nonlinear_arith);
    }
}

/// A whole number is written with zeros behind the point.
pub proof fn wholes_have_zeros(n: int, p: int)
    requires
        0 <= n <= 2 * crate::binary64::STEP,
        0 < p,
    ensures
        fixed(whole(n), p) == decimal(n) + "."@ + padded(0, p),
{
    crate::binary64::whole_is_exact(n);
    lemma_ten_pos(p);
    lemma_pow2_pos(1074);
    let u = unit();
    let t = ten_to(p);
    let k = n * t;
    assert((n * u) * t == k * u) by (nonlinear_arith)
        requires
            k == n * t,
    ;
    vstd::arithmetic::div_mod::lemma_div_multiples_vanish(k, u);
    vstd::arithmetic::div_mod::lemma_mod_multiples_basic(k, u);
    assert(u * k == k * u) by (nonlinear_arith);
    assert(nearest_integer(k * u, u) == k);
    vstd::arithmetic::div_mod::lemma_div_multiples_vanish(n, t);
    vstd::arithmetic::div_mod::lemma_mod_multiples_basic(n, t);
    assert(t * n == n * t) by (nonlinear_arith);
    assert(k / t == n && k % t == 0);
    assert(Seq::<char>::empty() + with_point(k, p) =~= with_point(k, p));
}

} // verus!
