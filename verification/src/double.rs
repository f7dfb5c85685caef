//! Numbers with 53 significant bits, as double precision has them.
//!
//! Exponents have no bounds here. What double precision takes for infinite
//! lies far above, and what it takes for zero far below, anything that is
//! told apart from a failure or from zero in the end.

use vstd::arithmetic::div_mod::{
    lemma_fundamental_div_mod, lemma_fundamental_div_mod_converse,
};
use vstd::prelude::*;

verus! {

/// Two to the power `n`.
pub open spec fn pow2(n: nat) -> nat
    decreases n,
{
    if n == 0 {
        1
    } else {
        2 * pow2((n - 1) as nat)
    }
}

/// Two to the power 52.
pub const TWO_52: u128 = 4_503_599_627_370_496;

/// Two to the power 53.
pub const TWO_53: u128 = 9_007_199_254_740_992;

/// The number `mantissa * 2^exponent`.
pub struct Double {
    pub mantissa: nat,
    pub exponent: int,
}

/// The upper part of the fraction `a / b * 2^-e`.
pub open spec fn over(a: nat, e: int) -> nat {
    if e < 0 {
        a * pow2((-e) as nat)
    } else {
        a
    }
}

/// The lower part of the fraction `a / b * 2^-e`.
pub open spec fn under(b: nat, e: int) -> nat {
    if e > 0 {
        b * pow2(e as nat)
    } else {
        b
    }
}

/// `a / b` is `2^e` times a number with 53 bits before the point.
pub open spec fn has_exponent(a: nat, b: nat, e: int) -> bool {
    TWO_52 * under(b, e) <= over(a, e) && over(a, e) < TWO_53 * under(b, e)
}

/// `a / b` to the nearest whole number, a half to the even one.
pub open spec fn half_even(a: nat, b: nat) -> nat {
    let q = a / b;
    let r = a % b;
    if 2 * r < b || (2 * r == b && q % 2 == 0) {
        q
    } else {
        q + 1
    }
}

/// `a / b` to the nearest number with 53 significant bits, a half to the even
/// one.
pub open spec fn nearest(a: nat, b: nat) -> Double {
    if a == 0 {
        Double { mantissa: 0, exponent: 0 }
    } else {
        let e = choose|e: int| has_exponent(a, b, e);
        Double { mantissa: half_even(over(a, e), under(b, e)), exponent: e }
    }
}

impl Double {
    /// The upper part of the number as a fraction.
    pub open spec fn upper(self) -> nat {
        over(self.mantissa, -self.exponent)
    }

    /// The lower part of the number as a fraction.
    pub open spec fn lower(self) -> nat {
        under(1, -self.exponent)
    }

    /// `n` times the number, to the nearest one.
    pub open spec fn times(self, n: nat) -> Double {
        nearest(self.upper() * n, self.lower())
    }

    /// The nearest whole number, a half rounded up.
    pub open spec fn whole(self) -> nat {
        (2 * self.upper() + self.lower()) / (2 * self.lower())
    }
}

/// A power of two is positive, and larger than its exponent.
pub proof fn lemma_pow2(n: nat)
    ensures
        pow2(n) >= 1,
        pow2(n) > n,
    decreases n,
{
    if n > 0 {
        lemma_pow2((n - 1) as nat);
    }
}

proof fn lemma_pow2_sum(a: nat, b: nat)
    ensures
        pow2(a + b) == pow2(a) * pow2(b),
    decreases b,
{
    if b == 0 {
        assert(pow2(a) * 1 == pow2(a)) by (nonlinear_arith);
    } else {
        lemma_pow2_sum(a, (b - 1) as nat);
        let x = pow2(a);
        let y = pow2((b - 1) as nat);
        assert(2 * (x * y) == x * (2 * y)) by (nonlinear_arith);
        assert((a + b - 1) as nat == a + (b - 1) as nat);
    }
}

proof fn lemma_pow2_increases(a: nat, b: nat)
    requires
        a <= b,
    ensures
        pow2(a) <= pow2(b),
    decreases b - a,
{
    if a < b {
        lemma_pow2_increases(a, (b - 1) as nat);
    }
}

/// Both parts of a fraction that is not zero are positive.
pub proof fn lemma_positive(a: nat, b: nat, e: int)
    requires
        b > 0,
    ensures
        under(b, e) > 0,
        a > 0 ==> over(a, e) > 0,
{
    if e > 0 {
        lemma_pow2(e as nat);
        let p = pow2(e as nat);
        assert(b * p > 0) by (nonlinear_arith)
            requires
                b > 0,
                p > 0,
        ;
    }
    if e < 0 && a > 0 {
        lemma_pow2((-e) as nat);
        let p = pow2((-e) as nat);
        assert(a * p > 0) by (nonlinear_arith)
            requires
                a > 0,
                p > 0,
        ;
    }
}

/// One more in the exponent halves the fraction.
pub proof fn lemma_step(a: nat, b: nat, e: int)
    ensures
        over(a, e + 1) * (2 * under(b, e)) == over(a, e) * under(b, e + 1),
{
    if e >= 0 {
        let p = pow2(e as nat);
        assert(pow2((e + 1) as nat) == 2 * p);
        if e == 0 {
            assert(b * 1 == b) by (nonlinear_arith);
        }
        assert(under(b, e) == b * p);
        assert(a * (2 * (b * p)) == a * (b * (2 * p))) by (nonlinear_arith);
    } else {
        let p = pow2((-e - 1) as nat);
        assert(pow2((-e) as nat) == 2 * p);
        if e == -1 {
            assert(a * 1 == a) by (nonlinear_arith);
        }
        assert(over(a, e + 1) == a * p);
        assert((a * p) * (2 * b) == (a * (2 * p)) * b) by (nonlinear_arith);
    }
}

/// `a / b` is less than `2^52` times `2^e`.
spec fn is_below(a: nat, b: nat, e: int) -> bool {
    over(a, e) < TWO_52 * under(b, e)
}

proof fn lemma_below_next(a: nat, b: nat, e: int)
    requires
        b > 0,
        over(a, e) < TWO_53 * under(b, e),
    ensures
        is_below(a, b, e + 1),
{
    lemma_step(a, b, e);
    lemma_positive(a, b, e);
    lemma_positive(a, b, e + 1);
    let (x, y) = (over(a, e), under(b, e));
    let (u, v) = (over(a, e + 1), under(b, e + 1));
    assert(u < TWO_52 * v) by (nonlinear_arith)
        requires
            u * (2 * y) == x * v,
            x < 9_007_199_254_740_992 * y,
            y > 0,
            v > 0,
            TWO_52 == 4_503_599_627_370_496,
    ;
}

proof fn lemma_below(a: nat, b: nat, e: int, f: int)
    requires
        b > 0,
        e <= f,
        is_below(a, b, e),
    ensures
        is_below(a, b, f),
    decreases f - e,
{
    if e < f {
        lemma_positive(a, b, e);
        lemma_below_next(a, b, e);
        lemma_below(a, b, e + 1, f);
    }
}

/// A fraction has one exponent.
proof fn lemma_exponent_unique(a: nat, b: nat, e: int, f: int)
    requires
        b > 0,
        has_exponent(a, b, e),
        has_exponent(a, b, f),
    ensures
        e == f,
{
    if e < f {
        lemma_below_next(a, b, e);
        lemma_below(a, b, e + 1, f);
    } else if f < e {
        lemma_below_next(a, b, f);
        lemma_below(a, b, f + 1, e);
    }
}

proof fn lemma_exponent_from(a: nat, b: nat, e: int) -> (f: int)
    requires
        b > 0,
        !is_below(a, b, e),
    ensures
        has_exponent(a, b, f),
    decreases over(a, e) / under(b, e),
{
    lemma_positive(a, b, e);
    if over(a, e) < TWO_53 * under(b, e) {
        e
    } else {
        lemma_step(a, b, e);
        lemma_positive(a, b, e + 1);
        let (x, y) = (over(a, e), under(b, e));
        let (u, v) = (over(a, e + 1), under(b, e + 1));
        assert(u >= TWO_52 * v) by (nonlinear_arith)
            requires
                u * (2 * y) == x * v,
                x >= 9_007_199_254_740_992 * y,
                y > 0,
                TWO_52 == 4_503_599_627_370_496,
        ;
        let q = u / v;
        lemma_fundamental_div_mod(u as int, v as int);
        assert(q >= 1) by (nonlinear_arith)
            requires
                u >= v,
                q == u / v,
                v > 0,
        ;
        assert(x >= 2 * q * y) by (nonlinear_arith)
            requires
                u * (2 * y) == x * v,
                u >= q * v,
                v > 0,
        ;
        assert(x / y >= 2 * q) by (nonlinear_arith)
            requires
                x >= 2 * q * y,
                y > 0,
        ;
        lemma_exponent_from(a, b, e + 1)
    }
}

/// Every fraction but zero has an exponent.
proof fn lemma_exponent_exists(a: nat, b: nat)
    requires
        a > 0,
        b > 0,
    ensures
        exists|e: int| has_exponent(a, b, e),
{
    let n = (TWO_52 * b) as nat;
    lemma_pow2(n);
    let p = pow2(n);
    assert(a * p >= p) by (nonlinear_arith)
        requires
            a >= 1,
    ;
    let e = -(n as int);
    assert(!is_below(a, b, e));
    let f = lemma_exponent_from(a, b, e);
}

/// The nearest number is known by its exponent.
pub proof fn lemma_nearest(a: nat, b: nat, e: int)
    requires
        a > 0,
        b > 0,
        has_exponent(a, b, e),
    ensures
        nearest(a, b) == (Double { mantissa: half_even(over(a, e), under(b, e)), exponent: e }),
{
    let f = choose|f: int| has_exponent(a, b, f);
    lemma_exponent_unique(a, b, e, f);
}

/// How far rounding goes.
pub proof fn lemma_half_even(a: nat, b: nat)
    requires
        b > 0,
    ensures
        2 * (half_even(a, b) * b) <= 2 * a + b,
        2 * a <= 2 * (half_even(a, b) * b) + b,
        forall|k: nat| #[trigger] (k * b) <= a ==> k <= half_even(a, b),
        forall|k: nat| a <= #[trigger] (k * b) ==> half_even(a, b) <= k,
{
    let q = a / b;
    let r = a % b;
    lemma_fundamental_div_mod(a as int, b as int);
    assert(a == b * q + r && r < b);
    assert((q + 1) * b == b * q + b) by (nonlinear_arith);
    assert(q * b == b * q) by (nonlinear_arith);
    assert forall|k: nat| #[trigger] (k * b) <= a implies k <= q by {
        assert(k <= q) by (nonlinear_arith)
            requires
                k * b <= a,
                a == b * q + r,
                r < b,
        ;
    }
    assert forall|k: nat| a <= #[trigger] (k * b) implies half_even(a, b) <= k by {
        assert(q <= k) by (nonlinear_arith)
            requires
                a <= k * b,
                a == b * q + r,
                b > 0,
        ;
        if q == k {
            assert(r == 0) by (nonlinear_arith)
                requires
                    a <= k * b,
                    a == b * q + r,
                    q == k,
            ;
        }
    }
}

/// Rounding depends on the fraction, not on how it is written.
pub proof fn lemma_half_even_same(a: nat, b: nat, c: nat, d: nat)
    requires
        b > 0,
        d > 0,
        a * d == c * b,
    ensures
        half_even(a, b) == half_even(c, d),
{
    let q = a / b;
    let r = a % b;
    lemma_fundamental_div_mod(a as int, b as int);
    assert(a == b * q + r && r < b);
    let s = c - d * q;
    assert(s * b == r * d) by (nonlinear_arith)
        requires
            a * d == c * b,
            a == b * q + r,
            s == c - d * q,
    ;
    assert(0 <= s < d) by (nonlinear_arith)
        requires
            s * b == r * d,
            0 <= r < b,
            d > 0,
    ;
    assert(c == q * d + s) by (nonlinear_arith)
        requires
            s == c - d * q,
    ;
    lemma_fundamental_div_mod_converse(c as int, d as int, q as int, s);
    assert((2 * r < b) == (2 * s < d)) by (nonlinear_arith)
        requires
            s * b == r * d,
            b > 0,
            d > 0,
    ;
    assert((2 * r == b) == (2 * s == d)) by (nonlinear_arith)
        requires
            s * b == r * d,
            b > 0,
            d > 0,
    ;
}

/// Fractions with the same value have the same nearest number.
pub proof fn lemma_exponent_same(a: nat, b: nat, e: int, c: nat, d: nat)
    requires
        b > 0,
        d > 0,
        over(a, e) * d == c * under(b, e),
        TWO_52 * d <= c < TWO_53 * d,
    ensures
        has_exponent(a, b, e),
        half_even(over(a, e), under(b, e)) == half_even(c, d),
{
    lemma_positive(a, b, e);
    let (x, y) = (over(a, e), under(b, e));
    assert(TWO_52 * y <= x && x < TWO_53 * y) by (nonlinear_arith)
        requires
            x * d == c * y,
            TWO_52 * d <= c,
            c < TWO_53 * d,
            d > 0,
            y > 0,
    ;
    lemma_half_even_same(x, y, c, d);
}

/// The parts of a number shifted by its own exponent and `t` more.
proof fn lemma_shift(p: nat, e: int, t: nat)
    ensures
        over(over(p, -e), e + t) * pow2(t) == p * under(under(1, -e), e + t),
{
    let w = pow2(t);
    if e >= 0 {
        let u = pow2(e as nat);
        lemma_pow2_sum(e as nat, t);
        assert(over(p, -e) == p * u) by {
            if e == 0 {
                assert(p * 1 == p) by (nonlinear_arith);
            }
        }
        assert(under(1, -e) == 1);
        assert(under(1, e + t) == u * w) by {
            if e + t == 0 {
                assert(1 * 1 == 1nat);
            } else {
                assert(1 * pow2((e + t) as nat) == pow2((e + t) as nat)) by (nonlinear_arith);
            }
        }
        assert((p * u) * w == p * (u * w)) by (nonlinear_arith);
    } else {
        let f = (-e) as nat;
        let v = pow2(f);
        assert(over(p, -e) == p);
        assert(under(1, -e) == v) by {
            assert(1 * v == v) by (nonlinear_arith);
        }
        if t > f {
            let g = (t - f) as nat;
            lemma_pow2_sum(f, g);
            assert(f + g == t);
            assert(under(v, e + t) == w);
        } else {
            let g = (f - t) as nat;
            lemma_pow2_sum(g, t);
            assert(g + t == f);
            let u = pow2(g);
            assert(over(p, e + t) == p * u) by {
                if g == 0 {
                    assert(p * 1 == p) by (nonlinear_arith);
                }
            }
            assert((p * u) * w == p * (u * w)) by (nonlinear_arith);
        }
    }
}

proof fn lemma_value(a: nat, b: nat, e: int, m: nat)
    ensures
        over(m, -e) * b * over(a, e) == a * under(1, -e) * (m * under(b, e)),
{
    if e > 0 {
        let p = pow2(e as nat);
        assert((m * p) * b * a == a * 1 * (m * (b * p))) by (nonlinear_arith);
    } else if e < 0 {
        let p = pow2((-e) as nat);
        assert(m * b * (a * p) == a * (1 * p) * (m * b)) by (nonlinear_arith);
    } else {
        assert(m * b * a == a * 1 * (m * b)) by (nonlinear_arith);
    }
}

/// The nearest number is off by one part in `2^53` at most.
pub proof fn lemma_close(a: nat, b: nat)
    requires
        a > 0,
        b > 0,
    ensures
        ({
            let d = nearest(a, b);
            let off = d.upper() * b - a * d.lower();
            &&& TWO_52 <= d.mantissa <= TWO_53
            &&& d.lower() > 0
            &&& d.upper() > 0
            &&& TWO_53 * off <= a * d.lower()
            &&& -(TWO_53 * off) <= a * d.lower()
        }),
{
    lemma_exponent_exists(a, b);
    let e = choose|e: int| has_exponent(a, b, e);
    let (x, y) = (over(a, e), under(b, e));
    lemma_positive(a, b, e);
    lemma_half_even(x, y);
    let m = half_even(x, y);
    assert(TWO_52 as nat * y <= x);
    assert(x <= TWO_53 as nat * y);
    lemma_positive(m, 1, -e);
    lemma_value(a, b, e, m);
    let d = nearest(a, b);
    let (o, u) = (d.upper(), d.lower());
    let off = o * b - a * u;
    let g = a * u;
    let h = m * y;
    let k = o * b;
    assert(k * x == g * h);
    assert(9_007_199_254_740_992 * off <= g) by {
        assert(off * x == g * (h - x)) by (nonlinear_arith)
            requires
                k * x == g * h,
                off == k - g,
        ;
        assert(9_007_199_254_740_992 * (h - x) <= x);
        assert(9_007_199_254_740_992 * (g * (h - x)) <= g * x) by (nonlinear_arith)
            requires
                9_007_199_254_740_992 * (h - x) <= x,
                g >= 0,
        ;
        assert(9_007_199_254_740_992 * (off * x) == (9_007_199_254_740_992 * off) * x)
            by (nonlinear_arith);
        assert((9_007_199_254_740_992 * off) * x <= g * x);
        assert(9_007_199_254_740_992 * off <= g) by (nonlinear_arith)
            requires
                (9_007_199_254_740_992 * off) * x <= g * x,
                x > 0,
        ;
    }
    assert(-(9_007_199_254_740_992 * off) <= g) by {
        assert(off * x == g * (h - x)) by (nonlinear_arith)
            requires
                k * x == g * h,
                off == k - g,
        ;
        assert(9_007_199_254_740_992 * (x - h) <= x);
        assert(9_007_199_254_740_992 * (g * (x - h)) <= g * x) by (nonlinear_arith)
            requires
                9_007_199_254_740_992 * (x - h) <= x,
                g >= 0,
        ;
        assert(g * (x - h) == -(off * x)) by (nonlinear_arith)
            requires
                off * x == g * (h - x),
        ;
        assert(-(9_007_199_254_740_992 * (off * x)) == (-(9_007_199_254_740_992 * off)) * x)
            by (nonlinear_arith);
        assert((-(9_007_199_254_740_992 * off)) * x <= g * x);
        assert(-(9_007_199_254_740_992 * off) <= g) by (nonlinear_arith)
            requires
                (-(9_007_199_254_740_992 * off)) * x <= g * x,
                x > 0,
        ;
    }
}

/// Zero stays zero.
pub proof fn lemma_zero(b: nat, n: nat)
    ensures
        nearest(0, b).times(n).whole() == 0,
{
    let d = nearest(0, b);
    assert(d.upper() == 0 && d.lower() == 1);
    assert(0 * n == 0) by (nonlinear_arith);
    let f = d.times(n);
    assert(f.upper() == 0 && f.lower() == 1);
    assert(f.whole() == (2 * f.upper() + f.lower()) / (2 * f.lower()));
    assert(1nat / 2 == 0);
}

/// What is less than `10^-22` is nothing in the end.
pub proof fn lemma_small(a: nat, b: nat, n: nat)
    requires
        0 < a,
        a * 10_000_000_000_000_000_000_000 < b,
        1 <= n <= 1_200_000_000_000_000_000_000,
    ensures
        nearest(a, b).times(n).whole() == 0,
{
    let d = nearest(a, b);
    let (o, u) = (d.upper(), d.lower());
    lemma_close(a, b);
    assert(o * b <= 2 * (a * u));
    assert(o * 10_000_000_000_000_000_000_000 < 2 * u) by (nonlinear_arith)
        requires
            o * b <= 2 * (a * u),
            a * 10_000_000_000_000_000_000_000 < b,
            u > 0,
            o > 0,
    ;
    assert(o * n > 0) by (nonlinear_arith)
        requires
            o > 0,
            n > 0,
    ;
    lemma_close(o * n, u);
    let f = d.times(n);
    let (p, v) = (f.upper(), f.lower());
    assert(p * u <= 2 * ((o * n) * v));
    assert(2 * p < v) by {
        let c = 10_000_000_000_000_000_000_000int;
        assert((o * n) * v == (o * v) * n) by (nonlinear_arith);
        assert((o * v) * n <= (o * v) * 1_200_000_000_000_000_000_000) by (nonlinear_arith)
            requires
                n <= 1_200_000_000_000_000_000_000,
                o > 0,
                v > 0,
        ;
        assert(p * u <= 2_400_000_000_000_000_000_000 * (o * v));
        assert((o * v) * c <= 2 * u * v) by (nonlinear_arith)
            requires
                o * c < 2 * u,
                v > 0,
        ;
        assert(c * (p * u) <= 2_400_000_000_000_000_000_000 * (2 * u * v)) by (nonlinear_arith)
            requires
                p * u <= 2_400_000_000_000_000_000_000 * (o * v),
                (o * v) * c <= 2 * u * v,
                c > 0,
        ;
        assert(c * p <= 4_800_000_000_000_000_000_000 * v) by (nonlinear_arith)
            requires
                c * (p * u) <= 2_400_000_000_000_000_000_000 * (2 * u * v),
                u > 0,
        ;
    }
    assert((2 * p + v) / (2 * v) == 0) by (nonlinear_arith)
        requires
            2 * p < v,
    ;
}

proof fn lemma_large_once(a: nat, b: nat, j: nat)
    requires
        b > 0,
        a >= TWO_52 * pow2(j) * b,
    ensures
        nearest(a, b).upper() >= TWO_52 * pow2(j) * nearest(a, b).lower(),
        nearest(a, b).lower() > 0,
{
    let w = pow2(j);
    lemma_pow2(j);
    assert(TWO_52 * w * b > 0) by (nonlinear_arith)
        requires
            TWO_52 == 4_503_599_627_370_496,
            w > 0,
            b > 0,
    ;
    lemma_close(a, b);
    lemma_exponent_exists(a, b);
    let e = choose|e: int| has_exponent(a, b, e);
    assert(TWO_52 * under(b, j as int) <= a) by {
        assert(under(b, j as int) == b * w) by {
            if j == 0 {
                assert(b * 1 == b) by (nonlinear_arith);
            }
        }
        assert(TWO_52 * (b * w) == TWO_52 * w * b) by (nonlinear_arith);
    }
    assert(!is_below(a, b, j as int));
    if e < j {
        lemma_below_next(a, b, e);
        lemma_below(a, b, e + 1, j as int);
    }
    lemma_pow2_increases(j, e as nat);
    let m = nearest(a, b).mantissa;
    let p = pow2(e as nat);
    assert(nearest(a, b).upper() == m * p) by {
        if e == 0 {
            assert(m * 1 == m) by (nonlinear_arith);
        }
    }
    assert(m * p >= TWO_52 * w) by (nonlinear_arith)
        requires
            m >= TWO_52,
            p >= w,
    ;
    assert(nearest(a, b).lower() == 1);
}

/// What is at least `2^52` times a power of two stays so.
pub proof fn lemma_large(a: nat, b: nat, n: nat, j: nat)
    requires
        b > 0,
        a >= TWO_52 * pow2(j) * b,
        n >= 1,
    ensures
        nearest(a, b).times(n).whole() >= TWO_52 * pow2(j),
{
    let d = nearest(a, b);
    let (o, u) = (d.upper(), d.lower());
    lemma_large_once(a, b, j);
    assert(o * n >= o) by (nonlinear_arith)
        requires
            n >= 1,
    ;
    lemma_large_once(o * n, u, j);
    let f = d.times(n);
    let (p, v) = (f.upper(), f.lower());
    let c = TWO_52 * pow2(j);
    assert((2 * p + v) / (2 * v) >= c) by (nonlinear_arith)
        requires
            p >= c * v,
            v > 0,
    ;
}

/// `n` times a number comes out within a half of what it is exactly, give or
/// take one part in `2^51`.
pub proof fn law_products_are_close(a: nat, b: nat, n: nat)
    requires
        b > 0,
        n > 0,
    ensures
        ({
            let off = nearest(a, b).times(n).whole() * b - a * n;
            &&& 2 * TWO_52 * off <= TWO_52 * b + 4 * (a * n)
            &&& -(2 * TWO_52 * off) <= TWO_52 * b + 4 * (a * n)
        }),
{
    let d = nearest(a, b);
    let (o, u) = (d.upper(), d.lower());
    let f = d.times(n);
    let (p, v) = (f.upper(), f.lower());
    let w = f.whole();
    if a == 0 {
        lemma_zero(b, n);
        assert(w * b - a * n == 0) by (nonlinear_arith)
            requires
                w == 0,
                a == 0,
        ;
    } else {
        lemma_close(a, b);
        assert(o * n > 0) by (nonlinear_arith)
            requires
                o > 0,
                n > 0,
        ;
        lemma_close(o * n, u);
        lemma_rounded_close(p, v, w);
        lemma_two_roundings(a, b, n, o, u, p, v, w);
    }
}

proof fn lemma_rounded_close(p: nat, v: nat, w: nat)
    requires
        v > 0,
        w == (2 * p + v) / (2 * v),
    ensures
        2 * (w * v) <= 2 * p + v,
        2 * p <= 2 * (w * v) + v,
{
    let r = (2 * p + v) % (2 * v);
    lemma_fundamental_div_mod((2 * p + v) as int, (2 * v) as int);
    assert(2 * p + v == 2 * (w * v) + r) by (nonlinear_arith)
        requires
            2 * p + v == (2 * v) * w + r,
    ;
    assert(0 <= r < 2 * v);
}

proof fn lemma_two_roundings(
    a: nat,
    b: nat,
    n: nat,
    o: nat,
    u: nat,
    p: nat,
    v: nat,
    w: nat,
)
    requires
        b > 0,
        u > 0,
        v > 0,
        TWO_53 * (o * b - a * u) <= a * u,
        -(TWO_53 * (o * b - a * u)) <= a * u,
        TWO_53 * (p * u - (o * n) * v) <= (o * n) * v,
        -(TWO_53 * (p * u - (o * n) * v)) <= (o * n) * v,
        2 * (w * v) <= 2 * p + v,
        2 * p <= 2 * (w * v) + v,
    ensures
        2 * TWO_52 * (w * b - a * n) <= TWO_52 * b + 4 * (a * n),
        -(2 * TWO_52 * (w * b - a * n)) <= TWO_52 * b + 4 * (a * n),
{
    let c = TWO_53 as int;
    // Everything over the common lower part `u * v * b`.
    let s = u * v;
    let exact = a * n * s;
    let once = o * n * v * b;
    let twice = p * u * b;
    let done = w * b * s;
    assert(n * v * (o * b) == once && n * v * (a * u) == exact) by (nonlinear_arith)
        requires
            once == o * n * v * b,
            exact == a * n * s,
            s == u * v,
    ;
    let nv = n * v;
    assert(c * (once - exact) <= exact && -(c * (once - exact)) <= exact) by (nonlinear_arith)
        requires
            c * (o * b - a * u) <= a * u,
            -(c * (o * b - a * u)) <= a * u,
            nv * (o * b) == once,
            nv * (a * u) == exact,
            nv >= 0,
    ;
    assert(c * (twice - once) <= once && -(c * (twice - once)) <= once) by (nonlinear_arith)
        requires
            c * (p * u - (o * n) * v) <= (o * n) * v,
            -(c * (p * u - (o * n) * v)) <= (o * n) * v,
            twice == p * u * b,
            once == o * n * v * b,
            b > 0,
    ;
    let half = s * b;
    assert(2 * done <= 2 * twice + half && 2 * twice <= 2 * done + half) by {
        let ub = u * b;
        assert(w * b * (u * v) == (w * v) * ub && p * u * b == p * ub && (u * v) * b == v * ub)
            by (nonlinear_arith)
            requires
                ub == u * b,
        ;
        assert((2 * (w * v)) * ub <= (2 * p + v) * ub && (2 * p) * ub <= (2 * (w * v) + v) * ub)
            by (nonlinear_arith)
            requires
                2 * (w * v) <= 2 * p + v,
                2 * p <= 2 * (w * v) + v,
                ub >= 0,
        ;
        assert((2 * p + v) * ub == 2 * (p * ub) + v * ub) by (nonlinear_arith);
        assert((2 * (w * v) + v) * ub == 2 * ((w * v) * ub) + v * ub) by (nonlinear_arith);
        assert((2 * (w * v)) * ub == 2 * ((w * v) * ub)) by (nonlinear_arith);
        assert((2 * p) * ub == 2 * (p * ub)) by (nonlinear_arith);
    }
    assert(c * (done - exact) <= c * half / 2 + 2 * exact + exact);
    let off = w * b - a * n;
    assert(done - exact == off * s) by (nonlinear_arith)
        requires
            done == w * b * s,
            exact == a * n * s,
            off == w * b - a * n,
    ;
    let bound = TWO_52 * b + 4 * (a * n);
    assert(TWO_52 * half + 4 * exact == bound * s) by (nonlinear_arith)
        requires
            bound == TWO_52 * b + 4 * (a * n),
            half == s * b,
            exact == a * n * s,
    ;
    assert(s > 0) by (nonlinear_arith)
        requires
            s == u * v,
            u > 0,
            v > 0,
    ;
    assert(c * (done - exact) <= TWO_52 * half + 4 * exact);
    assert(-(c * (done - exact)) <= TWO_52 * half + 4 * exact);
    assert(c * off <= bound) by (nonlinear_arith)
        requires
            c * (off * s) <= bound * s,
            s > 0,
    ;
    assert(-(c * off) <= bound) by (nonlinear_arith)
        requires
            -(c * (off * s)) <= bound * s,
            s > 0,
    ;
}

fn power(n: i128) -> (p: u128)
    requires
        0 <= n <= 60,
    ensures
        p == pow2(n as nat),
        p <= 1_152_921_504_606_846_976,
{
    let mut p: u128 = 1;
    let mut i: i128 = 0;
    proof {
        assert(pow2(60) == 1_152_921_504_606_846_976) by {
            reveal_with_fuel(pow2, 61);
        }
        lemma_pow2_increases(n as nat, 60);
    }
    while i < n
        invariant
            0 <= i <= n <= 60,
            p == pow2(i as nat),
            pow2(60) == 1_152_921_504_606_846_976,
        decreases n - i,
    {
        proof {
            lemma_pow2_increases(i as nat, 60);
        }
        p = 2 * p;
        i += 1;
    }
    p
}

fn round_half_even(a: u128, b: u128) -> (r: u128)
    requires
        b > 0,
        a <= 20_000_000_000_000_000_000_000_000_000_000_000_000,
        b <= 20_000_000_000_000_000_000_000_000_000_000_000_000,
    ensures
        r == half_even(a as nat, b as nat),
{
    let q: u128 = a / b;
    let r: u128 = a % b;
    assert(q <= a) by (nonlinear_arith)
        requires
            q == a / b,
            b > 0,
    ;
    if 2 * r < b || (2 * r == b && q % 2 == 0) {
        q
    } else {
        q + 1
    }
}

/// What is above this is no `i64`, whatever it is.
pub const LIMIT: u128 = 18_446_744_073_709_551_616;

proof fn lemma_whole_above(m: nat, x: nat)
    ensures
        (Double { mantissa: m, exponent: x as int }).whole() == m * pow2(x),
{
    let d = Double { mantissa: m, exponent: x as int };
    let w = m * pow2(x);
    if x == 0 {
        assert(m * 1 == m) by (nonlinear_arith);
    }
    assert(d.upper() == w && d.lower() == 1);
    assert((2 * w + 1) / 2 == w);
}

proof fn lemma_whole_below(m: nat, f: nat)
    requires
        f > 0,
    ensures
        (Double { mantissa: m, exponent: -(f as int) }).whole() == (2 * m + pow2(f)) / (2 * pow2(
            f,
        )),
{
    let d = Double { mantissa: m, exponent: -(f as int) };
    let w = pow2(f);
    assert(1 * w == w) by (nonlinear_arith);
    assert(d.upper() == m && d.lower() == w);
}

proof fn lemma_far_above(m: nat, x: nat)
    requires
        TWO_52 <= m,
        x > 12,
    ensures
        (Double { mantissa: m, exponent: x as int }).whole() > LIMIT,
{
    lemma_whole_above(m, x);
    lemma_pow2_increases(13, x);
    assert(pow2(13) == 8192) by {
        reveal_with_fuel(pow2, 14);
    }
    let w = pow2(x);
    assert(m * w >= 4_503_599_627_370_496 * 8192) by (nonlinear_arith)
        requires
            m >= 4_503_599_627_370_496,
            w >= 8192,
    ;
}

proof fn lemma_near_above(m: nat, x: nat)
    requires
        m <= TWO_53,
        x <= 12,
    ensures
        m * pow2(x) <= 2 * LIMIT,
{
    lemma_pow2_increases(x, 12);
    assert(pow2(12) == 4096) by {
        reveal_with_fuel(pow2, 13);
    }
    let w = pow2(x);
    assert(m * w <= 9_007_199_254_740_992 * 4096) by (nonlinear_arith)
        requires
            m <= 9_007_199_254_740_992,
            w <= 4096,
    ;
}

proof fn lemma_far_below(m: nat, f: nat)
    requires
        m <= TWO_53,
        f > 60,
    ensures
        (Double { mantissa: m, exponent: -(f as int) }).whole() == 0,
{
    lemma_whole_below(m, f);
    lemma_pow2_increases(61, f);
    assert(pow2(61) == 2_305_843_009_213_693_952) by {
        reveal_with_fuel(pow2, 62);
    }
    let w = pow2(f);
    assert((2 * m + w) / (2 * w) == 0) by (nonlinear_arith)
        requires
            2 * m < w,
    ;
}

fn halved(m: u128, w: u128) -> (r: u128)
    requires
        m <= TWO_53,
        1 <= w <= 1_152_921_504_606_846_976,
    ensures
        r as nat == (2 * m as nat + w as nat) / (2 * w as nat),
        r <= LIMIT,
{
    let n: u128 = 2 * m + w;
    assert(n as int / (2 * w as int) <= n) by (nonlinear_arith)
        requires
            w >= 1,
            n >= 0,
    ;
    n / (2 * w)
}

/// The nearest whole number to `m * 2^x`; only a bound where that is above the
/// limit.
fn to_whole(m: u128, x: i128) -> (r: u128)
    requires
        TWO_52 <= m <= TWO_53,
        -100_000_000_000_000_000_000_000_000_000_000_000_000 <= x,
    ensures
        r <= 4 * LIMIT,
        ({
            let w = (Double { mantissa: m as nat, exponent: x as int }).whole();
            r == w || (r > LIMIT && w > LIMIT)
        }),
{
    if x > 12 {
        proof {
            lemma_far_above(m as nat, x as nat);
        }
        return LIMIT + 1;
    }
    if x >= 0 {
        let w: u128 = power(x);
        proof {
            lemma_whole_above(m as nat, x as nat);
            lemma_near_above(m as nat, x as nat);
        }
        return m * w;
    }
    if -x > 60 {
        proof {
            lemma_far_below(m as nat, (-x) as nat);
        }
        return 0;
    }
    let w: u128 = power(-x);
    proof {
        lemma_pow2((-x) as nat);
        lemma_whole_below(m as nat, (-x) as nat);
    }
    halved(m, w)
}

/// `factor` times the number `mantissa * 2^exponent`, to the nearest number
/// and then to the nearest whole number; only a bound where that is above the
/// limit.
pub fn times_whole(mantissa: u128, exponent: i128, factor: u128) -> (r: u128)
    requires
        TWO_52 <= mantissa <= TWO_53,
        1 <= factor <= 1_200_000_000_000_000_000_000,
        -50_000_000_000_000_000_000_000_000_000_000_000_000 <= exponent
            <= 50_000_000_000_000_000_000_000_000_000_000_000_000,
    ensures
        r <= 4 * LIMIT,
        ({
            let d = Double { mantissa: mantissa as nat, exponent: exponent as int };
            let w = d.times(factor as nat).whole();
            r == w || (r > LIMIT && w > LIMIT)
        }),
{
    let ghost given = Double { mantissa: mantissa as nat, exponent: exponent as int };
    let ghost e = exponent as int;
    assert(mantissa <= mantissa * factor <= 9_007_199_254_740_992 * factor) by (nonlinear_arith)
        requires
            mantissa <= 9_007_199_254_740_992,
            1 <= factor,
    ;
    let p: u128 = mantissa * factor;
    let mut d: u128 = 1;
    let mut t: i128 = 0;
    while p >= TWO_53 * d
        invariant
            TWO_52 * d <= p <= 11_000_000_000_000_000_000_000_000_000_000_000_000,
            0 <= t < d,
            d == pow2(t as nat),
        decreases p - d,
    {
        d = 2 * d;
        t += 1;
    }
    let m: u128 = round_half_even(p, d);
    let x: i128 = exponent + t;
    let ghost found = given.times(factor as nat);
    proof {
        let a = over(p as nat, -e);
        let b = under(1, -e);
        lemma_positive(p as nat, 1, -e);
        lemma_shift(p as nat, e, t as nat);
        lemma_exponent_same(a, b, x as int, p as nat, d as nat);
        lemma_nearest(a, b, x as int);
        assert(given.upper() * factor == a) by {
            let w = pow2(e as nat);
            if e > 0 {
                assert((mantissa * w) * factor == (mantissa * factor) * w) by (nonlinear_arith);
            }
        }
        assert(found == (Double { mantissa: m as nat, exponent: x as int }));
        lemma_half_even(p as nat, d as nat);
        assert(TWO_52 as nat * d as nat <= p);
        assert(p <= TWO_53 as nat * d as nat);
        assert(TWO_52 <= m <= TWO_53);
    }
    to_whole(m, x)
}

} // verus!
