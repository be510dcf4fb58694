use vstd::prelude::*;

use vstd::arithmetic::div_mod::{
    lemma_div_is_ordered, lemma_div_multiples_vanish, lemma_div_pos_is_pos,
    lemma_fundamental_div_mod, lemma_fundamental_div_mod_converse, lemma_mod_bound,
};
use vstd::arithmetic::mul::{
    lemma_mul_inequality, lemma_mul_unary_negation, lemma_mul_upper_bound,
};
use vstd::arithmetic::power2::{lemma_pow2_pos, lemma_pow2_strictly_increases, pow2};

verus! {

/// One logical unit of the fixed-point score domain: scores, weights and
/// attribute values are integers counted in millionths of a unit.
pub const SCALE: i64 = 1_000_000;

/// ln 2 in the fixed-point domain, rounded down.
pub const LN2_FX: i64 = 693_147;

/// Largest admitted magnitude of a feature weight.
pub const WEIGHT_BOUND: i64 = 10_000_000_000;

/// Largest admitted attribute value (values are non-negative).
pub const VALUE_BOUND: i64 = 100_000_000;

/// Largest magnitude of one state-feature contribution:
/// `WEIGHT_BOUND * VALUE_BOUND / SCALE`.
pub const CONTRIB_BOUND: i64 = 1_000_000_000_000;

/// Largest number of attributes one item may carry.
pub const MAX_ITEM_ATTRS: usize = 1000;

/// Largest magnitude of one per-position state score:
/// `MAX_ITEM_ATTRS` contributions of at most `CONTRIB_BOUND` each.
pub const STATE_BOUND: i64 = 1_000_000_000_000_000;

/// Floor division of a non-positive dividend: `(-m) / b` rounds away from zero.
pub proof fn lemma_div_neg(m: int, b: int)
    requires
        m >= 1,
        b >= 1,
    ensures
        (-m) / b == -((m + b - 1) / b),
{
    let q = (m + b - 1) / b;
    let r = (m + b - 1) % b;
    lemma_fundamental_div_mod(m + b - 1, b);
    lemma_mod_bound(m + b - 1, b);
    assert(-m == (-q) * b + (b - 1 - r)) by {
        lemma_mul_unary_negation(q, b);
    }
    lemma_fundamental_div_mod_converse(-m, b, -q, b - 1 - r);
}

/// Floor division of a signed 128-bit value by a positive divisor.  Because
/// the divisor is positive, flooring agrees with the Euclidean `/` of the
/// specification language.
pub(crate) fn floor_div_i128(p: i128, b: i128) -> (r: i128)
    requires
        1 <= b <= 0x4000_0000_0000_0000_0000_0000_0000_0000i128,
        -0x4000_0000_0000_0000_0000_0000_0000_0000i128 <= p
            <= 0x4000_0000_0000_0000_0000_0000_0000_0000i128,
    ensures
        r == p as int / b as int,
{
    if p >= 0 {
        let q: u128 = (p as u128) / (b as u128);
        proof {
            lemma_div_pos_is_pos(p as int, b as int);
            vstd::arithmetic::div_mod::lemma_div_nonincreasing(p as int, b as int);
        }
        q as i128
    } else {
        let m: u128 = (-p) as u128;
        let q: u128 = (m + (b as u128) - 1) / (b as u128);
        proof {
            lemma_div_neg(m as int, b as int);
            lemma_div_pos_is_pos((m as int + b as int - 1), b as int);
            assert((m as int + b as int - 1) / b as int <= (m as int + b as int - 1)) by {
                vstd::arithmetic::div_mod::lemma_div_nonincreasing(
                    m as int + b as int - 1,
                    b as int,
                );
            }
        }
        -((q as i128))
    }
}

/// One state-feature contribution: weight times attribute value, rescaled back
/// into the fixed-point domain (rounded toward minus infinity).
pub open spec fn contrib_spec(w: int, v: int) -> int {
    (w * v) / (SCALE as int)
}

/// Multiplies a weight by a non-negative attribute value and rescales.
pub(crate) fn fx_contrib(w: i64, v: i64) -> (r: i64)
    requires
        -WEIGHT_BOUND <= w <= WEIGHT_BOUND,
        0 <= v <= VALUE_BOUND,
    ensures
        r == contrib_spec(w as int, v as int),
        -CONTRIB_BOUND <= r <= CONTRIB_BOUND,
{
    proof {
        // |w * v| is at most WEIGHT_BOUND * VALUE_BOUND, one quintillion
        lemma_mul_inequality(w as int, WEIGHT_BOUND as int, v as int);
        lemma_mul_inequality(-(WEIGHT_BOUND as int), w as int, v as int);
        lemma_mul_unary_negation(WEIGHT_BOUND as int, v as int);
        assert(WEIGHT_BOUND as int * v as int <= 1_000_000_000_000_000_000int) by {
            lemma_mul_inequality(v as int, VALUE_BOUND as int, WEIGHT_BOUND as int);
            vstd::arithmetic::mul::lemma_mul_is_commutative(WEIGHT_BOUND as int, v as int);
            assert(WEIGHT_BOUND as int * VALUE_BOUND as int == 1_000_000_000_000_000_000int)
                by (nonlinear_arith);
            vstd::arithmetic::mul::lemma_mul_is_commutative(
                WEIGHT_BOUND as int,
                VALUE_BOUND as int,
            );
        }
    }
    let p: i128 = (w as i128) * (v as i128);
    let q = floor_div_i128(p, SCALE as i128);
    proof {
        lemma_div_is_ordered(-1_000_000_000_000_000_000int, p as int, SCALE as int);
        lemma_div_is_ordered(p as int, 1_000_000_000_000_000_000int, SCALE as int);
        lemma_div_neg(1_000_000_000_000_000_000int, SCALE as int);
    }
    q as i64
}

/// One contribution stays within `CONTRIB_BOUND` for bounded weight and value.
pub proof fn lemma_contrib_spec_bound(w: int, v: int)
    requires
        -WEIGHT_BOUND <= w <= WEIGHT_BOUND,
        0 <= v <= VALUE_BOUND,
    ensures
        -CONTRIB_BOUND <= contrib_spec(w, v) <= CONTRIB_BOUND,
{
    lemma_mul_inequality(w, WEIGHT_BOUND as int, v);
    lemma_mul_inequality(-(WEIGHT_BOUND as int), w, v);
    lemma_mul_unary_negation(WEIGHT_BOUND as int, v);
    assert(WEIGHT_BOUND as int * v <= 1_000_000_000_000_000_000int) by {
        lemma_mul_inequality(v, VALUE_BOUND as int, WEIGHT_BOUND as int);
        vstd::arithmetic::mul::lemma_mul_is_commutative(WEIGHT_BOUND as int, v);
        assert(WEIGHT_BOUND as int * VALUE_BOUND as int == 1_000_000_000_000_000_000int)
            by (nonlinear_arith);
        vstd::arithmetic::mul::lemma_mul_is_commutative(WEIGHT_BOUND as int, VALUE_BOUND as int);
    }
    lemma_div_is_ordered(-1_000_000_000_000_000_000int, w * v, SCALE as int);
    lemma_div_is_ordered(w * v, 1_000_000_000_000_000_000int, SCALE as int);
    lemma_div_neg(1_000_000_000_000_000_000int, SCALE as int);
}

/// The truncated Taylor expansion of `exp(-r)` in the fixed-point domain, for
/// `0 <= r < LN2_FX`: six alternating terms, each rescaled by flooring.
pub open spec fn exp_series(r: int) -> int {
    let m1 = r;
    let m2 = (r * m1) / (2 * SCALE as int);
    let m3 = (r * m2) / (3 * SCALE as int);
    let m4 = (r * m3) / (4 * SCALE as int);
    let m5 = (r * m4) / (5 * SCALE as int);
    let m6 = (r * m5) / (6 * SCALE as int);
    SCALE - m1 + m2 - m3 + m4 - m5 + m6
}

/// The series terms alternate and shrink, so the sum stays in `(0, SCALE]`,
/// and is exactly `SCALE` at `r == 0`.
pub proof fn lemma_exp_series_range(r: int)
    requires
        0 <= r < LN2_FX,
    ensures
        0 < exp_series(r) <= SCALE,
        r == 0 ==> exp_series(r) == SCALE,
{
    let s = SCALE as int;
    let m1 = r;
    let m2 = (r * m1) / (2 * s);
    let m3 = (r * m2) / (3 * s);
    let m4 = (r * m3) / (4 * s);
    let m5 = (r * m4) / (5 * s);
    let m6 = (r * m5) / (6 * s);
    lemma_series_step(r, m1, 2);
    lemma_series_step(r, m2, 3);
    lemma_series_step(r, m3, 4);
    lemma_series_step(r, m4, 5);
    lemma_series_step(r, m5, 6);
    if r == 0 {
        assert(exp_series(0) == SCALE as int);
    }
}

/// One step of the series: the next term is non-negative and no larger than
/// the previous one.
proof fn lemma_series_step(r: int, m: int, c: int)
    requires
        0 <= r < SCALE,
        0 <= m,
        2 <= c <= 6,
    ensures
        0 <= (r * m) / (c * SCALE as int) <= m,
{
    let s = SCALE as int;
    lemma_mul_inequality(r, c * s, m);
    assert(r * m <= (c * s) * m);
    lemma_div_pos_is_pos(r * m, c * s);
    lemma_div_is_ordered(r * m, (c * s) * m, c * s);
    assert(((c * s) * m) / (c * s) == m) by {
        lemma_div_multiples_vanish(m, c * s);
        vstd::arithmetic::mul::lemma_mul_is_commutative(c * s, m);
    }
}

/// `exp(x)` for a non-positive fixed-point `x`: the argument is split as
/// `-x == q * ln 2 + r`, the series gives `exp(-r)`, and the result is divided
/// by `2^q`.  Arguments below about -13.8 units flush to zero.
pub open spec fn exp_fx_spec(x: int) -> int {
    let n = -x;
    let q = n / (LN2_FX as int);
    let r = n % (LN2_FX as int);
    if q >= 20 {
        0
    } else {
        exp_series(r) / pow2(q as nat) as int
    }
}

/// The fixed-point `exp` of a non-positive argument lies in `[0, SCALE]`,
/// and is exactly one unit at zero.
pub proof fn lemma_exp_fx_spec_range(x: int)
    requires
        x <= 0,
    ensures
        0 <= exp_fx_spec(x) <= SCALE,
        x == 0 ==> exp_fx_spec(x) == SCALE,
{
    let n = -x;
    let q = n / (LN2_FX as int);
    let r = n % (LN2_FX as int);
    lemma_mod_bound(n, LN2_FX as int);
    lemma_div_pos_is_pos(n, LN2_FX as int);
    if q < 20 {
        lemma_exp_series_range(r);
        lemma_pow2_pos(q as nat);
        lemma_div_pos_is_pos(exp_series(r), pow2(q as nat) as int);
        vstd::arithmetic::div_mod::lemma_div_nonincreasing(exp_series(r), pow2(q as nat) as int);
        if x == 0 {
            vstd::arithmetic::power2::lemma2_to64();
            vstd::arithmetic::div_mod::lemma_div_basics(exp_series(0));
        }
    }
}

/// Fixed-point `exp` of a non-positive score difference.
pub(crate) fn exp_fx(x: i64) -> (r: i64)
    requires
        -0x4000_0000_0000_0000i64 <= x <= 0,
    ensures
        r == exp_fx_spec(x as int),
        0 <= r <= SCALE,
        x == 0 ==> r == SCALE,
{
    let n: u64 = (-x) as u64;
    let q: u64 = n / (LN2_FX as u64);
    let rem: u64 = n % (LN2_FX as u64);
    proof {
        lemma_mod_bound(n as int, LN2_FX as int);
        lemma_div_pos_is_pos(n as int, LN2_FX as int);
    }
    if q >= 20 {
        proof {
            lemma_exp_series_range(rem as int);
            lemma_pow2_pos(q as nat);
        }
        return 0;
    }
    let s = SCALE as u64;
    let m1: u64 = rem;
    proof {
        lemma_mul_upper_bound(rem as int, SCALE as int, m1 as int, SCALE as int);
        lemma_series_step(rem as int, m1 as int, 2);
    }
    let m2: u64 = (rem * m1) / (2 * s);
    proof {
        lemma_mul_upper_bound(rem as int, SCALE as int, m2 as int, SCALE as int);
        lemma_series_step(rem as int, m2 as int, 3);
    }
    let m3: u64 = (rem * m2) / (3 * s);
    proof {
        lemma_mul_upper_bound(rem as int, SCALE as int, m3 as int, SCALE as int);
        lemma_series_step(rem as int, m3 as int, 4);
    }
    let m4: u64 = (rem * m3) / (4 * s);
    proof {
        lemma_mul_upper_bound(rem as int, SCALE as int, m4 as int, SCALE as int);
        lemma_series_step(rem as int, m4 as int, 5);
    }
    let m5: u64 = (rem * m4) / (5 * s);
    proof {
        lemma_mul_upper_bound(rem as int, SCALE as int, m5 as int, SCALE as int);
        lemma_series_step(rem as int, m5 as int, 6);
    }
    let m6: u64 = (rem * m5) / (6 * s);
    let t: u64 = s - m1 + m2 - m3 + m4 - m5 + m6;
    proof {
        lemma_exp_series_range(rem as int);
        assert(t as int == exp_series(rem as int));
    }
    // 2^q by repeated doubling, so the quotient matches the specification
    let mut p: u64 = 1;
    let mut i: u64 = 0;
    proof {
        vstd::arithmetic::power2::lemma2_to64();
    }
    while i < q
        invariant
            0 <= i <= q < 20,
            p == pow2(i as nat),
        decreases q - i,
    {
        proof {
            lemma_pow2_strictly_increases(i as nat, 20);
            vstd::arithmetic::power2::lemma2_to64();
        }
        p = p * 2;
        i = i + 1;
        proof {
            vstd::arithmetic::power2::lemma_pow2_unfold(i as nat);
        }
    }
    proof {
        lemma_pow2_pos(q as nat);
        lemma_pow2_strictly_increases(q as nat, 20);
        vstd::arithmetic::power2::lemma2_to64();
        lemma_div_pos_is_pos(t as int, p as int);
        lemma_div_is_ordered(t as int, SCALE as int, p as int);
        vstd::arithmetic::div_mod::lemma_div_nonincreasing(t as int, p as int);
        if x == 0 {
            assert(exp_series(0) == SCALE as int);
            assert(p == 1);
            vstd::arithmetic::div_mod::lemma_div_basics(t as int);
        }
    }
    let out: u64 = t / p;
    out as i64
}

/// Number of halvings that bring `t` below `2 * SCALE`.
pub open spec fn ln_halvings(t: int) -> nat
    recommends
        t >= 0,
    decreases t via ln_halvings_decreases
{
    if t < 2 * SCALE as int || t < 0 {
        0
    } else {
        1 + ln_halvings(t / 2)
    }
}

#[via_fn]
proof fn ln_halvings_decreases(t: int) {
    if !(t < 2 * SCALE as int || t < 0) {
        lemma_div_pos_is_pos(t, 2);
        vstd::arithmetic::div_mod::lemma_div_decreases(t, 2);
    }
}

/// The mantissa left over after those halvings.
pub open spec fn ln_mantissa(t: int) -> int
    recommends
        t >= 0,
    decreases t via ln_mantissa_decreases
{
    if t < 2 * SCALE as int || t < 0 {
        t
    } else {
        ln_mantissa(t / 2)
    }
}

#[via_fn]
proof fn ln_mantissa_decreases(t: int) {
    if !(t < 2 * SCALE as int || t < 0) {
        lemma_div_pos_is_pos(t, 2);
        vstd::arithmetic::div_mod::lemma_div_decreases(t, 2);
    }
}

/// Truncated `ln` series on a mantissa `t` in `[SCALE, 2 * SCALE)`, via
/// `ln t = 2 * atanh((t - 1) / (t + 1))` in the fixed-point domain.
pub open spec fn ln_series(t: int) -> int {
    let z = t - SCALE as int;
    let u = (z * SCALE as int) / (2 * SCALE as int + z);
    let u2 = (u * u) / (SCALE as int);
    let u3 = (u * u2) / (SCALE as int);
    let u5 = (u3 * u2) / (SCALE as int);
    2 * (u + u3 / 3 + u5 / 5)
}

/// Fixed-point `ln(s)` for `s >= SCALE`: halvings count whole multiples of
/// `ln 2`; the series finishes the mantissa.
pub open spec fn ln_fx_spec(s: int) -> int {
    ln_halvings(s) * (LN2_FX as int) + ln_series(ln_mantissa(s))
}

/// Bounds on the series terms for a mantissa in `[SCALE, 2 * SCALE)`: the
/// argument of the series stays below half a unit, every later term is no
/// larger, and the series value sits in `[0, 2 * SCALE]`, with value zero
/// exactly at `t == SCALE`.
pub proof fn lemma_ln_series_range(t: int)
    requires
        SCALE <= t < 2 * SCALE,
    ensures
        ({
            let z = t - SCALE as int;
            let u = (z * SCALE as int) / (2 * SCALE as int + z);
            let u2 = (u * u) / (SCALE as int);
            let u3 = (u * u2) / (SCALE as int);
            let u5 = (u3 * u2) / (SCALE as int);
            &&& 0 <= u <= 500_000
            &&& 0 <= u2 <= 250_000
            &&& 0 <= u3 <= u2
            &&& 0 <= u5 <= u2
            &&& 0 <= ln_series(t) <= 2 * SCALE
        }),
        t == SCALE ==> ln_series(t) == 0,
{
    let s = SCALE as int;
    let z = t - s;
    let u = (z * s) / (2 * s + z);
    // u is non-negative and at most z / 2
    vstd::arithmetic::mul::lemma_mul_nonnegative(z, s);
    lemma_div_pos_is_pos(z * s, 2 * s + z);
    vstd::arithmetic::div_mod::lemma_div_is_ordered_by_denominator(z * s, 2 * s, 2 * s + z);
    assert((z * s) / (2 * s) == z / 2) by {
        assert(z * s == s * z) by {
            vstd::arithmetic::mul::lemma_mul_is_commutative(z, s);
        }
        assert(2 * s == s * 2);
        vstd::arithmetic::div_mod::lemma_div_denominator(s * z, s, 2);
        lemma_div_multiples_vanish(z, s);
    }
    lemma_div_is_ordered(z, s, 2);
    assert(u <= 500_000);
    let u2 = (u * u) / s;
    let u3 = (u * u2) / s;
    let u5 = (u3 * u2) / s;
    // u2 is at most u / 2, hence at most a quarter unit
    vstd::arithmetic::mul::lemma_mul_nonnegative(u, u);
    lemma_div_pos_is_pos(u * u, s);
    assert(u2 <= u / 2) by {
        lemma_mul_inequality(u, 500_000, u);
        lemma_div_is_ordered(u * u, 500_000 * u, s);
        assert((500_000 * u) / s == u / 2) by {
            assert(s == 500_000 * 2);
            vstd::arithmetic::div_mod::lemma_div_denominator(500_000 * u, 500_000, 2);
            lemma_div_multiples_vanish(u, 500_000);
        }
    }
    lemma_div_is_ordered(u, 500_000, 2);
    lemma_series_unit_step(u, u2);
    lemma_series_unit_step(u3, u2);
    // the divided tail terms keep the series below two units
    lemma_div_pos_is_pos(u3, 3);
    vstd::arithmetic::div_mod::lemma_div_nonincreasing(u3, 3);
    lemma_div_pos_is_pos(u5, 5);
    vstd::arithmetic::div_mod::lemma_div_nonincreasing(u5, 5);
    if t == s {
        vstd::arithmetic::div_mod::lemma_div_of0(2 * s);
        vstd::arithmetic::div_mod::lemma_div_of0(s);
        vstd::arithmetic::div_mod::lemma_div_of0(3);
        vstd::arithmetic::div_mod::lemma_div_of0(5);
        assert(ln_series(t) == 0);
    }
}

/// For `x, y` in `[0, SCALE)` the rescaled product stays in `[0, min(x, y)]`.
proof fn lemma_series_unit_step(x: int, y: int)
    requires
        0 <= x < SCALE,
        0 <= y < SCALE,
    ensures
        0 <= (x * y) / (SCALE as int) <= y,
        0 <= (x * y) / (SCALE as int) <= x,
{
    let s = SCALE as int;
    lemma_div_pos_is_pos(x * y, s);
    lemma_mul_inequality(x, s, y);
    lemma_div_is_ordered(x * y, s * y, s);
    assert((s * y) / s == y) by {
        lemma_div_multiples_vanish(y, s);
        vstd::arithmetic::mul::lemma_mul_is_commutative(s, y);
    }
    lemma_mul_inequality(y, s, x);
    vstd::arithmetic::mul::lemma_mul_is_commutative(x, y);
    lemma_div_is_ordered(y * x, s * x, s);
    assert((s * x) / s == x) by {
        lemma_div_multiples_vanish(x, s);
        vstd::arithmetic::mul::lemma_mul_is_commutative(s, x);
    }
}

/// Fixed-point natural logarithm for arguments of at least one unit.
pub(crate) fn ln_fx(s: i64) -> (r: i64)
    requires
        SCALE <= s <= 4_000_000_000_000i64,
    ensures
        r == ln_fx_spec(s as int),
        0 <= r <= 32 * LN2_FX + 2 * SCALE,
{
    let mut t: u64 = s as u64;
    let mut k: u64 = 0;
    proof {
        vstd::arithmetic::power2::lemma2_to64();
    }
    while t >= 2 * (SCALE as u64)
        invariant
            SCALE <= s <= 4_000_000_000_000i64,
            SCALE as u64 <= t,
            t as int * pow2(k as nat) <= s as int,
            ln_halvings(s as int) == k + ln_halvings(t as int),
            ln_mantissa(s as int) == ln_mantissa(t as int),
            k < 32,
        decreases t,
    {
        proof {
            lemma_div_pos_is_pos(t as int, 2);
            vstd::arithmetic::div_mod::lemma_div_decreases(t as int, 2);
            // t/2 * 2^(k+1) <= t * 2^k <= s
            vstd::arithmetic::power2::lemma_pow2_unfold((k + 1) as nat);
            lemma_pow2_pos(k as nat);
            assert((t as int / 2) * (2 * pow2(k as nat)) <= t as int * pow2(k as nat)) by {
                lemma_fundamental_div_mod(t as int, 2);
                lemma_mod_bound(t as int, 2);
                lemma_mul_inequality(2 * (t as int / 2), t as int, pow2(k as nat) as int);
                vstd::arithmetic::mul::lemma_mul_is_associative(
                    t as int / 2,
                    2,
                    pow2(k as nat) as int,
                );
            }
            // the halved value stays at or above one unit
            assert(t as int / 2 >= SCALE as int) by {
                lemma_div_is_ordered(2 * SCALE as int, t as int, 2);
                lemma_div_multiples_vanish(SCALE as int, 2);
            }
            assert(pow2((k + 1) as nat) == 2 * pow2(k as nat));
            assert((t as int / 2) * pow2((k + 1) as nat) <= s as int) by {
                assert((t as int / 2) * (2 * pow2(k as nat))
                    == (2 * (t as int / 2)) * pow2(k as nat)) by {
                    vstd::arithmetic::mul::lemma_mul_is_associative(
                        t as int / 2,
                        2,
                        pow2(k as nat) as int,
                    );
                    vstd::arithmetic::mul::lemma_mul_is_commutative(t as int / 2, 2);
                }
            }
            // the count stays small: 2^k never passes s / SCALE
            if k + 1 >= 32 {
                lemma_pow2_strictly_increases(31, (k + 1) as nat);
                vstd::arithmetic::power2::lemma2_to64();
                lemma_mul_inequality(
                    SCALE as int,
                    t as int / 2,
                    pow2((k + 1) as nat) as int,
                );
                lemma_mul_inequality(
                    pow2(31) as int + 1,
                    pow2((k + 1) as nat) as int,
                    SCALE as int,
                );
                assert(SCALE as int * pow2((k + 1) as nat)
                    == pow2((k + 1) as nat) * SCALE as int) by {
                    vstd::arithmetic::mul::lemma_mul_is_commutative(
                        SCALE as int,
                        pow2((k + 1) as nat) as int,
                    );
                }
                assert(2_147_483_649int * 1_000_000int == 2_147_483_649_000_000int)
                    by (nonlinear_arith);
                assert(pow2(31) as int == 0x80000000int);
                assert(pow2(31) as int + 1 <= pow2((k + 1) as nat) as int);
                assert((pow2(31) as int + 1) * (SCALE as int)
                    <= (pow2((k + 1) as nat) as int) * (SCALE as int));
                assert((pow2(31) as int + 1) * (SCALE as int) == 2_147_483_649_000_000int);
                assert((pow2((k + 1) as nat) as int) * (SCALE as int)
                    == (SCALE as int) * (pow2((k + 1) as nat) as int));
                assert((SCALE as int) * (pow2((k + 1) as nat) as int)
                    <= (t as int / 2) * (pow2((k + 1) as nat) as int));
                assert((t as int / 2) * (pow2((k + 1) as nat) as int) <= s as int);
                assert(false);
            }
        }
        t = t / 2;
        k = k + 1;
    }
    let z: u64 = t - SCALE as u64;
    let su: u64 = SCALE as u64;
    proof {
        lemma_ln_series_range(t as int);
    }
    let u: u64 = (z * su) / (2 * su + z);
    let u2: u64 = (u * u) / su;
    let u3: u64 = (u * u2) / su;
    let u5: u64 = (u3 * u2) / su;
    let series: u64 = 2 * (u + u3 / 3 + u5 / 5);
    proof {
        assert(series as int == ln_series(t as int));
        assert(ln_mantissa(t as int) == t as int);
        assert(ln_halvings(t as int) == 0);
    }
    (k as i64) * LN2_FX + (series as i64)
}

} // verus!
