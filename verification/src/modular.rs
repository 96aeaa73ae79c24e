use vstd::prelude::*;
use vstd::arithmetic::div_mod::{lemma_mul_mod_noop_left, lemma_mod_bound, lemma_small_mod, lemma_mod_multiples_basic, lemma_fundamental_div_mod};
use crate::text::text;

verus! {

// ---------------------------------------------------------------------------
// Integer square root

/// Whether `r` is the integer square root of `v`: the largest number whose square is at
/// most `v`.
pub open spec fn is_isqrt(v: int, r: int) -> bool {
    0 <= r && r * r <= v && v < (r + 1) * (r + 1)
}

/// One Newton step from `x` never goes below the square root: `((x + v / x) / 2 + 1)^2 > v`.
proof fn lemma_newton_step_stays_above(v: int, x: int)
    requires
        v >= 0,
        x >= 1,
    ensures
        ((x + v / x) / 2 + 1) * ((x + v / x) / 2 + 1) > v,
{
    let q = v / x;
    let y = (x + q) / 2;
    assert(q * x <= v < (q + 1) * x) by (nonlinear_arith)
        requires
            x >= 1,
            v >= 0,
            q == v / x,
    ;
    assert(2 * (y + 1) >= x + q + 1);
    assert((x + q + 1) * (x + q + 1) >= 4 * x * (q + 1)) by (nonlinear_arith);
    assert(4 * (y + 1) * (y + 1) >= (x + q + 1) * (x + q + 1)) by (nonlinear_arith)
        requires
            2 * (y + 1) >= x + q + 1,
            x + q + 1 >= 0,
    ;
    assert(4 * x * (q + 1) > 4 * v) by (nonlinear_arith)
        requires
            v < (q + 1) * x,
    ;
    assert((y + 1) * (y + 1) > v) by (nonlinear_arith)
        requires
            4 * (y + 1) * (y + 1) >= (x + q + 1) * (x + q + 1),
            (x + q + 1) * (x + q + 1) >= 4 * x * (q + 1),
            4 * x * (q + 1) > 4 * v,
    ;
}

/// Between 1 and `v`, `x + v / x` stays at most `v + 1`.
proof fn lemma_newton_sum_bound(v: int, x: int)
    requires
        1 <= x <= v,
    ensures
        x + v / x <= v + 1,
{
    let q = v / x;
    assert(q * x <= v) by (nonlinear_arith)
        requires
            x >= 1,
            v >= 0,
            q == v / x,
    ;
    assert((x - 1) * (v - x) >= 0) by (nonlinear_arith)
        requires
            1 <= x <= v,
    ;
    assert(x + q <= v + 1) by (nonlinear_arith)
        requires
            q * x <= v,
            (x - 1) * (v - x) >= 0,
            x >= 1,
    ;
}

/// When a Newton step does not go down, `x` is at most the square root.
proof fn lemma_newton_fixpoint(v: int, x: int)
    requires
        v >= 0,
        x >= 1,
        (x + v / x) / 2 >= x,
    ensures
        x * x <= v,
{
    let q = v / x;
    assert(q * x <= v) by (nonlinear_arith)
        requires
            x >= 1,
            v >= 0,
            q == v / x,
    ;
    assert(q >= x);
    assert(x * x <= q * x) by (nonlinear_arith)
        requires
            q >= x,
            x >= 1,
    ;
}

/// The integer square root of `value`, by Newton's iteration from `value` down.
pub fn integer_sqrt(value: u64) -> (r: u64)
    requires
        value < u64::MAX,
    ensures
        is_isqrt(value as int, r as int),
{
    if value < 2 {
        assert(value * value <= value < (value + 1) * (value + 1)) by (nonlinear_arith)
            requires
                value < 2,
        ;
        return value;
    }
    proof { lemma_newton_sum_bound(value as int, value as int); }
    let mut x0: u64 = value;
    let mut x1: u64 = (x0 + value / x0) / 2;
    proof {
        lemma_newton_step_stays_above(value as int, x0 as int);
        assert((value as int + 1) * (value as int + 1) > value) by (nonlinear_arith)
            requires
                value >= 2,
        ;
    }
    while x1 < x0
        invariant
            2 <= value < u64::MAX,
            1 <= x0 <= value,
            (x0 + 1) * (x0 + 1) > value,
            x1 as int == (x0 + value as int / x0 as int) / 2,
            (x1 + 1) * (x1 + 1) > value,
        decreases x0,
    {
        x0 = x1;
        assert(x0 >= 1) by (nonlinear_arith)
            requires
                (x0 + 1) * (x0 + 1) > value,
                value >= 2,
        ;
        proof {
            lemma_newton_sum_bound(value as int, x0 as int);
            lemma_newton_step_stays_above(value as int, x0 as int);
        }
        x1 = (x0 + value / x0) / 2;
    }
    proof { lemma_newton_fixpoint(value as int, x0 as int); }
    x0
}

// ---------------------------------------------------------------------------
// Remainders as Rust computes them

/// The absolute value of `x`.
pub open spec fn abs(x: int) -> int {
    if x < 0 { -x } else { x }
}

/// The remainder that Rust's `%` gives: it takes the sign of the dividend.
pub open spec fn trem(x: int, m: int) -> int {
    if x >= 0 { x % m } else { -((-x) % m) }
}

/// `b` to the power `e`.
pub open spec fn power(b: int, e: nat) -> int
    decreases e,
{
    if e == 0 { 1 } else { b * power(b, (e - 1) as nat) }
}

proof fn lemma_power_square(b: int, k: nat)
    ensures
        power(b, 2 * k) == power(b * b, k),
        power(b, 2 * k + 1) == b * power(b * b, k),
    decreases k,
{
    if k > 0 {
        lemma_power_square(b, (k - 1) as nat);
        assert(power(b, 2 * k) == b * (b * power(b, (2 * (k - 1)) as nat)));
        assert(b * (b * power(b * b, (k - 1) as nat)) == (b * b) * power(b * b, (k - 1) as nat)) by (nonlinear_arith);
    }
}

proof fn lemma_mod_neg_divisor(x: int, m: int)
    requires
        m < 0,
    ensures
        x % m == x % (-m),
{
    assert(x % m == x % (-m)) by (nonlinear_arith)
        requires
            m < 0,
    ;
}

/// Rust's remainder depends on the divisor's size only.
proof fn lemma_trem_abs(x: int, m: int)
    requires
        m != 0,
    ensures
        trem(x, m) == trem(x, abs(m)),
{
    if m < 0 {
        lemma_mod_neg_divisor(x, m);
        lemma_mod_neg_divisor(-x, m);
    }
}

proof fn lemma_trem_neg(x: int, a: int)
    requires
        a > 0,
    ensures
        trem(-x, a) == -trem(x, a),
{
    if x == 0 {
        assert(0int % a == 0) by { lemma_small_mod(0, a as nat); }
    }
}

proof fn lemma_trem_bound(x: int, a: int)
    requires
        a > 0,
    ensures
        -a < trem(x, a) < a,
        x >= 0 ==> trem(x, a) >= 0,
        x <= 0 ==> trem(x, a) <= 0,
{
    lemma_mod_bound(x, a);
    lemma_mod_bound(-x, a);
    if x == 0 {
        assert(0int % a == 0) by { lemma_small_mod(0, a as nat); }
    }
}

proof fn lemma_trem_small(x: int, a: int)
    requires
        a > 0,
        -a < x < a,
    ensures
        trem(x, a) == x,
{
    if x >= 0 {
        lemma_small_mod(x as nat, a as nat);
    } else {
        lemma_small_mod((-x) as nat, a as nat);
    }
}

proof fn lemma_trem_mul_nonneg(x: int, y: int, a: int)
    requires
        a > 0,
        x >= 0,
        y >= 0,
    ensures
        trem(trem(x, a) * y, a) == trem(x * y, a),
{
    lemma_mod_bound(x, a);
    assert((x % a) * y >= 0) by (nonlinear_arith)
        requires
            x % a >= 0,
            y >= 0,
    ;
    assert(x * y >= 0) by (nonlinear_arith)
        requires
            x >= 0,
            y >= 0,
    ;
    lemma_mul_mod_noop_left(x, y, a);
}

/// Taking Rust's remainder of a factor first does not change the remainder of the product.
pub proof fn lemma_trem_mul(x: int, y: int, a: int)
    requires
        a > 0,
    ensures
        trem(trem(x, a) * y, a) == trem(x * y, a),
{
    let ax = abs(x);
    let ay = abs(y);
    lemma_trem_mul_nonneg(ax, ay, a);
    lemma_trem_neg(ax, a);
    lemma_trem_neg(ax * ay, a);
    lemma_trem_neg(trem(ax, a) * ay, a);
    if x >= 0 && y >= 0 {
    } else if x >= 0 && y < 0 {
        assert(trem(x, a) * y == -(trem(ax, a) * ay)) by (nonlinear_arith)
            requires
                x == ax,
                y == -ay,
        ;
        assert(x * y == -(ax * ay)) by (nonlinear_arith)
            requires
                x == ax,
                y == -ay,
        ;
    } else if x < 0 && y >= 0 {
        assert(trem(x, a) == -trem(ax, a));
        assert(trem(x, a) * y == -(trem(ax, a) * ay)) by (nonlinear_arith)
            requires
                trem(x, a) == -trem(ax, a),
                y == ay,
        ;
        assert(x * y == -(ax * ay)) by (nonlinear_arith)
            requires
                x == -ax,
                y == ay,
        ;
    } else {
        assert(trem(x, a) == -trem(ax, a));
        assert(trem(x, a) * y == trem(ax, a) * ay) by (nonlinear_arith)
            requires
                trem(x, a) == -trem(ax, a),
                y == -ay,
        ;
        assert(x * y == ax * ay) by (nonlinear_arith)
            requires
                x == -ax,
                y == -ay,
        ;
    }
}

proof fn lemma_trem_mul_power(z: int, w: int, k: nat, a: int)
    requires
        a > 0,
    ensures
        trem(z * power(trem(w, a), k), a) == trem(z * power(w, k), a),
    decreases k,
{
    if k > 0 {
        let tw = trem(w, a);
        let k1 = (k - 1) as nat;
        lemma_trem_mul_power(z * tw, w, k1, a);
        assert(z * power(tw, k) == (z * tw) * power(tw, k1)) by (nonlinear_arith)
            requires
                power(tw, k) == tw * power(tw, k1),
        ;
        assert((z * tw) * power(w, k1) == tw * (z * power(w, k1))) by (nonlinear_arith);
        lemma_trem_mul(w, z * power(w, k1), a);
        assert(w * (z * power(w, k1)) == z * power(w, k)) by (nonlinear_arith)
            requires
                power(w, k) == w * power(w, k1),
        ;
    }
}

// ---------------------------------------------------------------------------
// Modular exponentiation

/// What `mod_pow` gives for a non-negative exponent: 1 for exponent 0, else Rust's remainder
/// of `base` to that power.
pub open spec fn mod_pow_value(base: int, exponent: nat, modulus: int) -> int {
    if exponent == 0 { 1 } else { trem(power(base, exponent), modulus) }
}

/// `base` to the power `exponent`, reduced by `modulus` with Rust's remainder at each step,
/// for a non-negative exponent and a non-zero modulus.
fn mod_pow_nonneg(base: i64, exponent: i64, modulus: i64) -> (r: i128)
    requires
        modulus != 0,
        exponent >= 0,
    ensures
        r == mod_pow_value(base as int, exponent as nat, modulus as int),
        i64::MIN <= r <= i64::MAX,
{
    let ghost a: int = abs(modulus as int);
    let ghost e0: nat = exponent as nat;
    let ghost mut updated: bool = false;
    let mut result: i128 = 1;
    let mut pw: i128 = base as i128;
    let m: i128 = modulus as i128;
    let mut e: u64 = exponent as u64;
    proof {
        assert(result * power(pw as int, e as nat) == power(base as int, e0)) by (nonlinear_arith)
            requires
                result == 1,
                pw == base,
                e == e0,
        ;
    }
    while e > 0
        invariant
            m == modulus,
            modulus != 0,
            a == abs(modulus as int),
            a <= 0x8000_0000_0000_0000,
            -0x8000_0000_0000_0000 <= pw <= 0x8000_0000_0000_0000,
            updated ==> -a < result < a,
            !updated ==> result == 1 && (e > 0 || e0 == 0),
            e0 == 0 ==> !updated && e == 0,
            trem(result * power(pw as int, e as nat), a) == trem(power(base as int, e0), a),
        decreases e,
    {
        let ghost e_old = e as nat;
        let ghost result_old = result as int;
        let ghost pw_old = pw as int;
        assert((e & 1 == 1) == (e % 2 == 1)) by (bit_vector);
        let odd = e & 1 == 1;
        if odd {
            assert(-0x8000_0000_0000_0000_0000_0000_0000_0000 < result * pw < 0x8000_0000_0000_0000_0000_0000_0000_0000) by (nonlinear_arith)
                requires
                    -0x8000_0000_0000_0000 <= result <= 0x8000_0000_0000_0000,
                    -0x8000_0000_0000_0000 <= pw <= 0x8000_0000_0000_0000,
            ;
            result = (result * pw) % m;
            proof {
                lemma_trem_abs(result_old * pw_old, modulus as int);
                lemma_trem_bound(result_old * pw_old, a);
                updated = true;
            }
        }
        assert(e >> 1 == e / 2) by (bit_vector);
        e = e >> 1;
        if e > 0 {
            assert(0 <= pw * pw <= 0x4000_0000_0000_0000_0000_0000_0000_0000) by (nonlinear_arith)
                requires
                    -0x8000_0000_0000_0000 <= pw <= 0x8000_0000_0000_0000,
            ;
            pw = (pw * pw) % m;
            proof {
                lemma_trem_abs(pw_old * pw_old, modulus as int);
                lemma_trem_bound(pw_old * pw_old, a);
            }
        }
        proof {
            let h = e as nat;
            lemma_power_square(pw_old, h);
            let sq = pw_old * pw_old;
            if odd {
                assert(e_old == 2 * h + 1);
                assert(result_old * power(pw_old, e_old) == (result_old * pw_old) * power(sq, h)) by (nonlinear_arith)
                    requires
                        power(pw_old, e_old) == pw_old * power(sq, h),
                ;
                if h > 0 {
                    lemma_trem_mul_power(result as int, sq, h, a);
                    lemma_trem_mul(result_old * pw_old, power(sq, h), a);
                } else {
                    assert(power(pw as int, 0) == 1);
                    assert(power(sq, 0) == 1);
                    lemma_trem_bound(result_old * pw_old, a);
                    lemma_trem_small(result as int, a);
                    assert(result * power(pw as int, e as nat) == result);
                    assert((result_old * pw_old) * power(sq, h) == result_old * pw_old);
                }
            } else {
                assert(e_old == 2 * h);
                assert(h > 0);
                lemma_trem_mul_power(result as int, sq, h, a);
            }
        }
    }
    proof {
        assert(power(pw as int, 0) == 1);
        assert(result * power(pw as int, e as nat) == result);
        if updated {
            lemma_trem_small(result as int, a);
            assert(result == trem(power(base as int, e0), a));
        }
        if e0 > 0 {
            assert(updated);
            lemma_trem_abs(power(base as int, e0), modulus as int);
            assert(result == mod_pow_value(base as int, exponent as nat, modulus as int));
        } else {
            assert(result == 1);
        }
    }
    result
}

// ---------------------------------------------------------------------------
// Modular inverse by the extended Euclidean algorithm

/// The sign of `x`: -1, 0 or 1.
pub open spec fn sg(x: int) -> int {
    if x > 0 { 1 } else if x < 0 { -1 } else { 0 }
}

/// Rust's truncating quotient: rounds toward zero.
pub open spec fn tdiv(a: int, b: int) -> int {
    if (a >= 0) == (b > 0) { abs(a) / abs(b) } else { -(abs(a) / abs(b)) }
}

/// The remainder that goes with the truncating quotient.
pub open spec fn trunc_rem(a: int, b: int) -> int {
    a - tdiv(a, b) * b
}

/// The greatest common divisor, by Euclid's algorithm.
pub open spec fn gcd(a: nat, b: nat) -> nat
    decreases b,
{
    if b == 0 { a } else { gcd(b, a % b) }
}

/// What the truncating quotient and remainder satisfy.
pub proof fn lemma_trunc_rem_facts(a: int, b: int)
    requires
        b != 0,
    ensures
        abs(trunc_rem(a, b)) == abs(a) % abs(b),
        abs(trunc_rem(a, b)) < abs(b),
        trunc_rem(a, b) == 0 || sg(trunc_rem(a, b)) == sg(a),
        abs(tdiv(a, b) * b) == abs(a) - abs(trunc_rem(a, b)),
        tdiv(a, b) == 0 || sg(tdiv(a, b)) == sg(a) * sg(b),
        abs(tdiv(a, b)) == abs(a) / abs(b),
        abs(tdiv(a, b)) <= abs(a),
{
    let aa = abs(a);
    let bb = abs(b);
    let q = aa / bb;
    let rr = aa % bb;
    assert(aa == bb * q + rr && 0 <= rr < bb && q >= 0 && q <= aa) by (nonlinear_arith)
        requires
            bb > 0,
            aa >= 0,
            q == aa / bb,
            rr == aa % bb,
    ;
    if (a >= 0) == (b > 0) {
        if a >= 0 {
            assert(tdiv(a, b) * b == q * bb) by (nonlinear_arith) requires tdiv(a, b) == q, b == bb;
        } else {
            assert(tdiv(a, b) * b == -(q * bb)) by (nonlinear_arith) requires tdiv(a, b) == q, b == -bb;
        }
    } else {
        if a >= 0 {
            assert(tdiv(a, b) * b == q * bb) by (nonlinear_arith) requires tdiv(a, b) == -q, b == -bb;
        } else {
            assert(tdiv(a, b) * b == -(q * bb)) by (nonlinear_arith) requires tdiv(a, b) == -q, b == bb;
        }
    }
    assert(q * bb == bb * q) by (nonlinear_arith);
}

/// The last non-zero remainder of Euclid's algorithm run with Rust's truncating division,
/// started from `a` and `b`: the greatest common divisor, up to its sign.
pub open spec fn euclid_last(a: int, b: int) -> int
    decreases abs(b),
{
    if b == 0 {
        a
    } else {
        proof { lemma_trunc_rem_facts(a, b); }
        euclid_last(b, trunc_rem(a, b))
    }
}

proof fn lemma_euclid_last_is_gcd(a: int, b: int)
    ensures
        abs(euclid_last(a, b)) == gcd(abs(a) as nat, abs(b) as nat),
    decreases abs(b),
{
    if b != 0 {
        lemma_trunc_rem_facts(a, b);
        lemma_euclid_last_is_gcd(b, trunc_rem(a, b));
    }
}

proof fn lemma_abs_mul(x: int, y: int)
    ensures
        abs(x * y) == abs(x) * abs(y),
        sg(x * y) == sg(x) * sg(y),
{
    if x >= 0 && y >= 0 {
        assert(x * y >= 0) by (nonlinear_arith) requires x >= 0, y >= 0;
        assert(x * y > 0 <==> (x > 0 && y > 0)) by (nonlinear_arith) requires x >= 0, y >= 0;
    } else if x >= 0 && y < 0 {
        assert(x * y == -(x * (-y))) by (nonlinear_arith);
        assert(x * (-y) >= 0) by (nonlinear_arith) requires x >= 0, y < 0;
        assert(x * (-y) > 0 <==> x > 0) by (nonlinear_arith) requires x >= 0, y < 0;
    } else if x < 0 && y >= 0 {
        assert(x * y == -((-x) * y)) by (nonlinear_arith);
        assert((-x) * y >= 0) by (nonlinear_arith) requires x < 0, y >= 0;
        assert((-x) * y > 0 <==> y > 0) by (nonlinear_arith) requires x < 0, y >= 0;
    } else {
        assert(x * y == (-x) * (-y)) by (nonlinear_arith);
        assert((-x) * (-y) > 0) by (nonlinear_arith) requires x < 0, y < 0;
    }
}

/// The signs of the coefficients and remainders alternate so that their magnitudes add up.
pub open spec fn coefficients_alternate(t: int, nt: int, r: int, nr: int) -> bool {
    sg(t) * sg(nt) * sg(r) * sg(nr) <= 0
}

/// One step of the extended algorithm keeps the sign pattern and the magnitude identity.
proof fn lemma_euclid_step(t: int, nt: int, r: int, nr: int, am: int)
    requires
        nr != 0,
        coefficients_alternate(t, nt, r, nr),
        abs(nt) * abs(r) + abs(t) * abs(nr) == am,
    ensures
        ({
            let q = tdiv(r, nr);
            let t2 = t - q * nt;
            let r2 = trunc_rem(r, nr);
            &&& abs(t2) == abs(t) + abs(q) * abs(nt)
            &&& coefficients_alternate(nt, t2, nr, r2)
            &&& abs(t2) * abs(nr) + abs(nt) * abs(r2) == am
        }),
{
    let q = tdiv(r, nr);
    let t2 = t - q * nt;
    let r2 = trunc_rem(r, nr);
    lemma_trunc_rem_facts(r, nr);
    lemma_abs_mul(q, nt);
    lemma_abs_mul(q, nr);
    let qn = q * nt;
    if qn == 0 || t == 0 {
        assert(abs(t2) == abs(t) + abs(qn));
    } else {
        assert(q != 0 && nt != 0);
        assert(sg(q) == sg(r) * sg(nr));
        assert(r != 0);
        assert(sg(t) * sg(nt) * sg(r) * sg(nr) == -1) by (nonlinear_arith)
            requires
                sg(t) * sg(nt) * sg(r) * sg(nr) <= 0,
                t != 0, nt != 0, r != 0, nr != 0,
                sg(t) == 1 || sg(t) == -1,
                sg(nt) == 1 || sg(nt) == -1,
                sg(r) == 1 || sg(r) == -1,
                sg(nr) == 1 || sg(nr) == -1,
        ;
        assert(sg(t) == -sg(qn)) by (nonlinear_arith)
            requires
                sg(t) * sg(nt) * sg(r) * sg(nr) == -1,
                sg(qn) == sg(q) * sg(nt),
                sg(q) == sg(r) * sg(nr),
                sg(t) == 1 || sg(t) == -1,
                sg(nt) == 1 || sg(nt) == -1,
                sg(r) == 1 || sg(r) == -1,
                sg(nr) == 1 || sg(nr) == -1,
        ;
        assert(abs(t2) == abs(t) + abs(qn));
    }
    assert(abs(t2) == abs(t) + abs(q) * abs(nt));
    // the sign pattern
    if nt == 0 || t2 == 0 || r2 == 0 {
        assert(sg(nt) * sg(t2) * sg(nr) * sg(r2) == 0) by (nonlinear_arith)
            requires
                sg(nt) == 0 || sg(t2) == 0 || sg(r2) == 0,
        ;
    } else {
        assert(sg(r2) == sg(r));
        assert(r != 0);
        if t != 0 {
            assert(sg(t2) == sg(t));
            assert(sg(nt) * sg(t2) * sg(nr) * sg(r2) == sg(t) * sg(nt) * sg(r) * sg(nr)) by (nonlinear_arith)
                requires
                    sg(t2) == sg(t),
                    sg(r2) == sg(r),
            ;
        } else {
            assert(t2 == -qn);
            assert(q != 0);
            assert(sg(q) == sg(r) * sg(nr));
            assert(sg(t2) == -(sg(q) * sg(nt)));
            assert(sg(nt) * sg(t2) * sg(nr) * sg(r2) == -1) by (nonlinear_arith)
                requires
                    sg(t2) == -(sg(q) * sg(nt)),
                    sg(q) == sg(r) * sg(nr),
                    sg(r2) == sg(r),
                    sg(nt) == 1 || sg(nt) == -1,
                    sg(r) == 1 || sg(r) == -1,
                    sg(nr) == 1 || sg(nr) == -1,
            ;
        }
    }
    // the magnitude identity
    assert(abs(t2) * abs(nr) + abs(nt) * abs(r2) == abs(nt) * abs(r) + abs(t) * abs(nr)) by (nonlinear_arith)
        requires
            abs(t2) == abs(t) + abs(q) * abs(nt),
            abs(q * nr) == abs(q) * abs(nr),
            abs(q * nr) == abs(r) - abs(r2),
    ;
}

/// `c` with `trem(x, a) == x - c * a`.
proof fn lemma_trem_multiple(x: int, a: int) -> (c: int)
    requires
        a > 0,
    ensures
        trem(x, a) == x - c * a,
{
    if x >= 0 {
        let q = x / a;
        lemma_fundamental_div_mod(x, a);
        assert(a * q == q * a) by (nonlinear_arith);
        assert(trem(x, a) == x - q * a);
        q
    } else {
        let q = (-x) / a;
        lemma_fundamental_div_mod(-x, a);
        assert(a * q == q * a) by (nonlinear_arith);
        assert(trem(x, a) == x + q * a);
        assert(x - (-q) * a == x + q * a) by (nonlinear_arith);
        -q
    }
}

fn trunc_div(a: i128, b: i128) -> (q: i128)
    requires
        b != 0,
        abs(a as int) <= 0x8000_0000_0000_0000,
        abs(b as int) <= 0x8000_0000_0000_0000,
    ensures
        q == tdiv(a as int, b as int),
{
    let ua: i128 = if a < 0 { -a } else { a };
    let ub: i128 = if b < 0 { -b } else { b };
    let uq: i128 = ua / ub;
    if (a >= 0) == (b > 0) {
        uq
    } else {
        -uq
    }
}

/// Whether `value` has an inverse modulo `modulus`: their greatest common divisor is 1.
pub open spec fn invertible(value: int, modulus: int) -> bool {
    gcd(abs(modulus) as nat, abs(value) as nat) == 1
}

/// Whether `x` is what `mod_inverse` answers for `value` and `modulus`: it lies between 0 and
/// the modulus (0 included, the modulus excluded, on the modulus's side of 0), and `x * value`
/// is congruent to the last remainder of Euclid's algorithm, which is 1 or -1 for an
/// invertible value (so `x` is the inverse, or its negation when that remainder is -1).
pub open spec fn mod_inverse_answer(x: int, value: int, modulus: int) -> bool {
    &&& (modulus > 0 ==> 0 <= x < modulus)
    &&& (modulus < 0 ==> modulus < x <= 0)
    &&& (x * value - euclid_last(modulus, value)) % abs(modulus) == 0
}

/// The inverse of `value` modulo `modulus` by the extended Euclidean algorithm, in the range
/// between 0 and the modulus.
pub fn mod_inverse(value: i64, modulus: i64) -> (r: Result<i64, String>)
    requires
        !(modulus == 0 && (value == 1 || value == -1)),
    ensures
        r is Ok <==> invertible(value as int, modulus as int),
        r matches Ok(x) ==> mod_inverse_answer(x as int, value as int, modulus as int),
        r matches Err(e) ==> e@ == "value is not invertible for MODPOW"@,
{
    let ghost m: int = modulus as int;
    let ghost v: int = value as int;
    let mut t: i128 = 0;
    let mut new_t: i128 = 1;
    let mut r: i128 = modulus as i128;
    let mut new_r: i128 = value as i128;
    let ghost mut k1: int = -1;
    let ghost mut k2: int = 0;
    proof {
        assert(t * v - r == k1 * m) by (nonlinear_arith) requires t == 0, r == m, k1 == -1;
        assert(new_t * v - new_r == k2 * m) by (nonlinear_arith) requires new_t == 1, new_r == v, k2 == 0;
        assert(sg(t as int) == 0);
        assert(coefficients_alternate(t as int, new_t as int, r as int, new_r as int)) by (nonlinear_arith)
            requires
                sg(t as int) == 0,
        ;
        assert(abs(new_t as int) * abs(r as int) + abs(t as int) * abs(new_r as int) == abs(m)) by (nonlinear_arith)
            requires
                new_t == 1,
                t == 0,
                r == m,
        ;
    }
    while new_r != 0
        invariant
            m == modulus,
            v == value,
            abs(r as int) <= 0x8000_0000_0000_0000,
            abs(new_r as int) <= 0x8000_0000_0000_0000,
            abs(t as int) <= 0x8000_0000_0000_0000,
            abs(new_t as int) <= 0x8000_0000_0000_0000,
            euclid_last(r as int, new_r as int) == euclid_last(m, v),
            t * v - r == k1 * m,
            new_t * v - new_r == k2 * m,
            coefficients_alternate(t as int, new_t as int, r as int, new_r as int),
            abs(new_t as int) * abs(r as int) + abs(t as int) * abs(new_r as int) == abs(m),
        decreases abs(new_r as int),
    {
        let quotient = trunc_div(r, new_r);
        proof {
            lemma_trunc_rem_facts(r as int, new_r as int);
            lemma_euclid_step(t as int, new_t as int, r as int, new_r as int, abs(m));
            lemma_abs_mul(quotient as int, new_t as int);
            lemma_abs_mul(quotient as int, new_r as int);
            assert(abs(quotient as int) * abs(new_t as int) <= 0x4000_0000_0000_0000_0000_0000_0000_0000) by (nonlinear_arith)
                requires
                    abs(quotient as int) <= 0x8000_0000_0000_0000,
                    abs(new_t as int) <= 0x8000_0000_0000_0000,
                    abs(quotient as int) >= 0,
                    abs(new_t as int) >= 0,
            ;
        }
        let next_t: i128 = t - quotient * new_t;
        let next_r: i128 = r - quotient * new_r;
        proof {
            let kn = k1 - quotient * k2;
            assert(next_t * v - next_r == kn * m) by (nonlinear_arith)
                requires
                    next_t == t - quotient * new_t,
                    next_r == r - quotient * new_r,
                    t * v - r == k1 * m,
                    new_t * v - new_r == k2 * m,
                    kn == k1 - quotient * k2,
            ;
            assert(next_r as int == trunc_rem(r as int, new_r as int));
            assert(abs(next_t as int) <= abs(m)) by (nonlinear_arith)
                requires
                    abs(next_t as int) * abs(new_r as int) + abs(new_t as int) * abs(next_r as int) == abs(m),
                    abs(new_r as int) >= 1,
                    abs(next_t as int) >= 0,
                    abs(new_t as int) >= 0,
                    abs(next_r as int) >= 0,
            ;
            k1 = k2;
            k2 = kn;
        }
        t = new_t;
        new_t = next_t;
        r = new_r;
        new_r = next_r;
    }
    proof {
        lemma_euclid_last_is_gcd(m, v);
        assert(euclid_last(r as int, 0) == r);
    }
    if r != 1 && r != -1 {
        return Err(text("value is not invertible for MODPOW"));
    }
    proof {
        if m == 0 {
            assert(euclid_last(0, v) == euclid_last(v, trunc_rem(0, v)));
            lemma_trunc_rem_facts(0, v);
            assert(trunc_rem(0, v) == 0);
            assert(false);
        }
    }
    let m128: i128 = modulus as i128;
    let mut inverse: i128 = t % m128;
    let ghost a: int = abs(m);
    proof {
        lemma_trem_abs(t as int, m);
        lemma_trem_bound(t as int, a);
    }
    let ghost c: int = lemma_trem_multiple(t as int, a);
    let ghost sm: int = if m > 0 { 1 } else { -1 };
    proof {
        assert(a == sm * m) by (nonlinear_arith)
            requires
                (m > 0 && a == m && sm == 1) || (m < 0 && a == -m && sm == -1),
        ;
    }
    if inverse == 0 {
        proof {
            let kk = k1 - c * sm * v;
            assert(0 * v - r == kk * m) by (nonlinear_arith)
                requires
                    t * v - r == k1 * m,
                    0 == t - c * a,
                    a == sm * m,
                    kk == k1 - c * sm * v,
            ;
            lemma_mod_multiples_basic(kk * sm, a);
            assert(kk * m == (kk * sm) * a) by (nonlinear_arith)
                requires
                    a == sm * m,
                    sm == 1 || sm == -1,
            ;
        }
        return Ok(0);
    }
    let ghost shift: int = 0;
    if (m128 > 0 && inverse < 0) || (m128 < 0 && inverse > 0) {
        inverse = inverse + m128;
        proof { shift = 1; }
    }
    proof {
        let kk = k1 - c * sm * v + shift * v;
        let ca = c * a;
        assert(inverse * v == t * v - ca * v + shift * (m * v)) by (nonlinear_arith)
            requires
                inverse == t - ca + shift * m,
        ;
        assert(ca * v == (c * sm * v) * m) by (nonlinear_arith)
            requires
                a == sm * m,
                ca == c * a,
        ;
        assert(shift * (m * v) == (shift * v) * m) by (nonlinear_arith);
        assert(kk * m == k1 * m - (c * sm * v) * m + (shift * v) * m) by (nonlinear_arith)
            requires
                kk == k1 - c * sm * v + shift * v,
        ;
        assert(inverse * v - r == kk * m);
        lemma_mod_multiples_basic(kk * sm, a);
        assert(kk * m == (kk * sm) * a) by (nonlinear_arith)
            requires
                a == sm * m,
                sm == 1 || sm == -1,
        ;
    }
    if inverse < i64::MIN as i128 || inverse > i64::MAX as i128 {
        return Err(text("integer overflow for MODPOW"));
    }
    Ok(inverse as i64)
}

/// What `mod_pow` answers: refuses a zero modulus and an exponent below -1, inverts for
/// exponent -1, and otherwise raises `base` to `exponent` modulo `modulus`.
pub open spec fn mod_pow_spec(base: int, exponent: int, modulus: int, r: Result<i64, String>) -> bool {
    if modulus == 0 {
        r matches Err(e) && e@ == "division by zero for MODPOW"@
    } else if exponent == -1 {
        &&& r is Ok <==> invertible(base, modulus)
        &&& r matches Ok(x) ==> mod_inverse_answer(x as int, base, modulus)
        &&& r matches Err(e) ==> e@ == "value is not invertible for MODPOW"@
    } else if exponent < 0 {
        r matches Err(e) && e@ == "negative exponent for MODPOW"@
    } else {
        r matches Ok(x) && x == mod_pow_value(base, exponent as nat, modulus)
    }
}

/// `base` to the power `exponent` modulo `modulus`, Rust's remainder taken at each step; an
/// exponent of -1 asks for the modular inverse.
pub fn mod_pow(base: i64, exponent: i64, modulus: i64) -> (r: Result<i64, String>)
    ensures
        mod_pow_spec(base as int, exponent as int, modulus as int, r),
{
    if modulus == 0 {
        return Err(text("division by zero for MODPOW"));
    }
    if exponent == -1 {
        return mod_inverse(base, modulus);
    }
    if exponent < 0 {
        return Err(text("negative exponent for MODPOW"));
    }
    let result = mod_pow_nonneg(base, exponent, modulus);
    if result < i64::MIN as i128 || result > i64::MAX as i128 {
        return Err(text("integer overflow for MODPOW"));
    }
    Ok(result as i64)
}

} // verus!
