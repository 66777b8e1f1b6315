//! Exact integer renderings of binary64 arithmetic: the nearest double of
//! an integer, and a ratio scaled by a small factor and truncated.
use vstd::prelude::*;

verus! {

/// Integers below this are doubles.
pub const DOUBLE_LIMIT: u64 = 9007199254740992;

/// `a / d` rounded to the nearest integer, ties to even.
pub open spec fn round_half_even(a: nat, d: nat) -> nat {
    let q = a / d;
    let r = a % d;
    if 2 * r < d || (2 * r == d && q % 2 == 0) {
        q
    } else {
        q + 1
    }
}

/// The distance between neighbouring doubles at the size of `n`.
pub open spec fn spacing(n: nat) -> nat
    decreases n,
{
    if n < DOUBLE_LIMIT {
        1
    } else {
        2 * spacing(n / 2)
    }
}

/// The double nearest to the integer `n`, ties to even.
pub open spec fn double_of(n: nat) -> nat {
    round_half_even(n, spacing(n)) * spacing(n)
}

pub fn rounded(a: u128, d: u128) -> (r: u128)
    requires
        d > 0,
        d <= u128::MAX / 2,
        a < u128::MAX,
    ensures
        r == round_half_even(a as nat, d as nat),
        a / d <= r <= a / d + 1,
{
    let q = a / d;
    let rest = a % d;
    assert(q <= a) by (nonlinear_arith)
        requires
            q == a / d,
            d > 0,
    ;
    if 2 * rest < d || (2 * rest == d && q % 2 == 0) {
        q
    } else {
        q + 1
    }
}

proof fn lemma_spacing(n: nat)
    ensures
        spacing(n) >= 1,
        spacing(n) <= n || spacing(n) == 1,
        n < spacing(n) * DOUBLE_LIMIT,
    decreases n,
{
    if n >= DOUBLE_LIMIT {
        lemma_spacing(n / 2);
    }
}

/// The double nearest to `n`.
pub fn nearest_double(n: u128) -> (r: u128)
    requires
        n < 0x1_0000_0000_0000_0000_0000_0000,
    ensures
        r == double_of(n as nat),
        r <= 2 * n + 1,
        n > 0 ==> r > 0,
{
    let mut unit: u128 = 1;
    let mut rest: u128 = n;
    while rest >= DOUBLE_LIMIT as u128
        invariant
            1 <= unit,
            unit * rest <= n,
            unit * spacing(rest as nat) == spacing(n as nat),
            n < 0x1_0000_0000_0000_0000_0000_0000,
        decreases rest,
    {
        proof {
            let half = (rest / 2) as int;
            let u = unit as int;
            let s = spacing(half as nat) as int;
            assert((2 * u) * half <= u * rest) by (nonlinear_arith)
                requires
                    half == rest / 2,
                    u >= 1,
                    rest >= 0,
            ;
            assert((2 * u) * s == u * (2 * s)) by (nonlinear_arith);
            assert(unit <= n) by (nonlinear_arith)
                requires
                    unit * rest <= n,
                    rest >= 1,
                    unit >= 1,
            ;
        }
        unit = unit * 2;
        rest = rest / 2;
    }
    assert(unit * 1 == unit);
    proof {
        lemma_spacing(n as nat);
    }
    let q = rounded(n, unit);
    assert(q * unit <= n + unit) by (nonlinear_arith)
        requires
            q <= n / unit + 1,
            unit >= 1,
    ;
    assert(n > 0 ==> q * unit > 0) by (nonlinear_arith)
        requires
            q == round_half_even(n as nat, unit as nat),
            q >= n / unit,
            unit <= n || unit == 1,
            unit >= 1,
    ;
    q * unit
}

/// The power of two that brings `a / b` into the range of 53 bit integers.
pub open spec fn lift(a: nat, b: nat) -> nat
    decreases b * DOUBLE_LIMIT - a,
{
    if a == 0 || b == 0 || a * 2 >= b * DOUBLE_LIMIT {
        1
    } else {
        2 * lift(a * 2, b)
    }
}

/// `factor * (part / whole)`, each operation rounded to double, then cut
/// down to an integer.
pub open spec fn scaled(part: nat, whole: nat, factor: nat) -> nat {
    let a = double_of(part);
    let b = double_of(whole);
    let scale = lift(a, b);
    let quotient = round_half_even(a * scale, b);
    double_of(factor * quotient) / scale
}

/// `factor * (part / whole)` in double arithmetic, cut down to an integer.
pub fn scale_ratio(part: u64, whole: u64, factor: u16) -> (r: u128)
    requires
        whole > 0,
    ensures
        r == scaled(part as nat, whole as nat, factor as nat),
{
    let a = nearest_double(part as u128);
    let b = nearest_double(whole as u128);
    let mut scale: u128 = 1;
    let mut lifted: u128 = a;
    assert(a * 1 == a);
    let ghost limit = b * DOUBLE_LIMIT;
    assert(limit <= 0x4_0000_0000_0000_0000 * DOUBLE_LIMIT) by (nonlinear_arith)
        requires
            limit == b * DOUBLE_LIMIT,
            b <= 0x4_0000_0000_0000_0000,
    ;
    let bound: u128 = b * DOUBLE_LIMIT as u128;
    while a != 0 && lifted * 2 < bound
        invariant
            bound == b * DOUBLE_LIMIT,
            bound <= 0x4_0000_0000_0000_0000 * DOUBLE_LIMIT,
            b > 0,
            scale >= 1,
            lifted == a * scale,
            scale > 1 ==> lifted < bound,
            a == 0 ==> lifted == 0,
            a <= 0x4_0000_0000_0000_0000,
            lifted <= 0x4_0000_0000_0000_0000 * DOUBLE_LIMIT,
            scale <= 0x4_0000_0000_0000_0000 * DOUBLE_LIMIT,
            scale * lift(lifted as nat, b as nat) == lift(a as nat, b as nat),
        decreases bound - lifted,
    {
        proof {
            let l = lift((lifted * 2) as nat, b as nat) as int;
            assert((scale * 2) * l == scale * (2 * l)) by (nonlinear_arith);
            assert(a * (scale * 2) == (a * scale) * 2) by (nonlinear_arith);
            assert(scale * 2 <= lifted * 2) by (nonlinear_arith)
                requires
                    lifted == a * scale,
                    a >= 1,
                    scale >= 1,
            ;
        }
        lifted = lifted * 2;
        scale = scale * 2;
    }
    assert(scale * 1 == scale);
    let quotient = rounded(lifted, b);
    assert(lifted / b <= 0x8_0000_0000_0000_0000) by (nonlinear_arith)
        requires
            a != 0 && scale > 1 ==> lifted < b * DOUBLE_LIMIT,
            scale == 1 ==> lifted <= 0x4_0000_0000_0000_0000,
            a == 0 ==> lifted == 0,
            b > 0,
            scale >= 1,
    ;
    assert(factor * quotient <= 65535 * 0x8_0000_0000_0000_0001) by (nonlinear_arith)
        requires
            factor <= 65535,
            quotient <= 0x8_0000_0000_0000_0001,
    ;
    let product: u128 = factor as u128 * quotient;
    nearest_double(product) / scale
}

// ---------- order ----------

proof fn lemma_round_monotone(a: nat, b: nat, d: nat)
    requires
        a <= b,
        d > 0,
    ensures
        round_half_even(a, d) <= round_half_even(b, d),
{
    let qa = a / d;
    let qb = b / d;
    let ra = a % d;
    let rb = b % d;
    vstd::arithmetic::div_mod::lemma_fundamental_div_mod(a as int, d as int);
    vstd::arithmetic::div_mod::lemma_fundamental_div_mod(b as int, d as int);
    assert(qa <= qb && (qa == qb ==> ra <= rb)) by (nonlinear_arith)
        requires
            a <= b,
            d > 0,
            a == d * qa + ra,
            b == d * qb + rb,
            ra < d,
            rb < d,
    ;
}

proof fn lemma_round_exact(k: nat, d: nat)
    requires
        d > 0,
    ensures
        round_half_even(k * d, d) == k,
{
    vstd::arithmetic::div_mod::lemma_div_multiples_vanish(k as int, d as int);
    vstd::arithmetic::div_mod::lemma_mod_multiples_basic(k as int, d as int);
    assert(k * d == d * k) by (nonlinear_arith);
}

proof fn lemma_round_doubled(n: nat, d: nat)
    requires
        d > 0,
    ensures
        round_half_even(2 * n, 2 * d) == round_half_even(n, d),
{
    let q = n / d;
    let r = n % d;
    vstd::arithmetic::div_mod::lemma_fundamental_div_mod(n as int, d as int);
    let m = (2 * n) as int;
    let e = (2 * d) as int;
    assert(m == q * e + 2 * r) by (nonlinear_arith)
        requires
            n == d * q + r,
            m == 2 * n,
            e == 2 * d,
    ;
    vstd::arithmetic::div_mod::lemma_fundamental_div_mod_converse(m, e, q as int, (2 * r) as int);
}

proof fn lemma_spacing_steps(n: nat, m: nat)
    requires
        n <= m,
    ensures
        spacing(n) == spacing(m) || 2 * spacing(n) <= spacing(m),
        m >= DOUBLE_LIMIT ==> spacing(m) * 4503599627370496 <= m,
    decreases m,
{
    lemma_spacing(m / 2);
    if m >= DOUBLE_LIMIT {
        if m / 2 >= DOUBLE_LIMIT {
            lemma_spacing_steps(m / 2, m / 2);
        }
        if n >= DOUBLE_LIMIT {
            lemma_spacing_steps(n / 2, m / 2);
        }
    }
}

/// Rounding to double keeps the order.
pub proof fn law_double_monotone(n: nat, m: nat)
    requires
        n <= m,
    ensures
        double_of(n) <= double_of(m),
{
    let s = spacing(n);
    let t = spacing(m);
    lemma_spacing(n);
    lemma_spacing(m);
    lemma_spacing_steps(n, m);
    if s == t {
        lemma_round_monotone(n, m, s);
        assert(round_half_even(n, s) * s <= round_half_even(m, s) * s) by (nonlinear_arith)
            requires
                round_half_even(n, s) <= round_half_even(m, s),
        ;
    } else {
        let limit = DOUBLE_LIMIT as nat;
        let half: nat = 4503599627370496;
        assert(limit * s == s * limit) by (nonlinear_arith);
        lemma_round_monotone(n, limit * s, s);
        lemma_round_exact(limit, s);
        assert(half * t == t * half) by (nonlinear_arith);
        lemma_round_monotone(half * t, m, t);
        lemma_round_exact(half, t);
        let qa = round_half_even(n, s);
        let qb = round_half_even(m, t);
        assert(qa * s <= qb * t) by (nonlinear_arith)
            requires
                qa <= 9007199254740992,
                4503599627370496 <= qb,
                2 * s <= t,
        ;
    }
}

/// Doubling commutes with rounding to double.
pub proof fn lemma_double_doubled(n: nat)
    ensures
        double_of(2 * n) == 2 * double_of(n),
{
    lemma_spacing(n);
    assert(spacing(2 * n) == if 2 * n < DOUBLE_LIMIT {
        1
    } else {
        2 * spacing(n)
    }) by {
        assert((2 * n) / 2 == n);
    }
    if 2 * n < DOUBLE_LIMIT {
        lemma_round_exact(2 * n, 1);
        lemma_round_exact(n, 1);
    } else {
        lemma_round_doubled(n, spacing(n));
        let q = round_half_even(n, spacing(n)) as int;
        let s = spacing(n) as int;
        assert(q * (2 * s) == 2 * (q * s)) by (nonlinear_arith);
    }
}

/// Scaling by a lift commutes with rounding to double.
proof fn lemma_double_lifted(f: nat, a: nat, b: nat)
    ensures
        double_of(f * lift(a, b)) == double_of(f) * lift(a, b),
        lift(a, b) >= 1,
    decreases b * DOUBLE_LIMIT - a,
{
    if !(a == 0 || b == 0 || a * 2 >= b * DOUBLE_LIMIT) {
        let l = lift(a * 2, b);
        lemma_double_lifted(f, a * 2, b);
        assert(f * (2 * l) == 2 * (f * l)) by (nonlinear_arith);
        lemma_double_doubled(f * l);
        let d = double_of(f);
        assert(d * (2 * l) == 2 * (d * l)) by (nonlinear_arith);
    } else {
        assert(f * 1 == f);
        assert(double_of(f) * 1 == double_of(f));
    }
}

proof fn lemma_small_double(f: nat)
    requires
        f < DOUBLE_LIMIT,
    ensures
        double_of(f) == f,
{
    lemma_round_exact(f, 1);
}

/// A part of a whole scales to at most the factor.
pub proof fn law_scaled_bounded(part: nat, whole: nat, factor: nat)
    requires
        part <= whole,
        whole > 0,
        factor < DOUBLE_LIMIT,
    ensures
        scaled(part, whole, factor) <= factor,
{
    let a = double_of(part);
    let b = double_of(whole);
    let s = lift(a, b);
    let q = round_half_even(a * s, b);
    law_double_monotone(part, whole);
    law_double_monotone(1, whole);
    lemma_small_double(1);
    lemma_double_lifted(factor, a, b);
    assert(a * s <= s * b) by (nonlinear_arith)
        requires
            a <= b,
    ;
    lemma_round_monotone(a * s, s * b, b);
    lemma_round_exact(s, b);
    assert(factor * q <= factor * s) by (nonlinear_arith)
        requires
            q <= s,
    ;
    law_double_monotone(factor * q, factor * s);
    lemma_small_double(factor);
    let d = double_of(factor * q);
    assert(d / s <= factor) by (nonlinear_arith)
        requires
            d <= factor * s,
            s >= 1,
    ;
}

/// How much further the smaller of two numerators is lifted.
proof fn lemma_lift_ratio(x: nat, y: nat, b: nat) -> (t: nat)
    requires
        0 < x <= y,
        b > 0,
    ensures
        lift(x, b) == lift(y, b) * t,
        t >= 1,
        forall|f: nat| double_of(#[trigger] (f * t)) == double_of(f) * t,
        t >= 2 ==> x * lift(x, b) < b * DOUBLE_LIMIT && y * lift(y, b) * 2 >= b * DOUBLE_LIMIT,
    decreases b * DOUBLE_LIMIT - x,
{
    lemma_lift_range(x, b);
    lemma_lift_range(y, b);
    if x * 2 >= b * DOUBLE_LIMIT {
        assert forall|f: nat| double_of(#[trigger] (f * 1)) == double_of(f) * 1 by {
            assert(f * 1 == f);
        }
        1
    } else if y * 2 >= b * DOUBLE_LIMIT {
        let t = lift(x, b);
        assert forall|f: nat| double_of(#[trigger] (f * t)) == double_of(f) * t by {
            lemma_double_lifted(f, x, b);
        }
        assert(1 * t == t);
        t
    } else {
        let t = lemma_lift_ratio(x * 2, y * 2, b);
        let lx = lift(x * 2, b);
        let ly = lift(y * 2, b);
        assert(2 * (ly * t) == (2 * ly) * t) by (nonlinear_arith);
        t
    }
}

proof fn lemma_lift_range(x: nat, b: nat)
    requires
        0 < x,
        b > 0,
    ensures
        lift(x, b) >= 1,
        lift(x, b) > 1 ==> x * lift(x, b) < b * DOUBLE_LIMIT,
        x * lift(x, b) * 2 >= b * DOUBLE_LIMIT,
    decreases b * DOUBLE_LIMIT - x,
{
    if x * 2 < b * DOUBLE_LIMIT {
        lemma_lift_range(x * 2, b);
        let l = lift(x * 2, b);
        assert(x * (2 * l) == (x * 2) * l) by (nonlinear_arith);
        if l == 1 {
            assert((x * 2) * 1 == x * 2);
        }
    } else {
        assert(x * 1 == x);
    }
}

/// The rounded quotients of two lifted numerators, on a common scale.
proof fn lemma_quotients(x: nat, y: nat, b: nat) -> (t: nat)
    requires
        0 < x <= y,
        b > 0,
    ensures
        lift(x, b) == lift(y, b) * t,
        t >= 1,
        forall|f: nat| double_of(#[trigger] (f * t)) == double_of(f) * t,
        round_half_even(x * lift(x, b), b) <= round_half_even(y * lift(y, b), b) * t,
        lift(y, b) >= 1,
{
    let t = lemma_lift_ratio(x, y, b);
    let sx = lift(x, b);
    let sy = lift(y, b);
    let qx = round_half_even(x * sx, b);
    let qy = round_half_even(y * sy, b);
    lemma_lift_range(y, b);
    if t == 1 {
        assert(sy * 1 == sy);
        assert(x * sx <= y * sx) by (nonlinear_arith)
            requires
                x <= y,
        ;
        lemma_round_monotone(x * sx, y * sy, b);
        assert(qy * 1 == qy);
    } else {
        let limit = DOUBLE_LIMIT as nat;
        let half: nat = 4503599627370496;
        assert(limit * b == b * limit) by (nonlinear_arith);
        lemma_round_monotone(x * sx, limit * b, b);
        lemma_round_exact(limit, b);
        assert(b * limit == (half * b) * 2) by (nonlinear_arith)
            requires
                half * 2 == limit,
        ;
        lemma_round_monotone(half * b, y * sy, b);
        lemma_round_exact(half, b);
        assert(qx <= qy * t) by (nonlinear_arith)
            requires
                qx <= 9007199254740992,
                qy >= 4503599627370496,
                t >= 2,
        ;
    }
    t
}

proof fn lemma_ratio_order(x: nat, y: nat, s: nat, t: nat)
    requires
        x <= y * t,
        s > 0,
        t > 0,
    ensures
        x / (s * t) <= y / s,
{
    vstd::arithmetic::mul::lemma_mul_strictly_positive(s as int, t as int);
    vstd::arithmetic::div_mod::lemma_div_is_ordered(x as int, (y * t) as int, (s * t) as int);
    vstd::arithmetic::mul::lemma_mul_is_commutative(s as int, t as int);
    vstd::arithmetic::mul::lemma_mul_is_commutative(y as int, t as int);
    vstd::arithmetic::div_mod::lemma_div_denominator((t * y) as int, t as int, s as int);
    vstd::arithmetic::div_mod::lemma_div_multiples_vanish(y as int, t as int);
}

/// A larger part of the same whole never scales to less.
pub proof fn law_scaled_monotone(p: nat, q: nat, whole: nat, factor: nat)
    requires
        p <= q,
        whole > 0,
    ensures
        scaled(p, whole, factor) <= scaled(q, whole, factor),
{
    let x = double_of(p);
    let y = double_of(q);
    let b = double_of(whole);
    law_double_monotone(p, q);
    law_double_monotone(1, whole);
    lemma_small_double(1);
    let sx = lift(x, b);
    let sy = lift(y, b);
    let qx = round_half_even(x * sx, b);
    let qy = round_half_even(y * sy, b);
    if x == 0 {
        assert(0 * sx == 0);
        lemma_round_exact(0, b);
        assert(0 * b == 0);
        assert(factor * 0 == 0);
        lemma_small_double(0);
        assert(scaled(p, whole, factor) == 0);
    } else {
        let t = lemma_quotients(x, y, b);
        assert(factor * qx <= factor * (qy * t)) by (nonlinear_arith)
            requires
                qx <= qy * t,
        ;
        assert(factor * (qy * t) == (factor * qy) * t) by (nonlinear_arith);
        law_double_monotone(factor * qx, (factor * qy) * t);
        assert(double_of((factor * qy) * t) == double_of(factor * qy) * t);
        lemma_ratio_order(double_of(factor * qx), double_of(factor * qy), sy, t);
    }
}

/// Up to 2^53 a double holds the number itself, and above it the nearest one
/// that has 53 leading bits: it is off by no more than half a unit of the
/// last of them.
pub proof fn law_doubles_are_near(n: nat)
    ensures
        n <= 9007199254740992 ==> double_of(n) == n,
        9007199254740992 * (double_of(n) - n) <= n,
        9007199254740992 * (n - double_of(n)) <= n,
{
    let s = spacing(n);
    lemma_spacing(n);
    lemma_spacing_steps(n, n);
    lemma_round_near(n, s);
    if n < 9007199254740992 {
        lemma_small_double(n);
    } else {
        if n == 9007199254740992 {
            lemma_small_double(n / 2);
            lemma_double_doubled(n / 2);
        }
        let d = double_of(n) as int;
        assert(9007199254740992 * (d - n) <= n && 9007199254740992 * (n - d) <= n)
            by (nonlinear_arith)
            requires
                2 * (d - n) <= s,
                2 * (n - d) <= s,
                s * 4503599627370496 <= n,
        ;
    }
}

/// Rounding a quotient is off by at most half.
pub proof fn lemma_round_near(a: nat, d: nat)
    requires
        d > 0,
    ensures
        2 * (round_half_even(a, d) * d - a) <= d,
        2 * (a - round_half_even(a, d) * d) <= d,
{
    let q = (a / d) as int;
    let r = (a % d) as int;
    vstd::arithmetic::div_mod::lemma_fundamental_div_mod(a as int, d as int);
    vstd::arithmetic::mul::lemma_mul_is_commutative(d as int, q);
    assert((q + 1) * d == q * d + d) by (nonlinear_arith);
}

/// Nothing scales to nothing, and the whole to the factor.
pub proof fn law_scaled_ends(whole: nat, factor: nat)
    requires
        whole > 0,
        factor < DOUBLE_LIMIT,
    ensures
        scaled(0, whole, factor) == 0,
        scaled(whole, whole, factor) == factor,
{
    let b = double_of(whole);
    law_double_monotone(1, whole);
    lemma_small_double(1);
    lemma_small_double(0);
    let s0 = lift(0, b);
    assert(0 * s0 == 0);
    lemma_round_exact(0, b);
    assert(0 * b == 0);
    assert(factor * 0 == 0);
    let s = lift(b, b);
    lemma_double_lifted(factor, b, b);
    lemma_small_double(factor);
    assert(b * s == s * b) by (nonlinear_arith);
    lemma_round_exact(s, b);
    assert((factor * s) / s == factor) by (nonlinear_arith)
        requires
            s >= 1,
    ;
}

/// A lifted numerator is as long as a double allows.
proof fn lemma_lift_reaches(a: nat, b: nat)
    requires
        a > 0,
        b > 0,
    ensures
        lift(a, b) >= 1,
        2 * (a * lift(a, b)) >= b * DOUBLE_LIMIT,
    decreases b * DOUBLE_LIMIT - a,
{
    if a * 2 >= b * DOUBLE_LIMIT {
        assert(a * 1 == a);
    } else {
        let l = lift(a * 2, b);
        lemma_lift_reaches(a * 2, b);
        assert((a * 2) * l == a * (2 * l)) by (nonlinear_arith);
    }
}

/// Scaling comes to the exact proportion, up to the rounding of its steps:
/// the result is at most the proportion, rounded up, and more than the
/// proportion less two.
pub proof fn law_scaled_is_proportional(part: nat, whole: nat, factor: nat)
    requires
        0 < whole <= 9007199254740992,
        part <= whole,
        factor <= 65535,
    ensures
        scaled(part, whole, factor) * whole < part * factor + whole,
        part * factor < (scaled(part, whole, factor) + 2) * whole,
{
    law_doubles_are_near(part);
    law_doubles_are_near(whole);
    if part == 0 {
        law_scaled_ends(whole, factor);
        assert(0 * whole == 0 && 0 * factor == 0);
        assert((0 + 2) * whole == 2 * whole);
    } else {
        let a = part as int;
        let b = whole as int;
        let f = factor as int;
        lemma_lift_reaches(part, whole);
        let s = lift(part, whole) as int;
        assert(part * lift(part, whole) == a * s);
        let q = round_half_even((a * s) as nat, whole) as int;
        assert(a * s >= 0) by (nonlinear_arith)
            requires
                a > 0,
                s >= 1,
        ;
        lemma_round_near((a * s) as nat, whole);
        assert(f * q >= 0) by (nonlinear_arith)
            requires
                f >= 0,
                q >= 0,
        ;
        let p = (f * q) as nat;
        law_doubles_are_near(p);
        let d = double_of(p) as int;
        let r = d / s;
        assert(scaled(part, whole, factor) == r);
        lemma_proportion(a, b, f, s, q, d, r);
    }
}

proof fn lemma_proportion(a: int, b: int, f: int, s: int, q: int, d: int, r: int)
    requires
        0 < a <= b,
        0 <= f <= 65535,
        s >= 1,
        q >= 0,
        2 * (a * s) >= b * 9007199254740992,
        2 * (q * b - a * s) <= b,
        2 * (a * s - q * b) <= b,
        9007199254740992 * (d - f * q) <= f * q,
        9007199254740992 * (f * q - d) <= f * q,
        r == d / s,
        b <= 9007199254740992,
    ensures
        r * b < a * f + b,
        a * f < (r + 2) * b,
{
    let big: int = 9007199254740992;
    let x = f * q;
    vstd::arithmetic::div_mod::lemma_fundamental_div_mod(d, s);
    let m = d % s;
    assert(d == s * r + m && 0 <= m < s);
    // The quotient lies on the unit interval, up to its rounding.
    assert(q <= s) by (nonlinear_arith)
        requires
            2 * (q * b - a * s) <= b,
            a <= b,
            b > 0,
            s >= 1,
    ;
    assert(s * 2 >= big) by (nonlinear_arith)
        requires
            2 * (a * s) >= b * big,
            0 < a <= b,
            s >= 1,
            big > 0,
    ;
    assert(x <= 65535 * s) by (nonlinear_arith)
        requires
            x == f * q,
            0 <= f <= 65535,
            0 <= q <= s,
    ;
    assert(131070 * s < big * s) by (nonlinear_arith)
        requires
            s >= 1,
            big == 9007199254740992,
    ;
    // Rounding the product moves it by less than a unit of the result.
    assert(131072 * (d - x) <= 2 * s && 131072 * (x - d) <= 2 * s) by (nonlinear_arith)
        requires
            big * (d - x) <= x,
            big * (x - d) <= x,
            x <= 65535 * s,
            big == 9007199254740992,
            s >= 1,
    ;
    // Rounding the quotient moves the product by at most half the factor.
    assert(2 * (x * b - f * (a * s)) <= f * b && 2 * (f * (a * s) - x * b) <= f * b)
        by (nonlinear_arith)
        requires
            x == f * q,
            2 * (q * b - a * s) <= b,
            2 * (a * s - q * b) <= b,
            f >= 0,
    ;
    assert(f * b * 2 <= 65535 * b * 2) by (nonlinear_arith)
        requires
            0 <= f <= 65535,
            b > 0,
    ;
    assert(131072 * b <= s * b) by (nonlinear_arith)
        requires
            s * 2 >= big,
            big == 9007199254740992,
            b > 0,
    ;
    let fa = f * a;
    assert(f * (a * s) == fa * s) by (nonlinear_arith)
        requires
            fa == f * a,
    ;
    let xb = x * b;
    let db = d * b;
    let sb = s * b;
    assert(131072 * (db - xb) <= 2 * sb && 131072 * (xb - db) <= 2 * sb) by (nonlinear_arith)
        requires
            131072 * (d - x) <= 2 * s,
            131072 * (x - d) <= 2 * s,
            db == d * b,
            xb == x * b,
            sb == s * b,
            b > 0,
    ;
    let fas = fa * s;
    assert(2 * (xb - fas) <= f * b && 2 * (fas - xb) <= f * b);
    assert(2 * (f * b) <= sb);
    // In all, the product is less than one unit off.
    assert(2 * (db - fas) < sb);
    assert(2 * (fas - db) < sb);
    let mb = m * b;
    let rbs = r * b * s;
    assert(db == rbs + mb) by (nonlinear_arith)
        requires
            db == d * b,
            d == s * r + m,
            rbs == r * b * s,
            mb == m * b,
    ;
    assert(0 <= mb < sb) by (nonlinear_arith)
        requires
            mb == m * b,
            sb == s * b,
            0 <= m < s,
            b > 0,
    ;
    assert(r * b < fa + b) by (nonlinear_arith)
        requires
            2 * (db - fas) < sb,
            db == rbs + mb,
            0 <= mb,
            rbs == r * b * s,
            fas == fa * s,
            sb == s * b,
            s >= 1,
            b > 0,
    ;
    assert(fa < (r + 2) * b) by (nonlinear_arith)
        requires
            2 * (fas - db) < sb,
            db == rbs + mb,
            mb < sb,
            rbs == r * b * s,
            fas == fa * s,
            sb == s * b,
            s >= 1,
            b > 0,
    ;
    assert(a * f == fa) by (nonlinear_arith)
        requires
            fa == f * a,
    ;
}

} // verus!
