//! What a share computed in doubles has in common with the exact one: the whole
//! gives back the count, a larger part or a larger count gives no smaller share,
//! and the rounding moves it by less than one.
//!
//! The proofs compare doubles as integers: each as its multiple of `2^-scale`,
//! for a `scale` large enough that all in question are such multiples.

use crate::budget::double::{
    nearest_even, nearest_integer, no_share, of_integer, product, quotient, round_scaling_up,
    rounded, share_of, Binary, BOUND, LEAST,
};
use vstd::arithmetic::div_mod::{lemma_fundamental_div_mod, lemma_fundamental_div_mod_converse};
use vstd::arithmetic::mul::lemma_mul_inequality;
use vstd::arithmetic::power2::{
    lemma2_to64, lemma2_to64_rest, lemma_pow2_adds, lemma_pow2_pos, lemma_pow2_unfold, pow2,
};
use vstd::prelude::*;

verus! {

/// How far apart two integers are.
pub open spec fn distance(a: int, b: int) -> int {
    if a <= b {
        b - a
    } else {
        a - b
    }
}

/// `significand * 2^exponent` as a multiple of `2^-scale`.
pub open spec fn multiple(significand: nat, exponent: int, scale: int) -> nat {
    significand * pow2((exponent + scale) as nat)
}

/// A double as a multiple of `2^-scale`.
spec fn scaled(a: Binary, scale: int) -> nat {
    multiple(a.significand, a.exponent, scale)
}

/// `num / den * 2^exponent` is positive, and its double is a multiple of `2^-scale`.
spec fn in_scale(num: nat, den: nat, exponent: int, scale: int) -> bool {
    &&& num > 0
    &&& den > 0
    &&& exponent + scale >= 0
    &&& multiple(num, exponent, scale) >= den * LEAST
}

/// `a` is a normal double within one part in `2^53` of `num / den * 2^exponent`.
spec fn near(a: Binary, num: nat, den: nat, exponent: int, scale: int) -> bool {
    let exact = multiple(num, exponent, scale);
    let found = den * scaled(a, scale);
    &&& a.exponent + scale >= 0
    &&& LEAST <= a.significand <= BOUND
    &&& found * BOUND <= exact * (BOUND + 1)
    &&& exact * (BOUND - 1) <= found * BOUND
}

/// `a` is no farther from `num / den * 2^exponent` than `m * 2^g` is.
spec fn nearer(a: Binary, num: nat, den: nat, exponent: int, scale: int, m: nat, g: int) -> bool {
    let exact = multiple(num, exponent, scale) as int;
    let found = (den * scaled(a, scale)) as int;
    let other = (den * multiple(m, g, scale)) as int;
    distance(found, exact) <= distance(other, exact)
}

/// The integer nearest to a quotient is within one half of it, and no integer
/// is nearer.
proof fn lemma_nearest_even(num: nat, den: nat, other: int)
    requires
        den > 0,
    ensures
        2 * (den * nearest_even(num, den)) <= 2 * num + den,
        2 * num <= 2 * (den * nearest_even(num, den)) + den,
        distance((den * nearest_even(num, den)) as int, num as int) <= distance(
            den * other,
            num as int,
        ),
{
    let whole = num / den;
    let found = nearest_even(num, den) as int;
    lemma_fundamental_div_mod(num as int, den as int);
    assert(den * (whole + 1) == den * whole + den) by (nonlinear_arith);
    if other > found {
        assert(den * other >= den * found + den) by (nonlinear_arith)
            requires
                other >= found + 1,
                den > 0,
        ;
    } else if other < found {
        assert(den * other <= den * found - den) by (nonlinear_arith)
            requires
                other <= found - 1,
                den > 0,
        ;
    }
}

/// Scaling a distance.
proof fn lemma_distance(a: int, b: int, unit: int)
    requires
        unit >= 0,
    ensures
        distance(a, b) * unit == distance(a * unit, b * unit),
{
    if a <= b {
        lemma_mul_inequality(a, b, unit);
        assert((b - a) * unit == b * unit - a * unit) by (nonlinear_arith);
    } else {
        lemma_mul_inequality(b, a, unit);
        assert((a - b) * unit == a * unit - b * unit) by (nonlinear_arith);
    }
}

/// A quotient of fifty-three bits, rounded to an integer, is near.
proof fn lemma_normal_near(num: nat, den: nat, exponent: int, scale: int)
    requires
        exponent + scale >= 0,
        den > 0,
        den * LEAST <= num < den * BOUND,
    ensures
        near(
            Binary { significand: nearest_even(num, den), exponent },
            num,
            den,
            exponent,
            scale,
        ),
{
    let sig = nearest_even(num, den);
    let n = num as int;
    let b = BOUND as int;
    let g = (den * sig) as int;
    let u = pow2((exponent + scale) as nat) as int;
    lemma_nearest_even(num, den, 0);
    lemma_fundamental_div_mod(n, den as int);
    assert(LEAST <= num / den < BOUND) by (nonlinear_arith)
        requires
            den * (num / den) + num % den == num,
            0 <= num % den < den,
            den * LEAST <= num < den * BOUND,
            den > 0,
    ;
    assert(b * den <= 2 * n) by (nonlinear_arith)
        requires
            n >= den * LEAST,
            b == 2 * LEAST,
    ;
    lemma_mul_inequality(2 * g, 2 * n + den, b);
    lemma_mul_inequality(2 * n, 2 * g + den, b);
    assert((2 * g) * b == 2 * (g * b)) by (nonlinear_arith);
    assert((2 * n) * b == 2 * (n * b)) by (nonlinear_arith);
    assert((2 * n + den) * b == 2 * (n * b) + b * den) by (nonlinear_arith);
    assert((2 * g + den) * b == 2 * (g * b) + b * den) by (nonlinear_arith);
    assert(n * (b + 1) == n * b + n) by (nonlinear_arith);
    assert(n * (b - 1) == n * b - n) by (nonlinear_arith);
    lemma_mul_inequality(g * b, n * (b + 1), u);
    lemma_mul_inequality(n * (b - 1), g * b, u);
    assert((g * b) * u == (g * u) * b) by (nonlinear_arith);
    assert((n * (b + 1)) * u == (n * u) * (b + 1)) by (nonlinear_arith);
    assert((n * (b - 1)) * u == (n * u) * (b - 1)) by (nonlinear_arith);
    assert(den * (sig * u) == g * u) by (nonlinear_arith)
        requires
            g == den * sig,
    ;
}

/// A quotient of fifty-three bits, rounded to an integer, has no double nearer.
proof fn lemma_normal_nearer(num: nat, den: nat, exponent: int, scale: int, m: nat, g: int)
    requires
        exponent + scale >= 0,
        g + scale >= 0,
        m <= BOUND,
        den > 0,
        den * LEAST <= num < den * BOUND,
    ensures
        nearer(
            Binary { significand: nearest_even(num, den), exponent },
            num,
            den,
            exponent,
            scale,
            m,
            g,
        ),
{
    let sig = nearest_even(num, den);
    let n = num as int;
    let u = pow2((exponent + scale) as nat) as int;
    let v = pow2((g + scale) as nat) as int;
    assert(den * (sig * u) == (den * sig) * u) by (nonlinear_arith);
    if g >= exponent {
        let k = m * pow2((g - exponent) as nat);
        lemma_pow2_adds((g - exponent) as nat, (exponent + scale) as nat);
        assert(den * (m * v) == (den * k) * u) by (nonlinear_arith)
            requires
                v == pow2((g - exponent) as nat) * u,
                k == m * pow2((g - exponent) as nat),
        ;
        lemma_nearest_even(num, den, k as int);
        lemma_distance((den * sig) as int, n, u);
        lemma_distance((den * k) as int, n, u);
        lemma_mul_inequality(
            distance((den * sig) as int, n),
            distance((den * k) as int, n),
            u,
        );
    } else {
        lemma_pow2_adds((exponent - g - 1) as nat, (g + scale) as nat);
        lemma_pow2_pos((exponent - g - 1) as nat);
        lemma_pow2_unfold((exponent + scale) as nat);
        let half = pow2((exponent + scale - 1) as nat) as int;
        assert(v <= half) by (nonlinear_arith)
            requires
                half == pow2((exponent - g - 1) as nat) * v,
                pow2((exponent - g - 1) as nat) >= 1,
                v >= 0,
        ;
        assert(m * v <= LEAST * u) by (nonlinear_arith)
            requires
                m <= 2 * LEAST,
                0 <= v <= half,
                u == 2 * half,
        ;
        lemma_mul_inequality((m * v) as int, LEAST * u, den as int);
        assert(den * (m * v) <= (den * LEAST) * u) by (nonlinear_arith)
            requires
                (m * v) * den <= (LEAST * u) * den,
        ;
        lemma_mul_inequality((den * LEAST) as int, n, u);
        lemma_nearest_even(num, den, LEAST as int);
        lemma_distance((den * sig) as int, n, u);
        lemma_distance((den * LEAST) as int, n, u);
        lemma_mul_inequality(
            distance((den * sig) as int, n),
            distance((den * LEAST) as int, n),
            u,
        );
    }
}

proof fn lemma_scaling_up(num: nat, den: nat, exponent: int, scale: int, m: nat, g: int)
    requires
        in_scale(num, den, exponent, scale),
        num < den * BOUND,
        g + scale >= 0,
        m <= BOUND,
    ensures
        near(round_scaling_up(num, den, exponent), num, den, exponent, scale),
        nearer(round_scaling_up(num, den, exponent), num, den, exponent, scale, m, g),
    decreases den * BOUND - num,
{
    if num < den * LEAST {
        let unit = pow2((exponent + scale) as nat);
        if exponent + scale == 0 {
            lemma2_to64();
            assert(num * unit == num) by (nonlinear_arith)
                requires
                    unit == 1,
            ;
            assert(false);
        }
        let half = pow2((exponent - 1 + scale) as nat);
        lemma_pow2_unfold((exponent + scale) as nat);
        assert((2 * num) * half == num * unit) by (nonlinear_arith)
            requires
                unit == 2 * half,
        ;
        lemma_scaling_up(2 * num, den, exponent - 1, scale, m, g);
    } else {
        lemma_normal_near(num, den, exponent, scale);
        lemma_normal_nearer(num, den, exponent, scale, m, g);
    }
}

/// Rounding to a double is accurate to one part in `2^53`, and no double is nearer.
proof fn lemma_rounded(num: nat, den: nat, exponent: int, scale: int, m: nat, g: int)
    requires
        in_scale(num, den, exponent, scale),
        g + scale >= 0,
        m <= BOUND,
    ensures
        near(rounded(num, den, exponent), num, den, exponent, scale),
        nearer(rounded(num, den, exponent), num, den, exponent, scale, m, g),
    decreases num - den,
{
    if num >= den * BOUND {
        let n = num as int;
        let d = den as int;
        let b = BOUND as int;
        let unit = pow2((exponent + scale) as nat) as int;
        let twice = pow2((exponent + 1 + scale) as nat) as int;
        lemma_pow2_unfold((exponent + 1 + scale) as nat);
        assert(n * twice == 2 * (n * unit)) by (nonlinear_arith)
            requires
                twice == 2 * unit,
        ;
        assert((2 * d) * LEAST == 2 * (d * LEAST)) by (nonlinear_arith);
        assert(num >= 2 * den) by (nonlinear_arith)
            requires
                num >= den * BOUND,
                BOUND >= 2,
        ;
        lemma_rounded(num, 2 * den, exponent + 1, scale, m, g);
        let a = rounded(num, den, exponent);
        assert(a == rounded(num, 2 * den, exponent + 1));
        let x = scaled(a, scale) as int;
        let y = multiple(m, g, scale) as int;
        assert((2 * d) * x == 2 * (d * x)) by (nonlinear_arith);
        assert((2 * d) * y == 2 * (d * y)) by (nonlinear_arith);
        assert((2 * (d * x)) * b == 2 * ((d * x) * b)) by (nonlinear_arith);
        assert((2 * (n * unit)) * (b + 1) == 2 * ((n * unit) * (b + 1))) by (nonlinear_arith);
        assert((2 * (n * unit)) * (b - 1) == 2 * ((n * unit) * (b - 1))) by (nonlinear_arith);
    } else {
        lemma_scaling_up(num, den, exponent, scale, m, g);
    }
}

proof fn lemma_same_nearest_even(num: nat, den: nat)
    requires
        den > 0,
    ensures
        nearest_even(2 * num, 2 * den) == nearest_even(num, den),
{
    let q = (num / den) as int;
    let r = (num % den) as int;
    lemma_fundamental_div_mod(num as int, den as int);
    assert(2 * num == q * (2 * den) + 2 * r) by (nonlinear_arith)
        requires
            num == den * q + r,
    ;
    lemma_fundamental_div_mod_converse((2 * num) as int, (2 * den) as int, q, 2 * r);
}

proof fn lemma_same_ratio_up(num: nat, den: nat, exponent: int)
    requires
        num > 0,
        den > 0,
    ensures
        round_scaling_up(2 * num, 2 * den, exponent) == round_scaling_up(num, den, exponent),
    decreases den * BOUND - num,
{
    assert((2 * den) * LEAST == 2 * (den * LEAST)) by (nonlinear_arith);
    if num < den * LEAST {
        lemma_same_ratio_up(2 * num, den, exponent - 1);
    } else {
        lemma_same_nearest_even(num, den);
    }
}

/// Rounding does not depend on how the quotient is written.
proof fn lemma_same_ratio(num: nat, den: nat, exponent: int)
    requires
        num > 0,
        den > 0,
    ensures
        rounded(2 * num, 2 * den, exponent) == rounded(num, den, exponent),
    decreases num - den,
{
    assert((2 * den) * BOUND == 2 * (den * BOUND)) by (nonlinear_arith);
    if num >= den * BOUND {
        assert(num >= 2 * den) by (nonlinear_arith)
            requires
                num >= den * BOUND,
                BOUND >= 2,
        ;
        lemma_same_ratio(num, 2 * den, exponent + 1);
        assert(rounded(num, den, exponent) == rounded(num, 2 * den, exponent + 1));
        assert(rounded(2 * num, 2 * den, exponent) == rounded(
            2 * num,
            2 * (2 * den),
            exponent + 1,
        ));
    } else {
        lemma_same_ratio_up(num, den, exponent);
    }
}

/// Nor on how the factor of two is written.
proof fn lemma_same_value(num1: nat, exponent1: int, num2: nat, exponent2: int, den: nat)
    requires
        num1 > 0,
        den > 0,
        exponent1 >= exponent2,
        num2 == num1 * pow2((exponent1 - exponent2) as nat),
    ensures
        rounded(num1, den, exponent1) == rounded(num2, den, exponent2),
    decreases exponent1 - exponent2,
{
    let k = (exponent1 - exponent2) as nat;
    lemma2_to64();
    if k == 0 {
        assert(num2 == num1) by (nonlinear_arith)
            requires
                num2 == num1 * pow2(k),
                pow2(k) == 1,
        ;
    } else {
        lemma_pow2_unfold(k);
        assert(num2 == (2 * num1) * pow2((k - 1) as nat)) by (nonlinear_arith)
            requires
                num2 == num1 * pow2(k),
                pow2(k) == 2 * pow2((k - 1) as nat),
        ;
        lemma_same_value(2 * num1, exponent1 - 1, num2, exponent2, den);
        if 2 * num1 >= den * BOUND {
            lemma_same_ratio(num1, den, exponent1);
            assert(rounded(2 * num1, den, exponent1 - 1) == rounded(
                2 * num1,
                2 * den,
                exponent1,
            ));
        } else {
            assert(den * BOUND == 2 * (den * LEAST)) by (nonlinear_arith)
                requires
                    BOUND == 2 * LEAST,
            ;
        }
    }
}

/// Equal multiples of `2^-scale` are one number written in two ways.
proof fn lemma_same_multiple(num1: nat, exponent1: int, num2: nat, exponent2: int, scale: int)
    requires
        exponent1 >= exponent2,
        exponent2 + scale >= 0,
        multiple(num1, exponent1, scale) == multiple(num2, exponent2, scale),
    ensures
        num2 == num1 * pow2((exponent1 - exponent2) as nat),
{
    let k = pow2((exponent1 - exponent2) as nat);
    let u = pow2((exponent2 + scale) as nat);
    lemma_pow2_adds((exponent1 - exponent2) as nat, (exponent2 + scale) as nat);
    lemma_pow2_pos((exponent2 + scale) as nat);
    assert(num2 == num1 * k) by (nonlinear_arith)
        requires
            num1 * (k * u) == num2 * u,
            u > 0,
    ;
}

/// Rounding keeps the order.
proof fn lemma_monotone(
    num1: nat,
    exponent1: int,
    num2: nat,
    exponent2: int,
    den: nat,
    scale: int,
)
    requires
        in_scale(num1, den, exponent1, scale),
        in_scale(num2, den, exponent2, scale),
        multiple(num1, exponent1, scale) <= multiple(num2, exponent2, scale),
    ensures
        scaled(rounded(num1, den, exponent1), scale) <= scaled(
            rounded(num2, den, exponent2),
            scale,
        ),
{
    let a1 = rounded(num1, den, exponent1);
    let a2 = rounded(num2, den, exponent2);
    if multiple(num1, exponent1, scale) == multiple(num2, exponent2, scale) {
        if exponent1 >= exponent2 {
            lemma_same_multiple(num1, exponent1, num2, exponent2, scale);
            lemma_same_value(num1, exponent1, num2, exponent2, den);
        } else {
            lemma_same_multiple(num2, exponent2, num1, exponent1, scale);
            lemma_same_value(num2, exponent2, num1, exponent1, den);
        }
    } else {
        lemma_rounded(num1, den, exponent1, scale, 0, -scale);
        lemma_rounded(num2, den, exponent2, scale, a1.significand, a1.exponent);
        lemma_rounded(num1, den, exponent1, scale, a2.significand, a2.exponent);
        let s1 = scaled(a1, scale);
        let s2 = scaled(a2, scale);
        if s1 > s2 {
            assert(den * s1 > den * s2) by (nonlinear_arith)
                requires
                    s1 > s2,
                    den > 0,
            ;
        }
    }
}

/// What is itself a double stays as it is.
proof fn lemma_exact(num: nat, den: nat, exponent: int, scale: int, m: nat, g: int)
    requires
        in_scale(num, den, exponent, scale),
        g + scale >= 0,
        m <= BOUND,
        den * multiple(m, g, scale) == multiple(num, exponent, scale),
    ensures
        scaled(rounded(num, den, exponent), scale) == multiple(m, g, scale),
{
    lemma_rounded(num, den, exponent, scale, m, g);
    let x = scaled(rounded(num, den, exponent), scale);
    let y = multiple(m, g, scale);
    assert(x == y) by (nonlinear_arith)
        requires
            den * x == den * y,
            den > 0,
    ;
}

/// The nearest integer is within one half.
proof fn lemma_nearest_integer(a: Binary, scale: nat)
    requires
        a.exponent + scale >= 0,
    ensures
        2 * (nearest_integer(a) * pow2(scale)) <= 2 * scaled(a, scale as int) + pow2(scale),
        2 * scaled(a, scale as int) + pow2(scale) < 2 * (nearest_integer(a) * pow2(scale)) + 2
            * pow2(scale),
{
    let n = nearest_integer(a) as int;
    let t = pow2(scale) as int;
    let s = a.significand as int;
    lemma_pow2_pos(scale);
    if a.exponent >= 0 {
        lemma_pow2_adds(a.exponent as nat, scale);
        assert(n * t == scaled(a, scale as int)) by (nonlinear_arith)
            requires
                n == s * pow2(a.exponent as nat),
                scaled(a, scale as int) == s * (pow2(a.exponent as nat) * t),
        ;
    } else {
        let d = pow2((-a.exponent) as nat) as int;
        let u = pow2((a.exponent + scale) as nat) as int;
        lemma_pow2_adds((-a.exponent) as nat, (a.exponent + scale) as nat);
        lemma_pow2_pos((-a.exponent) as nat);
        lemma_pow2_pos((a.exponent + scale) as nat);
        lemma_fundamental_div_mod(2 * s + d, 2 * d);
        assert(2 * (n * t) <= 2 * (s * u) + t < 2 * (n * t) + 2 * t) by {
            let r = (2 * s + d) % (2 * d);
            assert(t == d * u);
            assert(2 * d * n + r == 2 * s + d);
            assert(2 * (s * u) + d * u == 2 * (n * (d * u)) + r * u) by (nonlinear_arith)
                requires
                    2 * d * n + r == 2 * s + d,
            ;
            assert(0 <= r * u < 2 * (d * u)) by (nonlinear_arith)
                requires
                    0 <= r < 2 * d,
                    u > 0,
            ;
        }
    }
}

/// A normal double that is at least `2^-52` times its significand.
spec fn ordinary(a: Binary) -> bool {
    &&& a.exponent + 52 >= 0
    &&& LEAST <= a.significand <= BOUND
}

/// The scale on which the quotient by `whole` is measured.
spec fn ratio_scale(whole: Binary) -> int {
    whole.exponent + 157
}

proof fn lemma_integer(n: nat)
    requires
        n > 0,
    ensures
        in_scale(n, 1, 0, 52),
        ordinary(of_integer(n)),
        n <= BOUND ==> scaled(of_integer(n), 52) == n * LEAST,
{
    lemma2_to64_rest();
    assert(n * LEAST >= LEAST) by (nonlinear_arith)
        requires
            n >= 1,
    ;
    lemma_rounded(n, 1, 0, 52, 0, 0);
    if n <= BOUND {
        lemma_exact(n, 1, 0, 52, n, 0);
    }
}

proof fn lemma_integers_keep_order(n1: nat, n2: nat)
    requires
        0 < n1 <= n2,
    ensures
        scaled(of_integer(n1), 52) <= scaled(of_integer(n2), 52),
{
    lemma_integer(n1);
    lemma_integer(n2);
    lemma_mul_inequality(n1 as int, n2 as int, pow2(52) as int);
    lemma_monotone(n1, 0, n2, 0, 1, 52);
}

proof fn lemma_quotient(part: Binary, whole: Binary)
    requires
        ordinary(part),
        ordinary(whole),
    ensures
        in_scale(
            part.significand,
            whole.significand,
            part.exponent - whole.exponent,
            ratio_scale(whole),
        ),
        multiple(part.significand, part.exponent - whole.exponent, ratio_scale(whole)) == scaled(
            part,
            52,
        ) * pow2(105),
        ratio_scale(whole) >= 105,
{
    let u = pow2((part.exponent + 52) as nat);
    let s = part.significand;
    lemma_pow2_adds((part.exponent + 52) as nat, 105);
    lemma_pow2_adds(53, 52);
    lemma2_to64_rest();
    lemma_pow2_pos((part.exponent + 52) as nat);
    assert(s * (u * pow2(105)) == (s * u) * pow2(105)) by (nonlinear_arith);
    assert((s * u) * pow2(105) >= whole.significand * LEAST) by (nonlinear_arith)
        requires
            s >= 1,
            u >= 1,
            pow2(105) == BOUND * LEAST,
            whole.significand <= BOUND,
    ;
}

proof fn lemma_product(count: Binary, ratio: Binary, scale: int)
    requires
        ordinary(count),
        ratio.exponent + scale >= 0,
        ratio.significand >= LEAST,
    ensures
        in_scale(
            count.significand * ratio.significand,
            1,
            count.exponent + ratio.exponent,
            scale + 52,
        ),
        multiple(
            count.significand * ratio.significand,
            count.exponent + ratio.exponent,
            scale + 52,
        ) == scaled(count, 52) * scaled(ratio, scale),
{
    let c = count.significand;
    let r = ratio.significand;
    let u = pow2((count.exponent + 52) as nat);
    let v = pow2((ratio.exponent + scale) as nat);
    lemma_pow2_adds((count.exponent + 52) as nat, (ratio.exponent + scale) as nat);
    lemma_pow2_pos((count.exponent + 52) as nat);
    lemma_pow2_pos((ratio.exponent + scale) as nat);
    assert((c * r) * (u * v) == (c * u) * (r * v)) by (nonlinear_arith);
    assert(c * u >= LEAST) by (nonlinear_arith)
        requires
            c >= LEAST,
            u >= 1,
    ;
    assert(r * v >= 1) by (nonlinear_arith)
        requires
            r >= 1,
            v >= 1,
    ;
    assert((c * u) * (r * v) >= LEAST) by (nonlinear_arith)
        requires
            c * u >= LEAST,
            r * v >= 1,
    ;
    assert(c * r > 0) by (nonlinear_arith)
        requires
            c > 0,
            r > 0,
    ;
}

/// A share is no smaller for a larger count, nor for a larger part.
pub proof fn shares_keep_order(count1: nat, part1: nat, count2: nat, part2: nat, whole: nat)
    requires
        whole > 0,
        count1 <= count2,
        part1 <= part2,
    ensures
        share_of(count1, part1, whole) <= share_of(count2, part2, whole),
{
    if count1 == 0 || part1 == 0 {
        no_share(count1, part1, whole);
    } else {
        let w = of_integer(whole);
        let p1 = of_integer(part1);
        let p2 = of_integer(part2);
        let c1 = of_integer(count1);
        let c2 = of_integer(count2);
        let r1 = quotient(p1, w);
        let r2 = quotient(p2, w);
        let x1 = product(c1, r1);
        let x2 = product(c2, r2);
        let scale = ratio_scale(w);
        lemma_integer(whole);
        lemma_integer(part1);
        lemma_integer(part2);
        lemma_integer(count1);
        lemma_integer(count2);
        lemma_integers_keep_order(part1, part2);
        lemma_integers_keep_order(count1, count2);
        lemma_quotient(p1, w);
        lemma_quotient(p2, w);
        lemma_mul_inequality(
            scaled(p1, 52) as int,
            scaled(p2, 52) as int,
            pow2(105) as int,
        );
        let e1 = p1.exponent - w.exponent;
        let e2 = p2.exponent - w.exponent;
        lemma_monotone(p1.significand, e1, p2.significand, e2, w.significand, scale);
        lemma_rounded(p1.significand, w.significand, e1, scale, 0, 0);
        lemma_rounded(p2.significand, w.significand, e2, scale, 0, 0);
        lemma_product(c1, r1, scale);
        lemma_product(c2, r2, scale);
        assert(scaled(c1, 52) * scaled(r1, scale) <= scaled(c2, 52) * scaled(r2, scale))
            by (nonlinear_arith)
            requires
                scaled(c1, 52) <= scaled(c2, 52),
                scaled(r1, scale) <= scaled(r2, scale),
        ;
        let f1 = c1.exponent + r1.exponent;
        let f2 = c2.exponent + r2.exponent;
        let n1 = c1.significand * r1.significand;
        let n2 = c2.significand * r2.significand;
        lemma_monotone(n1, f1, n2, f2, 1, scale + 52);
        lemma_rounded(n1, 1, f1, scale + 52, 0, 0);
        lemma_rounded(n2, 1, f2, scale + 52, 0, 0);
        let last = (scale + 52) as nat;
        lemma_nearest_integer(x1, last);
        lemma_nearest_integer(x2, last);
        lemma_pow2_pos(last);
        assert(nearest_integer(x1) <= nearest_integer(x2)) by (nonlinear_arith)
            requires
                2 * (nearest_integer(x1) * pow2(last)) < 2 * (nearest_integer(x2) * pow2(last)) + 2
                    * pow2(last),
                pow2(last) > 0,
        ;
    }
}

/// The whole is the count itself, for a count that a double holds exactly.
pub proof fn whole_share_is_the_count(count: nat, whole: nat)
    requires
        whole > 0,
        count <= BOUND,
    ensures
        share_of(count, whole, whole) == count,
{
    if count == 0 {
        no_share(count, whole, whole);
    } else {
        let w = of_integer(whole);
        let c = of_integer(count);
        let r = quotient(w, w);
        let x = product(c, r);
        let scale = ratio_scale(w);
        let one = pow2(scale as nat);
        let last = (scale + 52) as nat;
        lemma_integer(whole);
        lemma_integer(count);
        lemma_quotient(w, w);
        lemma_exact(w.significand, w.significand, 0, scale, 1, 0);
        lemma_rounded(w.significand, w.significand, 0, scale, 0, 0);
        lemma_product(c, r, scale);
        lemma_pow2_adds(scale as nat, 52);
        lemma2_to64_rest();
        assert((count * LEAST) * one == count * pow2(last)) by (nonlinear_arith)
            requires
                pow2(last) == one * LEAST,
        ;
        let e = c.exponent + r.exponent;
        let n = c.significand * r.significand;
        lemma_exact(n, 1, e, scale + 52, count, 0);
        lemma_rounded(n, 1, e, scale + 52, 0, 0);
        lemma_nearest_integer(x, last);
        lemma_pow2_pos(last);
        assert(nearest_integer(x) == count) by (nonlinear_arith)
            requires
                2 * (nearest_integer(x) * pow2(last)) <= 2 * (count * pow2(last)) + pow2(last),
                2 * (count * pow2(last)) + pow2(last) < 2 * (nearest_integer(x) * pow2(last)) + 2
                    * pow2(last),
                pow2(last) > 0,
        ;
    }
}

/// A part of a count is no more than the count.
pub proof fn share_is_at_most_the_count(count: nat, part: nat, whole: nat)
    requires
        whole > 0,
        part <= whole,
        count <= BOUND,
    ensures
        share_of(count, part, whole) <= count,
{
    shares_keep_order(count, part, count, whole, whole);
    whole_share_is_the_count(count, whole);
}

/// The inner factors of a product of products change places.
proof fn lemma_interchange(a: int, b: int, c: int, d: int)
    ensures
        (a * b) * (c * d) == (a * c) * (b * d),
{
    assert((a * b) * (c * d) == (a * c) * (b * d)) by (nonlinear_arith);
}

/// A product of four factors, in the two orders that the roundings need.
proof fn lemma_reorder(x: int, b: int, w: int, k: int, low: int)
    ensures
        ((x * b) * ((w * k) * low)) * b == k * ((x * w) * (low * (b * b))),
{
    assert(((x * b) * ((w * k) * low)) * b == k * ((x * w) * (low * (b * b)))) by (nonlinear_arith);
}

/// What four roundings make of a share at most: `pk` and `wk` are `p` and `w` in
/// units of `1 / k`, `r / t` is the ratio of the two, and `x` is `c * k * r`; each
/// of them is rounded to one part in `b`, and `up` is `b + 1`.
proof fn lemma_roundings_above(
    c: int,
    p: int,
    w: int,
    pk: int,
    wk: int,
    r: int,
    x: int,
    t: int,
    k: int,
    b: int,
    up: int,
)
    requires
        0 <= c,
        0 <= wk,
        0 <= x,
        0 < t,
        0 < k,
        1 < b,
        0 < up,
        x * b <= ((c * k) * r) * up,
        (wk * r) * b <= (pk * t) * up,
        pk * b <= (p * k) * up,
        (w * k) * (b - 1) <= wk * b,
    ensures
        (x * w) * ((b - 1) * (b * b)) <= ((c * p) * (t * k)) * (up * (up * up)),
{
    let ck = c * k;
    let xb = x * b;
    let wb = wk * b;
    let ckup = ck * up;
    assert(xb >= 0 && wb >= 0 && ckup >= 0) by (nonlinear_arith)
        requires
            xb == x * b,
            wb == wk * b,
            ckup == (c * k) * up,
            x >= 0,
            wk >= 0,
            c >= 0,
            k > 0,
            b > 0,
            up > 0,
    ;
    let wkb = (w * k) * (b - 1);
    lemma_mul_inequality(wkb, wb, xb);
    assert(wkb * xb == xb * wkb) by (nonlinear_arith);
    lemma_mul_inequality(xb, (ck * r) * up, wb);
    assert(wb * xb == xb * wb) by (nonlinear_arith);
    assert(((ck * r) * up) * wb == ((wk * r) * b) * ckup) by (nonlinear_arith)
        requires
            wb == wk * b,
            ckup == ck * up,
    ;
    lemma_mul_inequality((wk * r) * b, (pk * t) * up, ckup);
    let first = xb * wkb;
    let second = ((pk * t) * up) * ckup;
    assert(first <= second);
    lemma_mul_inequality(first, second, b);
    let rest = (ckup * up) * t;
    assert(rest >= 0) by (nonlinear_arith)
        requires
            rest == (ckup * up) * t,
            ckup >= 0,
            up > 0,
            t > 0,
    ;
    assert(second * b == (pk * b) * rest) by (nonlinear_arith)
        requires
            second == ((pk * t) * up) * ckup,
            rest == (ckup * up) * t,
    ;
    lemma_mul_inequality(pk * b, (p * k) * up, rest);
    let bound = ((c * p) * (t * k)) * (up * (up * up));
    assert(((p * k) * up) * rest == k * bound) by {
        let squared = up * up;
        let kt = k * t;
        assert(rest == (c * kt) * squared) by (nonlinear_arith)
            requires
                rest == (((c * k) * up) * up) * t,
                squared == up * up,
                kt == k * t,
        ;
        lemma_interchange(p * k, up, c * kt, squared);
        assert((p * k) * (c * kt) == k * ((c * p) * kt)) by (nonlinear_arith);
        assert(kt == t * k) by (nonlinear_arith)
            requires
                kt == k * t,
        ;
        assert((k * ((c * p) * kt)) * (up * squared) == k * (((c * p) * kt) * (up * squared)))
            by (nonlinear_arith);
    }
    lemma_reorder(x, b, w, k, b - 1);
    let found = (x * w) * ((b - 1) * (b * b));
    assert(found <= bound) by (nonlinear_arith)
        requires
            k * found <= k * bound,
            k > 0,
    ;
}

/// What four roundings make of a share at least, with `down` for `b - 1`.
proof fn lemma_roundings_below(
    c: int,
    p: int,
    w: int,
    pk: int,
    wk: int,
    r: int,
    x: int,
    t: int,
    k: int,
    b: int,
    down: int,
)
    requires
        0 <= c,
        0 <= wk,
        0 <= x,
        0 < t,
        0 < k,
        1 < b,
        0 < down,
        ((c * k) * r) * down <= x * b,
        (pk * t) * down <= (wk * r) * b,
        (p * k) * down <= pk * b,
        wk * b <= (w * k) * (b + 1),
    ensures
        ((c * p) * (t * k)) * (down * (down * down)) <= (x * w) * ((b + 1) * (b * b)),
{
    let ck = c * k;
    let xb = x * b;
    let wb = wk * b;
    let ckdown = ck * down;
    assert(xb >= 0 && wb >= 0 && ckdown >= 0) by (nonlinear_arith)
        requires
            xb == x * b,
            wb == wk * b,
            ckdown == (c * k) * down,
            x >= 0,
            wk >= 0,
            c >= 0,
            k > 0,
            b > 0,
            down > 0,
    ;
    let wkb = (w * k) * (b + 1);
    lemma_mul_inequality(wb, wkb, xb);
    assert(wkb * xb == xb * wkb) by (nonlinear_arith);
    lemma_mul_inequality((ck * r) * down, xb, wb);
    assert(wb * xb == xb * wb) by (nonlinear_arith);
    assert(((ck * r) * down) * wb == ((wk * r) * b) * ckdown) by (nonlinear_arith)
        requires
            wb == wk * b,
            ckdown == ck * down,
    ;
    lemma_mul_inequality((pk * t) * down, (wk * r) * b, ckdown);
    let first = xb * wkb;
    let second = ((pk * t) * down) * ckdown;
    assert(second <= first);
    lemma_mul_inequality(second, first, b);
    let rest = (ckdown * down) * t;
    assert(rest >= 0) by (nonlinear_arith)
        requires
            rest == (ckdown * down) * t,
            ckdown >= 0,
            down > 0,
            t > 0,
    ;
    assert(second * b == (pk * b) * rest) by (nonlinear_arith)
        requires
            second == ((pk * t) * down) * ckdown,
            rest == (ckdown * down) * t,
    ;
    lemma_mul_inequality((p * k) * down, pk * b, rest);
    let bound = ((c * p) * (t * k)) * (down * (down * down));
    assert(((p * k) * down) * rest == k * bound) by {
        let squared = down * down;
        let kt = k * t;
        assert(rest == (c * kt) * squared) by (nonlinear_arith)
            requires
                rest == (((c * k) * down) * down) * t,
                squared == down * down,
                kt == k * t,
        ;
        lemma_interchange(p * k, down, c * kt, squared);
        assert((p * k) * (c * kt) == k * ((c * p) * kt)) by (nonlinear_arith);
        assert(kt == t * k) by (nonlinear_arith)
            requires
                kt == k * t,
        ;
        assert((k * ((c * p) * kt)) * (down * squared) == k * (((c * p) * kt) * (down * squared)))
            by (nonlinear_arith);
    }
    lemma_reorder(x, b, w, k, b + 1);
    let found = (x * w) * ((b + 1) * (b * b));
    assert(bound <= found) by (nonlinear_arith)
        requires
            k * bound <= k * found,
            k > 0,
    ;
}

/// The roundings together move a share by less than one half of the whole, where
/// the count is well below `b`. `exact` is the exact share and `xw` what becomes of
/// it, both in units of `1 / l` of the whole.
proof fn lemma_less_than_one_half(c: int, p: int, w: int, l: int, exact: int, xw: int, b: int)
    requires
        0 <= c,
        0 <= p <= w,
        0 < w,
        0 < l,
        b == BOUND,
        16 * c <= b,
        exact == (c * p) * l,
        xw * ((b - 1) * (b * b)) <= exact * ((b + 1) * ((b + 1) * (b + 1))),
        exact * ((b - 1) * ((b - 1) * (b - 1))) <= xw * ((b + 1) * (b * b)),
    ensures
        2 * xw < 2 * exact + w * l,
        2 * exact < 2 * xw + w * l,
{
    let b2 = b * b;
    let b3 = b2 * b;
    let low = b3 - b2;
    let high = b3 + b2;
    let more = 4 * b2 + 3 * b + 1;
    let less = 4 * b2 - 3 * b + 1;
    let wl = w * l;
    assert((b - 1) * b2 == low && (b + 1) * b2 == high) by (nonlinear_arith)
        requires
            low == b2 * b - b2,
            high == b2 * b + b2,
    ;
    assert((b + 1) * ((b + 1) * (b + 1)) == low + more) by (nonlinear_arith)
        requires
            low == (b * b) * b - b * b,
            more == 4 * (b * b) + 3 * b + 1,
    ;
    assert((b - 1) * ((b - 1) * (b - 1)) == high - less) by (nonlinear_arith)
        requires
            high == (b * b) * b + b * b,
            less == 4 * (b * b) - 3 * b + 1,
    ;
    assert(wl > 0) by (nonlinear_arith)
        requires
            wl == w * l,
            w > 0,
            l > 0,
    ;
    // The exact share is at most the count times the whole.
    assert(0 <= exact <= c * wl) by (nonlinear_arith)
        requires
            exact == (c * p) * l,
            wl == w * l,
            0 <= c,
            0 <= p <= w,
            l > 0,
    ;
    assert(b2 >= 64 * b && b3 >= 64 * b2) by (nonlinear_arith)
        requires
            b2 == b * b,
            b3 == b2 * b,
            b >= 64,
    ;
    assert(2 * (c * more) < low) by {
        lemma_mul_inequality(16 * c, b, more);
        assert((16 * c) * more == 16 * (c * more)) by (nonlinear_arith);
        assert(b * more == 4 * b3 + 3 * b2 + b) by (nonlinear_arith)
            requires
                more == 4 * b2 + 3 * b + 1,
                b3 == b2 * b,
                b2 == b * b,
        ;
    }
    lemma_mul_inequality(exact, c * wl, more);
    assert((c * wl) * more == (c * more) * wl) by (nonlinear_arith);
    assert(2 * ((c * more) * wl) < low * wl) by (nonlinear_arith)
        requires
            2 * (c * more) < low,
            wl > 0,
    ;
    assert(exact * (low + more) == exact * low + exact * more) by (nonlinear_arith);
    assert(exact * (high - less) == exact * high - exact * less) by (nonlinear_arith);
    assert(exact * less <= exact * more) by (nonlinear_arith)
        requires
            exact >= 0,
            less <= more,
    ;
    assert(low * wl <= high * wl) by (nonlinear_arith)
        requires
            low <= high,
            wl > 0,
    ;
    assert(2 * xw < 2 * exact + wl) by (nonlinear_arith)
        requires
            2 * (xw * low) < 2 * (exact * low) + low * wl,
            low > 0,
    ;
    assert(2 * exact < 2 * xw + wl) by (nonlinear_arith)
        requires
            2 * (exact * high) < 2 * (xw * high) + high * wl,
            high > 0,
    ;
}

/// A share is less than one away from the exact proportion, for counts up to `2^49`.
pub proof fn share_is_less_than_one_away(count: nat, part: nat, whole: nat)
    requires
        0 < whole,
        part <= whole,
        16 * count <= BOUND,
    ensures
        share_of(count, part, whole) * whole < count * part + whole,
        count * part < share_of(count, part, whole) * whole + whole,
{
    if count == 0 || part == 0 {
        no_share(count, part, whole);
        assert(count * part == 0) by (nonlinear_arith)
            requires
                count == 0 || part == 0,
        ;
        assert(0 * whole == 0);
    } else {
        let w = of_integer(whole);
        let p = of_integer(part);
        let c = of_integer(count);
        let r = quotient(p, w);
        let x = product(c, r);
        let scale = ratio_scale(w);
        let last = (scale + 52) as nat;
        let e = p.exponent - w.exponent;
        let f = c.exponent + r.exponent;
        lemma2_to64();
        lemma2_to64_rest();
        lemma_integer(whole);
        lemma_integer(part);
        lemma_integer(count);
        lemma_rounded(whole, 1, 0, 52, 0, 0);
        lemma_rounded(part, 1, 0, 52, 0, 0);
        lemma_quotient(p, w);
        lemma_rounded(p.significand, w.significand, e, scale, 0, 0);
        lemma_product(c, r, scale);
        lemma_rounded(c.significand * r.significand, 1, f, scale + 52, 0, 0);
        lemma_nearest_integer(x, last);
        lemma_pow2_adds(scale as nat, 52);
        lemma_pow2_pos(scale as nat);
        share_is_at_most_the_count(count, part, whole);
        let b = BOUND as int;
        let k = LEAST as int;
        let t = pow2(scale as nat) as int;
        let l = t * k;
        let rs = scaled(r, scale) as int;
        let xs = scaled(x, scale + 52) as int;
        let pk = scaled(p, 52) as int;
        let wk = scaled(w, 52) as int;
        let n = nearest_integer(x) as int;
        // The ratio, measured against the whole's own exponent.
        let u = pow2((w.exponent + 52) as nat) as int;
        let found = (w.significand * rs) * b;
        let exact = pk * pow2(105);
        lemma_pow2_adds(105, (w.exponent + 52) as nat);
        lemma_mul_inequality(found, exact * (b + 1), u);
        lemma_mul_inequality(exact * (b - 1), found, u);
        assert(found * u == (wk * rs) * b) by (nonlinear_arith)
            requires
                found == (w.significand * rs) * b,
                w.significand * u == wk,
        ;
        assert((exact * (b + 1)) * u == (pk * t) * (b + 1)) by (nonlinear_arith)
            requires
                exact == pk * pow2(105),
                t == pow2(105) * u,
        ;
        assert((exact * (b - 1)) * u == (pk * t) * (b - 1)) by (nonlinear_arith)
            requires
                exact == pk * pow2(105),
                t == pow2(105) * u,
        ;
        lemma_roundings_above(
            count as int, part as int, whole as int, pk, wk, rs, xs, t, k, b, b + 1,
        );
        lemma_roundings_below(
            count as int, part as int, whole as int, pk, wk, rs, xs, t, k, b, b - 1,
        );
        assert(l > 0) by (nonlinear_arith)
            requires
                l == t * k,
                t > 0,
                k > 0,
        ;
        let cp = (count * part) as int;
        let xw = xs * whole;
        lemma_less_than_one_half(
            count as int, part as int, whole as int, l, cp * l, xw, b,
        );
        let wl = whole * l;
        let nw = n * whole;
        lemma_mul_inequality(2 * (n * l), 2 * xs + l, whole as int);
        assert((2 * xs + l) * whole < (2 * (n * l) + 2 * l) * whole) by (nonlinear_arith)
            requires
                2 * xs + l < 2 * (n * l) + 2 * l,
                whole > 0,
        ;
        assert((2 * (n * l)) * whole == 2 * (nw * l)) by (nonlinear_arith)
            requires
                nw == n * whole,
        ;
        assert((2 * xs + l) * whole == 2 * xw + wl) by (nonlinear_arith)
            requires
                xw == xs * whole,
                wl == whole * l,
        ;
        assert((2 * (n * l) + 2 * l) * whole == 2 * (nw * l) + 2 * wl) by (nonlinear_arith)
            requires
                nw == n * whole,
                wl == whole * l,
        ;
        assert(nw < cp + whole && cp < nw + whole) by (nonlinear_arith)
            requires
                nw * l < cp * l + whole * l,
                cp * l < nw * l + whole * l,
                l > 0,
        ;
    }
}

/// No double is nearer to `num / den` than `found` is, with all of them measured in
/// multiples of `2^-scale`, and `num / den` in multiples of the same.
pub open spec fn is_nearest_double(found: Binary, num: int, den: int, scale: int) -> bool {
    &&& found.significand <= BOUND
    &&& found.exponent + scale >= 0
    &&& forall|m: nat, g: int|
        m <= BOUND && g + scale >= 0 ==> distance(
            den * multiple(found.significand, found.exponent, scale),
            num,
        ) <= distance(den * #[trigger] multiple(m, g, scale), num)
}

/// How a share comes about: the ratio is the double nearest to `part / whole`, the
/// product is the double nearest to the count times the ratio, and the share is the
/// integer nearest to the product, the larger of two that are equally near.
pub proof fn a_share_is_rounded_three_times(count: nat, part: nat, whole: nat) -> (r: (
    Binary,
    Binary,
    int,
))
    requires
        0 < count <= BOUND,
        0 < part <= whole <= BOUND,
    ensures
        ({
            let (ratio, scaled_count, scale) = r;
            let share = share_of(count, part, whole) as int;
            let one = pow2(scale as nat) as int;
            let wide = scale + 52;
            let whole_one = pow2(wide as nat) as int;
            let found = multiple(scaled_count.significand, scaled_count.exponent, wide) as int;
            &&& scale >= 0
            &&& is_nearest_double(ratio, part * one, whole as int, scale)
            &&& is_nearest_double(
                scaled_count,
                (count * multiple(ratio.significand, ratio.exponent, wide)) as int,
                1,
                wide,
            )
            &&& 2 * (share * whole_one) <= 2 * found + whole_one
            &&& 2 * found + whole_one < 2 * (share * whole_one) + 2 * whole_one
        }),
{
    let den = whole as int;
    let unit: int = 1;
    let w = of_integer(whole);
    let p = of_integer(part);
    let c = of_integer(count);
    let ratio = quotient(p, w);
    let x = product(c, ratio);
    let scale = ratio_scale(w);
    let wide = scale + 52;
    let e = p.exponent - w.exponent;
    let f = c.exponent + ratio.exponent;
    let k = LEAST as int;
    let t = pow2(scale as nat) as int;
    let u = pow2((w.exponent + 52) as nat) as int;
    lemma2_to64_rest();
    lemma_integer(whole);
    lemma_integer(part);
    lemma_integer(count);
    lemma_quotient(p, w);
    lemma_product_after_quotient(c, p, w);
    lemma_pow2_adds(105, (w.exponent + 52) as nat);
    lemma_pow2_pos((w.exponent + 52) as nat);
    let target = part * t;
    let rs = scaled(ratio, scale) as int;
    let exact = multiple(p.significand, e, scale) as int;
    assert(exact * u == k * target) by (nonlinear_arith)
        requires
            exact == (part * k) * pow2(105),
            t == pow2(105) * u,
            target == part * t,
    ;
    assert forall|m: nat, g: int| m <= BOUND && g + scale >= 0 implies distance(
        den * multiple(ratio.significand, ratio.exponent, scale),
        target,
    ) <= distance(den * #[trigger] multiple(m, g, scale), target) by {
        let z = multiple(m, g, scale) as int;
        lemma_rounded(p.significand, w.significand, e, scale, m, g);
        lemma_scaled_distances(w.significand as int, whole as int, rs, z, exact, target, u, k);
    }
    let num = c.significand * ratio.significand;
    let goal = count * multiple(ratio.significand, ratio.exponent, wide);
    assert(multiple(num, f, wide) == goal) by {
        lemma_pow2_adds((ratio.exponent + scale) as nat, 52);
        let a = ratio.significand as int;
        let v = pow2((ratio.exponent + scale) as nat) as int;
        assert((count * k) * (a * v) == count * (a * (v * k))) by (nonlinear_arith);
    }
    assert forall|m: nat, g: int| m <= BOUND && g + wide >= 0 implies distance(
        unit * multiple(x.significand, x.exponent, wide),
        goal as int,
    ) <= distance(unit * #[trigger] multiple(m, g, wide), goal as int) by {
        lemma_rounded(num, 1, f, wide, m, g);
    }
    lemma_rounded(num, 1, f, wide, 0, 0);
    lemma_nearest_integer(x, wide as nat);
    share_is_at_most_the_count(count, part, whole);
    (ratio, x, scale)
}

/// The ratio of two doubles is one that the product takes.
proof fn lemma_product_after_quotient(count: Binary, part: Binary, whole: Binary)
    requires
        ordinary(count),
        ordinary(part),
        ordinary(whole),
    ensures
        ({
            let ratio = quotient(part, whole);
            let scale = ratio_scale(whole);
            &&& ratio.significand <= BOUND
            &&& ratio.exponent + scale >= 0
            &&& in_scale(
                count.significand * ratio.significand,
                1,
                count.exponent + ratio.exponent,
                scale + 52,
            )
            &&& multiple(
                count.significand * ratio.significand,
                count.exponent + ratio.exponent,
                scale + 52,
            ) == scaled(count, 52) * scaled(ratio, scale)
        }),
{
    let scale = ratio_scale(whole);
    let e = part.exponent - whole.exponent;
    lemma_quotient(part, whole);
    lemma_rounded(part.significand, whole.significand, e, scale, 0, 0);
    lemma_product(count, quotient(part, whole), scale);
}

/// Distances keep their order when both sides are scaled by `u` and by `1 / k`.
proof fn lemma_scaled_distances(
    den: int,
    whole: int,
    found: int,
    other: int,
    exact: int,
    target: int,
    u: int,
    k: int,
)
    requires
        u > 0,
        k > 0,
        den * u == whole * k,
        exact * u == k * target,
        distance(den * found, exact) <= distance(den * other, exact),
    ensures
        distance(whole * found, target) <= distance(whole * other, target),
{
    lemma_distance(den * found, exact, u);
    lemma_distance(den * other, exact, u);
    lemma_mul_inequality(distance(den * found, exact), distance(den * other, exact), u);
    assert((den * found) * u == (whole * found) * k) by (nonlinear_arith)
        requires
            den * u == whole * k,
    ;
    assert((den * other) * u == (whole * other) * k) by (nonlinear_arith)
        requires
            den * u == whole * k,
    ;
    assert(exact * u == target * k) by (nonlinear_arith)
        requires
            exact * u == k * target,
    ;
    lemma_distance(whole * found, target, k);
    lemma_distance(whole * other, target, k);
    let one = distance(whole * found, target);
    let two = distance(whole * other, target);
    assert(one <= two) by (nonlinear_arith)
        requires
            one * k <= two * k,
            k > 0,
    ;
}

} // verus!
