//! The arithmetic of IEEE 754 double-precision numbers, on the non-negative
//! values that a weighted count goes through.
//!
//! A double holds a significand of fifty-three bits. Each operation here takes
//! the exact result and rounds it to the nearest such number, ties to the even
//! significand, so the outcome is bit for bit that of the hardware operation.
//! Every value in use lies between `2^-64` and `2^128`, or is zero, so neither
//! overflow nor gradual underflow comes into it.

use vstd::arithmetic::power2::{
    lemma2_to64, lemma2_to64_rest, lemma_pow2_adds, lemma_pow2_pos, lemma_pow2_strictly_increases, lemma_pow2_unfold, pow2,
};
use vstd::prelude::*;

verus! {

/// `2^52`, the least significand of a normal double.
pub const LEAST: u64 = 0x10_0000_0000_0000;

/// `2^53`, the bound that every significand stays below before rounding.
pub const BOUND: u64 = 0x20_0000_0000_0000;

/// The bound on a numerator: the product of two significands, `2^106`.
pub const WIDEST: u128 = 0x400_0000_0000_0000_0000_0000_0000;

/// The number `significand * 2^exponent`.
pub struct Binary {
    pub significand: nat,
    pub exponent: int,
}

/// The integer nearest to `num / den`; of two that are equally near, the even one.
pub open spec fn nearest_even(num: nat, den: nat) -> nat {
    let whole = num / den;
    let twice = 2 * (num % den);
    if twice < den || (twice == den && whole % 2 == 0) {
        whole
    } else {
        whole + 1
    }
}

/// `num / den * 2^exponent` as a double, where `num / den` is below `2^53`:
/// scaled up until the quotient has fifty-three bits, then rounded.
pub open spec fn round_scaling_up(num: nat, den: nat, exponent: int) -> Binary
    decreases den * BOUND - num,
{
    if 0 < num < den * LEAST {
        round_scaling_up(2 * num, den, exponent - 1)
    } else {
        Binary { significand: nearest_even(num, den), exponent }
    }
}

/// `num / den * 2^exponent` as a double: scaled down until the quotient is
/// below `2^53`, then as `round_scaling_up` says.
pub open spec fn round_scaling_down(num: nat, den: nat, exponent: int) -> Binary
    decreases num - den,
{
    if 0 < den && num >= den * BOUND {
        round_scaling_down(num, 2 * den, exponent + 1)
    } else {
        round_scaling_up(num, den, exponent)
    }
}

/// The double nearest to `num / den * 2^exponent`, ties to the even significand.
pub open spec fn rounded(num: nat, den: nat, exponent: int) -> Binary {
    if num == 0 {
        Binary { significand: 0, exponent: 0 }
    } else {
        round_scaling_down(num, den, exponent)
    }
}

/// The double nearest to the integer `n`.
pub open spec fn of_integer(n: nat) -> Binary {
    rounded(n, 1, 0)
}

/// The double nearest to the quotient of two doubles.
pub open spec fn quotient(a: Binary, b: Binary) -> Binary {
    rounded(a.significand, b.significand, a.exponent - b.exponent)
}

/// The double nearest to the product of two doubles.
pub open spec fn product(a: Binary, b: Binary) -> Binary {
    rounded(a.significand * b.significand, 1, a.exponent + b.exponent)
}

/// The integer nearest to a double; of two that are equally near, the larger.
pub open spec fn nearest_integer(a: Binary) -> nat {
    if a.exponent >= 0 {
        a.significand * pow2(a.exponent as nat)
    } else {
        let den = pow2((-a.exponent) as nat);
        (2 * a.significand + den) / (2 * den)
    }
}

/// `n`, or the largest `u64` where `n` is larger.
pub open spec fn saturated(n: nat) -> u64 {
    if n > u64::MAX {
        u64::MAX
    } else {
        n as u64
    }
}

/// `count * (part / whole)`, each operation rounded to a double, and the last
/// taken to the nearest integer.
pub open spec fn share_of(count: nat, part: nat, whole: nat) -> u64 {
    let ratio = quotient(of_integer(part), of_integer(whole));
    saturated(nearest_integer(product(of_integer(count), ratio)))
}

/// A non-negative double in executable code.
#[derive(Clone, Copy, Debug)]
struct Double {
    significand: u64,
    exponent: i32,
}

impl View for Double {
    type V = Binary;

    closed spec fn view(&self) -> Binary {
        Binary { significand: self.significand as nat, exponent: self.exponent as int }
    }
}

/// The values of the powers of two that the constants stand for.
proof fn lemma_constants()
    ensures
        pow2(0) == 1,
        pow2(52) == LEAST,
        pow2(53) == BOUND,
        pow2(106) == WIDEST,
{
    lemma2_to64();
    lemma2_to64_rest();
    lemma_pow2_adds(53, 53);
}

/// A power of two that is at most another has the smaller exponent.
proof fn lemma_exponent_bound(k: nat, limit: nat)
    requires
        pow2(k) <= pow2(limit),
    ensures
        k <= limit,
{
    if k > limit {
        lemma_pow2_strictly_increases(limit, k);
    }
}

/// Powers of two do not decrease.
proof fn lemma_doubling(low: nat, high: nat)
    requires
        low <= high,
    ensures
        pow2(low) <= pow2(high),
{
    if low < high {
        lemma_pow2_strictly_increases(low, high);
    }
}

/// Rounds the positive or zero number `num / den * 2^exponent` to a double.
fn round(num: u128, den: u128, exponent: i32) -> (result: Double)
    requires
        num <= WIDEST,
        1 <= den <= BOUND,
        -1000 <= exponent <= 1000,
    ensures
        result@ == rounded(num as nat, den as nat, exponent as int),
        result.significand <= BOUND,
        num > 0 ==> result.significand >= LEAST,
        exponent - 107 <= result.exponent <= exponent + 54 || num == 0,
        num == 0 ==> result.exponent == 0,
{
    if num == 0 {
        return Double { significand: 0, exponent: 0 };
    }
    let mut n: u128 = num;
    let mut d: u128 = den;
    let mut e: i32 = exponent;
    proof {
        lemma_constants();
        assert(den * pow2(0) == den && num * pow2(0) == num) by (nonlinear_arith)
            requires
                pow2(0) == 1,
        ;
    }
    while n >= d * (BOUND as u128)
        invariant
            n == num,
            0 < n <= WIDEST,
            -1000 <= exponent <= 1000,
            1 <= den <= BOUND,
            exponent <= e <= exponent + 54,
            1 <= d <= 2 * BOUND,
            d == den * pow2((e - exponent) as nat),
            d == den || n >= d * LEAST,
            round_scaling_down(n as nat, d as nat, e as int) == round_scaling_down(
                num as nat,
                den as nat,
                exponent as int,
            ),
        decreases n - d,
    {
        let ghost k = (e - exponent) as nat;
        d = 2 * d;
        e = e + 1;
        proof {
            lemma_constants();
            lemma_pow2_unfold(k + 1);
            lemma_pow2_unfold(54);
            assert(d == den * pow2(k + 1)) by (nonlinear_arith)
                requires
                    d == 2 * (den * pow2(k)),
                    pow2(k + 1) == 2 * pow2(k),
            ;
            assert(pow2(k + 1) <= d) by (nonlinear_arith)
                requires
                    d == den * pow2(k + 1),
                    den >= 1,
            ;
            lemma_exponent_bound(k + 1, 54);
        }
    }
    let ghost e_down: int = e as int;
    while n < d * (LEAST as u128)
        invariant
            0 < num <= n,
            n < d * BOUND,
            -1000 <= exponent <= 1000,
            1 <= den <= BOUND,
            1 <= d <= 2 * BOUND,
            d == den || n >= d * LEAST,
            exponent <= e_down <= exponent + 54,
            e_down - 107 <= e <= e_down,
            n == num * pow2((e_down - e) as nat),
            round_scaling_up(n as nat, d as nat, e as int) == round_scaling_down(
                num as nat,
                den as nat,
                exponent as int,
            ),
        decreases d * BOUND - n,
    {
        let ghost k = (e_down - e) as nat;
        n = 2 * n;
        e = e - 1;
        proof {
            lemma_constants();
            lemma_pow2_unfold(k + 1);
            lemma_pow2_unfold(107);
            assert(n == num * pow2(k + 1)) by (nonlinear_arith)
                requires
                    n == 2 * (num * pow2(k)),
                    pow2(k + 1) == 2 * pow2(k),
            ;
            assert(pow2(k + 1) <= n) by (nonlinear_arith)
                requires
                    n == num * pow2(k + 1),
                    num >= 1,
            ;
            lemma_exponent_bound(k + 1, 107);
        }
    }
    let whole: u128 = n / d;
    let rest: u128 = n % d;
    assert(LEAST <= whole < BOUND && n == whole * d + rest && rest < d) by {
        vstd::arithmetic::div_mod::lemma_fundamental_div_mod(n as int, d as int);
        assert(whole < BOUND) by (nonlinear_arith)
            requires
                n < d * BOUND,
                n == d * whole + rest,
                rest >= 0,
                d >= 1,
        ;
        assert(whole >= LEAST) by (nonlinear_arith)
            requires
                n >= d * LEAST,
                n == d * whole + rest,
                rest < d,
                d >= 1,
        ;
        assert(d * whole == whole * d) by (nonlinear_arith);
    }
    if 2 * rest < d || (2 * rest == d && whole % 2 == 0) {
        Double { significand: whole as u64, exponent: e }
    } else {
        Double { significand: (whole + 1) as u64, exponent: e }
    }
}

/// The integer nearest to a double, or `u64::MAX` where that is larger.
fn nearest(a: Double) -> (result: u64)
    requires
        a.significand <= BOUND,
        -1000 <= a.exponent <= 1000,
    ensures
        result == saturated(nearest_integer(a@)),
{
    proof {
        lemma_constants();
        assert(a.significand * pow2(0) == a.significand) by (nonlinear_arith)
            requires
                pow2(0) == 1,
        ;
    }
    if a.exponent >= 0 {
        let mut v: u64 = a.significand;
        let mut k: i32 = 0;
        while k < a.exponent
            invariant
                0 <= k <= a.exponent <= 1000,
                v == a.significand * pow2(k as nat),
            decreases a.exponent - k,
        {
            proof {
                lemma_pow2_unfold((k + 1) as nat);
                assert(a.significand * pow2((k + 1) as nat) == 2 * v) by (nonlinear_arith)
                    requires
                        v == a.significand * pow2(k as nat),
                        pow2((k + 1) as nat) == 2 * pow2(k as nat),
                ;
            }
            if v > u64::MAX / 2 {
                proof {
                    lemma_doubling((k + 1) as nat, a.exponent as nat);
                    assert(nearest_integer(a@) >= 2 * v) by (nonlinear_arith)
                        requires
                            a.significand * pow2((k + 1) as nat) == 2 * v,
                            nearest_integer(a@) == a.significand * pow2(a.exponent as nat),
                            pow2(a.exponent as nat) >= pow2((k + 1) as nat),
                    ;
                }
                return u64::MAX;
            }
            v = 2 * v;
            k = k + 1;
        }
        v
    } else if a.exponent < -54 {
        proof {
            let den = pow2((-a.exponent) as nat);
            lemma_pow2_unfold(54);
            lemma_pow2_unfold(55);
            lemma_doubling(55, (-a.exponent) as nat);
            vstd::arithmetic::div_mod::lemma_basic_div(
                (2 * a.significand + den) as int,
                (2 * den) as int,
            );
        }
        0
    } else {
        let mut den: u64 = 1;
        let mut k: i32 = 0;
        while k < -a.exponent
            invariant
                0 <= k <= -a.exponent <= 54,
                den == pow2(k as nat),
                den <= 2 * BOUND,
            decreases -a.exponent - k,
        {
            proof {
                lemma_constants();
                lemma_pow2_unfold((k + 1) as nat);
                lemma_pow2_unfold(54);
                lemma_doubling((k + 1) as nat, 54);
            }
            den = 2 * den;
            k = k + 1;
        }
        proof {
            lemma_pow2_pos((-a.exponent) as nat);
            assert((2 * a.significand + den) / (2 * den) <= 2 * a.significand + den)
                by (nonlinear_arith)
                requires
                    den >= 1,
            ;
        }
        (2 * a.significand + den) / (2 * den)
    }
}

/// `count * (part / whole)`, computed in doubles and taken to the nearest integer.
pub fn share(count: u64, part: u64, whole: u64) -> (result: u64)
    requires
        whole > 0,
    ensures
        result == share_of(count as nat, part as nat, whole as nat),
{
    let part = round(part as u128, 1, 0);
    let whole = round(whole as u128, 1, 0);
    let ratio = round(
        part.significand as u128,
        whole.significand as u128,
        part.exponent - whole.exponent,
    );
    let count = round(count as u128, 1, 0);
    proof {
        lemma_constants();
        assert(count.significand * ratio.significand <= WIDEST) by (nonlinear_arith)
            requires
                count.significand <= BOUND,
                ratio.significand <= BOUND,
                BOUND * BOUND == WIDEST,
        ;
    }
    let scaled = round(
        count.significand as u128 * ratio.significand as u128,
        1,
        count.exponent + ratio.exponent,
    );
    nearest(scaled)
}

/// A share of nothing, and no share of anything, is nothing.
pub proof fn no_share(count: nat, part: nat, whole: nat)
    requires
        whole > 0,
        count == 0 || part == 0,
    ensures
        share_of(count, part, whole) == 0,
{
    let ratio = quotient(of_integer(part), of_integer(whole));
    assert(of_integer(count).significand * ratio.significand == 0) by (nonlinear_arith)
        requires
            of_integer(count).significand == 0 || ratio.significand == 0,
    ;
    lemma_constants();
}

} // verus!
