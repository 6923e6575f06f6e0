use vstd::prelude::*;

use vstd::arithmetic::div_mod::{
    lemma_div_basics, lemma_div_pos_is_pos, lemma_fundamental_div_mod,
    lemma_fundamental_div_mod_converse, lemma_mod_multiples_basic, lemma_mod_self_0,
};
use vstd::arithmetic::power2::{
    lemma2_to64, lemma_pow2_adds, lemma_pow2_pos, lemma_pow2_strictly_increases, pow2,
};

verus! {

/// Euclid's greatest common divisor.
pub open spec fn gcd_s(a: nat, b: nat) -> nat
    decreases b,
{
    if b == 0 {
        a
    } else {
        gcd_s(b, (a % b) as nat)
    }
}

/// Least common multiple, `0` only when both arguments are `0`.
pub open spec fn lcm_s(a: nat, b: nat) -> nat {
    if gcd_s(a, b) == 0 {
        0
    } else {
        (a / gcd_s(a, b)) * b
    }
}

/// The greatest common divisor divides both arguments and is positive
/// whenever one of them is.
pub proof fn lemma_gcd_divides(a: nat, b: nat)
    ensures
        a + b > 0 ==> gcd_s(a, b) > 0,
        gcd_s(a, b) > 0 ==> a % gcd_s(a, b) == 0,
        gcd_s(a, b) > 0 ==> b % gcd_s(a, b) == 0,
    decreases b,
{
    if b == 0 {
        if a > 0 {
            lemma_mod_self_0(a as int);
        }
    } else {
        lemma_gcd_divides(b, a % b);
        let g = gcd_s(a, b);
        assert(g == gcd_s(b, a % b));
        assert(g > 0);
        lemma_fundamental_div_mod(a as int, b as int);
        lemma_fundamental_div_mod(b as int, g as int);
        lemma_fundamental_div_mod((a % b) as int, g as int);
        let k = (b as int / g as int) * (a as int / b as int) + (a % b) as int / g as int;
        assert(a as int == k * g) by (nonlinear_arith)
            requires
                a as int == b as int * (a as int / b as int) + (a % b) as int,
                b as int == g as int * (b as int / g as int),
                (a % b) as int == g as int * ((a % b) as int / g as int),
                k == (b as int / g as int) * (a as int / b as int) + (a % b) as int / g as int,
        ;
        lemma_mod_multiples_basic(k, g as int);
    }
}

/// Every common divisor of the arguments divides their greatest common
/// divisor.
pub proof fn lemma_gcd_greatest(a: nat, b: nat, c: nat)
    requires
        c > 0,
        a % c == 0,
        b % c == 0,
    ensures
        gcd_s(a, b) % c == 0,
    decreases b,
{
    if b == 0 {
    } else {
        lemma_fundamental_div_mod(a as int, b as int);
        lemma_fundamental_div_mod(a as int, c as int);
        lemma_fundamental_div_mod(b as int, c as int);
        let k = a as int / c as int - (b as int / c as int) * (a as int / b as int);
        assert((a % b) as int == k * c) by (nonlinear_arith)
            requires
                a as int == b as int * (a as int / b as int) + (a % b) as int,
                a as int == c as int * (a as int / c as int),
                b as int == c as int * (b as int / c as int),
                k == a as int / c as int - (b as int / c as int) * (a as int / b as int),
        ;
        lemma_mod_multiples_basic(k, c as int);
        lemma_gcd_greatest(b, a % b, c);
    }
}

/// Divisibility carries through a chain: if `c` divides `b` and `b` divides
/// `a`, then `c` divides `a`.
pub proof fn lemma_divides_trans(a: nat, b: nat, c: nat)
    requires
        b > 0,
        c > 0,
        a % b == 0,
        b % c == 0,
    ensures
        a % c == 0,
{
    lemma_fundamental_div_mod(a as int, b as int);
    lemma_fundamental_div_mod(b as int, c as int);
    let k = (b as int / c as int) * (a as int / b as int);
    assert(a as int == k * c) by (nonlinear_arith)
        requires
            a as int == b as int * (a as int / b as int) + (a % b) as int,
            a % b == 0,
            b as int == c as int * (b as int / c as int),
            k == (b as int / c as int) * (a as int / b as int),
    ;
    lemma_mod_multiples_basic(k, c as int);
}

/// Euclid's algorithm.
pub fn gcd_u32(a: u32, b: u32) -> (g: u32)
    ensures
        g as nat == gcd_s(a as nat, b as nat),
{
    let mut x = a;
    let mut y = b;
    while y != 0
        invariant
            gcd_s(x as nat, y as nat) == gcd_s(a as nat, b as nat),
        decreases y,
    {
        let t = x % y;
        x = y;
        y = t;
    }
    x
}

/// `2^e` as a machine word.
pub fn pow2_u64(e: u16) -> (r: u64)
    requires
        e <= 63,
    ensures
        r as nat == pow2(e as nat),
        r >= 1,
{
    let mut r: u64 = 1;
    let mut k: u16 = 0;
    proof {
        lemma2_to64();
    }
    while k < e
        invariant
            k <= e,
            e <= 63,
            r as nat == pow2(k as nat),
        decreases e - k,
    {
        proof {
            lemma_pow2_adds(k as nat, 1);
            lemma2_to64();
            lemma_pow2_strictly_increases((k + 1) as nat, 64);
            assert(pow2(64) == 0x10000000000000000) by {
                lemma_pow2_adds(32, 32);
                lemma2_to64();
            }
        }
        r = r * 2;
        k = k + 1;
    }
    proof {
        lemma_pow2_pos(e as nat);
    }
    r
}

/// The floor of `v / 2`, also for negative `v`.
pub fn halve_floor_i64(v: i64) -> (r: i64)
    ensures
        r as int == (v as int) / 2,
{
    if v >= 0 {
        ((v as u64) / 2) as i64
    } else {
        let m = (-(v + 1)) as u64;
        let q = (m / 2) as i64;
        proof {
            lemma_fundamental_div_mod(m as int, 2);
            lemma_fundamental_div_mod_converse(
                v as int,
                2,
                -(m as int / 2) - 1,
                1 - (m as int) % 2,
            );
        }
        -q - 1
    }
}

/// Dividing twice divides by the product, also for negative `x`.
pub proof fn lemma_div_twice(x: int, c: int, d: int)
    requires
        c > 0,
        d > 0,
    ensures
        (x / c) / d == x / (c * d),
{
    assert(c * d > 0) by (nonlinear_arith)
        requires
            c > 0,
            d > 0,
    ;
    let q = x / (c * d);
    let r = x % (c * d);
    lemma_fundamental_div_mod(x, c * d);
    lemma_fundamental_div_mod(r, c);
    assert(0 <= r % c < c);
    lemma_div_pos_is_pos(r, c);
    assert(r / c <= d - 1) by (nonlinear_arith)
        requires
            r == c * (r / c) + r % c,
            0 <= r % c,
            r < c * d,
            c > 0,
            r / c >= 0,
    ;
    assert(x == c * (d * q + r / c) + (r % c)) by (nonlinear_arith)
        requires
            x == (c * d) * q + r,
            r == c * (r / c) + r % c,
    ;
    lemma_fundamental_div_mod_converse(x, c, d * q + r / c, r % c);
    lemma_fundamental_div_mod_converse(x / c, d, q, r / c);
}

/// A quotient lies between two bounds exactly when the dividend lies in the
/// corresponding block of `d` consecutive values, also for negative `v`.
pub proof fn lemma_div_within(v: int, d: int, lo: int, hi: int)
    requires
        d >= 1,
    ensures
        (lo <= v / d && v / d <= hi) <==> (lo * d <= v && v <= (hi + 1) * d - 1),
{
    lemma_fundamental_div_mod(v, d);
    assert((lo <= v / d && v / d <= hi) <==> (lo * d <= v && v <= (hi + 1) * d - 1))
        by (nonlinear_arith)
        requires
            v == d * (v / d) + v % d,
            0 <= v % d < d,
            d >= 1,
    ;
}

/// Halving a quotient divides by twice the divisor, also for negative `v`.
pub proof fn lemma_halve_denominator(v: int, p: int)
    requires
        p > 0,
    ensures
        (v / p) / 2 == v / (2 * p),
{
    lemma_div_twice(v, p, 2);
    assert(p * 2 == 2 * p);
}

/// The floor of `v / 2^d`, also for negative `v`.
pub fn div_pow2_floor_i64(v: i64, d: u16) -> (r: i64)
    requires
        d <= 62,
    ensures
        r as int == (v as int) / (pow2(d as nat) as int),
{
    let mut cur = v;
    let mut k: u16 = 0;
    proof {
        lemma2_to64();
        lemma_div_basics(v as int);
    }
    while k < d
        invariant
            k <= d,
            cur as int == (v as int) / (pow2(k as nat) as int),
        decreases d - k,
    {
        proof {
            lemma_pow2_pos(k as nat);
            lemma_pow2_adds(k as nat, 1);
            lemma2_to64();
            lemma_halve_denominator(v as int, pow2(k as nat) as int);
        }
        cur = halve_floor_i64(cur);
        k = k + 1;
    }
    cur
}

/// Whether `v` is even.
pub fn is_even_i64(v: i64) -> (r: bool)
    ensures
        r <==> (v as int) % 2 == 0,
{
    if v >= 0 {
        let r = (v as u64) % 2 == 0;
        r
    } else {
        let m = (-(v + 1)) as u64;
        proof {
            lemma_fundamental_div_mod(m as int, 2);
            lemma_fundamental_div_mod_converse(
                v as int,
                2,
                -(m as int / 2) - 1,
                1 - (m as int) % 2,
            );
        }
        m % 2 == 1
    }
}

} // verus!
