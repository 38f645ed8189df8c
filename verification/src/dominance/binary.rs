//! Powers of two and the lowest set bit, as used by the merge-step traversal.

use vstd::prelude::*;
use vstd::arithmetic::div_mod::lemma_fundamental_div_mod;
use vstd::arithmetic::div_mod::lemma_fundamental_div_mod_converse;
use vstd::arithmetic::power2::pow2;
use vstd::arithmetic::power2::lemma_pow2_unfold;
use vstd::arithmetic::power2::lemma2_to64;
use vstd::arithmetic::power2::lemma_pow2_strictly_increases;

verus! {

/// `p` is one of 1, 2, 4, 8, ...
pub open spec fn power_of_two(p: nat) -> bool
    decreases p,
{
    if p == 0 {
        false
    } else if p == 1 {
        true
    } else {
        p % 2 == 0 && power_of_two(p / 2)
    }
}

/// The value of the lowest set bit of `x` (zero for zero).
pub open spec fn lowbit(x: nat) -> nat
    decreases x,
{
    if x == 0 {
        0
    } else if x % 2 == 1 {
        1
    } else {
        2 * lowbit(x / 2)
    }
}

/// Division with remainder, read backwards: `x == q * d + r` with `0 <= r < d`.
pub proof fn lemma_div_mod_of(x: nat, d: nat, q: nat, r: nat)
    requires
        d > 0,
        0 <= r < d,
        x == q * d + r,
    ensures
        x % d == r,
        x / d == q,
{
    lemma_fundamental_div_mod_converse(x as int, d as int, q as int, r as int);
}

pub proof fn lemma_power_of_two_pos(p: nat)
    requires
        power_of_two(p),
    ensures
        p >= 1,
        p >= 2 ==> p % 2 == 0,
{
}

pub proof fn lemma_power_of_two_double(p: nat)
    requires
        power_of_two(p),
    ensures
        power_of_two(2 * p),
{
    lemma_power_of_two_pos(p);
    assert((2 * p) % 2 == 0 && (2 * p) / 2 == p) by {
        lemma_div_mod_of(2 * p, 2, p, 0);
    }
}

/// Every `pow2(e)` is a power of two.
pub proof fn lemma_pow2_is_power_of_two(e: nat)
    ensures
        power_of_two(pow2(e)),
    decreases e,
{
    if e == 0 {
        lemma2_to64();
    } else {
        lemma_pow2_unfold(e);
        lemma_pow2_is_power_of_two((e - 1) as nat);
        lemma_power_of_two_double(pow2((e - 1) as nat));
    }
}

/// A power of two that fits in 64 bits has an exponent below 64.
pub proof fn lemma_pow2_exponent_bound(e: nat)
    requires
        pow2(e) <= u64::MAX,
    ensures
        e < 64,
{
    lemma2_to64();
    if e >= 64 {
        if e > 64 {
            lemma_pow2_strictly_increases(64, e);
        }
    }
}

/// Basic facts of the lowest set bit: it is a power of two dividing `x`, and
/// the quotient is odd.
pub proof fn lemma_lowbit(x: nat)
    requires
        x > 0,
    ensures
        power_of_two(lowbit(x)),
        1 <= lowbit(x) <= x,
        x % lowbit(x) == 0,
        x % (2 * lowbit(x)) == lowbit(x),
    decreases x,
{
    if x % 2 == 1 {
        assert(x % 1 == 0) by {
            lemma_div_mod_of(x, 1, x, 0);
        }
    } else {
        let y = x / 2;
        lemma_fundamental_div_mod(x as int, (2) as int);
        assert(x == 2 * y);
        lemma_lowbit(y);
        let ly = lowbit(y);
        assert(lowbit(x) == 2 * ly);
        lemma_power_of_two_double(ly);
        let q = y / (2 * ly);
        lemma_fundamental_div_mod(y as int, (2 * ly) as int);
        assert(y == (2 * ly) * q + ly);
        assert(x == (4 * ly) * q + 2 * ly) by (nonlinear_arith)
            requires
                y == (2 * ly) * q + ly,
                x == 2 * y,
        ;
        lemma_div_mod_of(x, 4 * ly, q, 2 * ly);
        assert(x == (2 * ly) * (2 * q + 1)) by (nonlinear_arith)
            requires
                x == (4 * ly) * q + 2 * ly,
        ;
        lemma_div_mod_of(x, 2 * ly, 2 * q + 1, 0);
    }
}

/// `s` is the lowest set bit of `x` when `x` is an odd multiple of `s`.
pub proof fn lemma_lowbit_unique(x: nat, s: nat)
    requires
        power_of_two(s),
        x % (2 * s) == s,
    ensures
        lowbit(x) == s,
    decreases s,
{
    lemma_power_of_two_pos(s);
    let q = x / (2 * s);
    lemma_fundamental_div_mod(x as int, (2 * s) as int);
    assert(x == (2 * s) * q + s);
    if s == 1 {
        assert(x == 2 * q + 1);
        lemma_div_mod_of(x, 2, q, 1);
    } else {
        let t = s / 2;
        lemma_fundamental_div_mod(s as int, (2) as int);
        assert(s == 2 * t);
        assert(x == 2 * ((2 * t) * q + t)) by (nonlinear_arith)
            requires
                x == (2 * s) * q + s,
                s == 2 * t,
        ;
        lemma_div_mod_of(x, 2, (2 * t) * q + t, 0);
        let y = x / 2;
        assert(y == (2 * t) * q + t);
        lemma_div_mod_of(y, 2 * t, q, t);
        lemma_lowbit_unique(y, t);
    }
}

/// A positive multiple of a power of two `s` has its lowest set bit at or
/// above `s`.
pub proof fn lemma_lowbit_at_least(x: nat, s: nat)
    requires
        power_of_two(s),
        x > 0,
        x % s == 0,
    ensures
        lowbit(x) >= s,
        lowbit(x) % s == 0,
    decreases s,
{
    lemma_power_of_two_pos(s);
    lemma_lowbit(x);
    if s == 1 {
        lemma_div_mod_of(lowbit(x), 1, lowbit(x), 0);
    } else {
        let t = s / 2;
        lemma_fundamental_div_mod(s as int, (2) as int);
        assert(s == 2 * t);
        let q = x / s;
        lemma_fundamental_div_mod(x as int, (s) as int);
        assert(x == s * q);
        assert(x == 2 * (t * q)) by (nonlinear_arith)
            requires
                x == s * q,
                s == 2 * t,
        ;
        lemma_div_mod_of(x, 2, t * q, 0);
        let y = x / 2;
        assert(y == t * q);
        assert(y > 0);
        lemma_div_mod_of(y, t, q, 0);
        lemma_lowbit_at_least(y, t);
        let k = lowbit(y) / t;
        lemma_fundamental_div_mod(lowbit(y) as int, (t) as int);
        assert(lowbit(y) == t * k);
        assert(lowbit(x) == 2 * lowbit(y));
        assert(lowbit(x) == s * k) by (nonlinear_arith)
            requires
                lowbit(x) == 2 * lowbit(y),
                lowbit(y) == t * k,
                s == 2 * t,
        ;
        lemma_div_mod_of(lowbit(x), s, k, 0);
    }
}

/// A positive multiple of `p` is at least `p`.
pub proof fn lemma_multiple_at_least(x: nat, p: nat)
    requires
        p > 0,
        x > 0,
        x % p == 0,
    ensures
        p <= x,
{
    let q = x / p;
    lemma_fundamental_div_mod(x as int, p as int);
    assert(x == p * q);
    assert(q >= 1) by (nonlinear_arith)
        requires
            x == p * q,
            x > 0,
    ;
    assert(p * q >= p) by (nonlinear_arith)
        requires
            q >= 1,
            p > 0,
    ;
}

/// A multiple of `a * k` is a multiple of `a`.
pub proof fn lemma_multiple_of_factor(x: nat, a: nat, k: nat)
    requires
        a > 0,
        k > 0,
        x % (a * k) == 0,
    ensures
        x % a == 0,
{
    assert(a * k > 0) by (nonlinear_arith)
        requires
            a > 0,
            k > 0,
    ;
    let q = x / (a * k);
    lemma_fundamental_div_mod(x as int, (a * k) as int);
    assert(x == (q * k) * a) by (nonlinear_arith)
        requires
            x == (a * k) * q,
    ;
    lemma_div_mod_of(x, a, q * k, 0);
}

/// A multiple of `s` is, modulo `2 * s`, either zero or `s`.
pub proof fn lemma_multiple_mod_double(x: nat, s: nat)
    requires
        s > 0,
        x % s == 0,
    ensures
        x % (2 * s) == 0 || x % (2 * s) == s,
{
    let m = x / s;
    lemma_fundamental_div_mod(x as int, (s) as int);
    assert(x == s * m);
    let h = m / 2;
    lemma_fundamental_div_mod(m as int, (2) as int);
    if m % 2 == 0 {
        assert(x == (2 * s) * h) by (nonlinear_arith)
            requires
                x == s * m,
                m == 2 * h,
        ;
        lemma_div_mod_of(x, 2 * s, h, 0);
    } else {
        assert(x == h * (2 * s) + s) by (nonlinear_arith)
            requires
                x == s * m,
                m == 2 * h + 1,
        ;
        lemma_div_mod_of(x, 2 * s, h, s);
    }
}

} // verus!
