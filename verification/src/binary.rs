//! Binary floating point carried out on integers.
//!
//! The composer shapes phrases with double-precision numbers. Every number it handles is
//! a multiple of a small power of two, so each operation can be done exactly on
//! integers and then rounded to the 53 significant bits that a double holds, ties to
//! even. The results are those of the hardware, bit for bit, on every machine.

use vstd::arithmetic::div_mod::{
    lemma_div_denominator, lemma_div_is_ordered_by_denominator, lemma_div_pos_is_pos,
    lemma_fundamental_div_mod, lemma_mod_bound, lemma_mod_multiples_basic,
};
use vstd::arithmetic::power2::{
    lemma2_to64, lemma2_to64_rest, lemma_pow2_adds, lemma_pow2_pos, lemma_pow2_strictly_increases,
    lemma_pow2_unfold, pow2,
};
use vstd::prelude::*;

verus! {

/// 2^53, the first magnitude with more significant bits than a double holds.
pub const DOUBLE_LIMIT: u128 = 0x20_0000_0000_0000;

/// 2^24, the first magnitude with more significant bits than a single holds.
pub const SINGLE_LIMIT: u128 = 0x100_0000;

/// The number one in units of 2^-107.
pub const ONE: i128 = 0x800_0000_0000_0000_0000_0000_0000;

/// The largest magnitude that is rounded here.
pub const MAX_MAGNITUDE: i128 = 0x2000_0000_0000_0000_0000_0000_0000_0000;

/// The spacing of the numbers that have as many bits as `limit` allows around the
/// magnitude `a`: the least power of two that brings `a` below `limit`.
pub open spec fn spacing(a: nat, limit: nat) -> nat
    decreases a,
{
    if a < limit || limit == 0 {
        1
    } else {
        2 * spacing(a / 2, limit)
    }
}

/// `q + r / p` rounded to the nearest integer, ties to even.
pub open spec fn half_even(q: int, r: int, p: int) -> int {
    if 2 * r < p || (2 * r == p && q % 2 == 0) {
        q
    } else {
        q + 1
    }
}

/// The magnitude `a` rounded to as many significant bits as `limit` allows.
pub open spec fn round_magnitude(a: nat, limit: nat) -> int {
    let p = spacing(a, limit) as int;
    half_even(a as int / p, a as int % p, p) * p
}

/// The integer `x` rounded to as many significant bits as `limit` allows.
pub open spec fn round_to(x: int, limit: nat) -> int {
    if x < 0 {
        -round_magnitude((-x) as nat, limit)
    } else {
        round_magnitude(x as nat, limit)
    }
}

/// The integer `x` rounded as a double.
pub open spec fn double(x: int) -> int {
    round_to(x, DOUBLE_LIMIT as nat)
}

/// The least power of two that brings `n / d` up to 2^52 or more.
pub open spec fn stretch(n: nat, d: nat) -> nat
    decreases 0x20_0000_0000_0000 * d - n,
{
    if n == 0 || n >= 0x10_0000_0000_0000 * d {
        1
    } else {
        2 * stretch(2 * n, d)
    }
}

/// The double nearest to `n / d`, in units of 2^-107, for a quotient in [0, 1].
pub open spec fn quotient(n: nat, d: nat) -> int {
    if n == 0 {
        0
    } else {
        let p = stretch(n, d) as int;
        half_even((n * p) / d as int, (n * p) % d as int, d as int) * (ONE as int / p)
    }
}

/// A double, in units of 2^-107.
#[derive(Debug, Clone, Copy)]
pub struct Real {
    pub units: i128,
}

proof fn lemma_spacing(a: nat, limit: nat)
    requires
        limit >= 2,
    ensures
        1 <= spacing(a, limit),
        a >= limit ==> spacing(a, limit) <= a,
    decreases a,
{
    if a >= limit {
        if a / 2 >= limit {
            lemma_spacing(a / 2, limit);
        }
    }
}

/// Rounding moves a magnitude by no more than its own size, and never below zero.
pub proof fn lemma_round_bounds(x: int, limit: nat)
    requires
        limit >= 2,
    ensures
        x >= 0 ==> 0 <= round_to(x, limit) <= 2 * x,
        x <= 0 ==> 2 * x <= round_to(x, limit) <= 0,
{
    let a: nat = if x < 0 { (-x) as nat } else { x as nat };
    lemma_spacing(a, limit);
    let p = spacing(a, limit) as int;
    let q = a as int / p;
    let r = a as int % p;
    lemma_fundamental_div_mod(a as int, p);
    assert(q >= 0 && 0 <= r < p) by {
        lemma_mod_bound(a as int, p);
        lemma_div_pos_is_pos(a as int, p);
    }
    assert(0 <= q * p) by (nonlinear_arith)
        requires
            q >= 0,
            p >= 1,
    ;
    assert(q * p == p * q && (q + 1) * p == p * q + p) by (nonlinear_arith);
    if a < limit {
        assert(p == 1);
        assert(r == 0);
    }
}

/// At `limit * 2^k` itself the spacing is 2^(k+1).
proof fn lemma_spacing_top(limit: nat, k: nat)
    requires
        limit >= 2,
    ensures
        spacing(limit * pow2(k), limit) == 2 * pow2(k),
    decreases k,
{
    let a = limit * pow2(k);
    lemma_pow2_pos(k);
    assert(a >= limit) by (nonlinear_arith)
        requires
            a == limit * pow2(k),
            pow2(k) >= 1,
    ;
    if k == 0 {
        lemma2_to64();
        assert(a == limit) by (nonlinear_arith)
            requires
                a == limit * pow2(k),
                pow2(k) == 1,
        ;
        assert(spacing(a / 2, limit) == 1);
    } else {
        let j = (k - 1) as nat;
        lemma_pow2_unfold(k);
        assert(a == 2 * (limit * pow2(j))) by (nonlinear_arith)
            requires
                a == limit * pow2(k),
                pow2(k) == 2 * pow2(j),
        ;
        assert(a / 2 == limit * pow2(j));
        lemma_spacing_top(limit, j);
    }
}

/// Within `limit * 2^k` the spacing divides 2^k.
proof fn lemma_spacing_divides(a: nat, limit: nat, k: nat)
    requires
        limit >= 1,
        a < limit * pow2(k),
    ensures
        spacing(a, limit) >= 1,
        pow2(k) % spacing(a, limit) == 0,
    decreases k,
{
    if a < limit {
        assert(pow2(k) % 1 == 0);
    } else {
        if k == 0 {
            lemma2_to64();
            assert(limit * pow2(0) == limit) by (nonlinear_arith)
                requires
                    pow2(0) == 1,
            ;
        }
        let j = (k - 1) as nat;
        lemma_pow2_unfold(k);
        assert(a / 2 < limit * pow2(j)) by (nonlinear_arith)
            requires
                a < limit * pow2(k),
                pow2(k) == 2 * pow2(j),
        ;
        lemma_spacing_divides(a / 2, limit, j);
        let s = spacing(a / 2, limit);
        assert((2 * pow2(j)) % (2 * s) == 0) by {
            lemma_fundamental_div_mod(pow2(j) as int, s as int);
            let m = pow2(j) as int / s as int;
            assert(2 * (s * m) == (2 * s) * m) by (nonlinear_arith);
            lemma_mod_multiples_basic(m, 2 * s as int);
            assert(m * (2 * s) == (2 * s) * m) by (nonlinear_arith);
        }
    }
}

/// Rounding does not lead past `limit * 2^k`.
pub proof fn lemma_round_within(x: int, limit: nat, k: nat)
    requires
        limit >= 2,
        limit % 2 == 0,
        -(limit * pow2(k)) <= x <= limit * pow2(k),
    ensures
        -(limit * pow2(k)) <= round_to(x, limit) <= limit * pow2(k),
{
    let a: nat = if x < 0 { (-x) as nat } else { x as nat };
    let b = limit * pow2(k);
    lemma_pow2_pos(k);
    if a < b {
        lemma_spacing_divides(a, limit, k);
    } else {
        lemma_spacing_top(limit, k);
    }
    let p = spacing(a, limit) as int;
    assert((b as int) % p == 0) by {
        if a < b {
            lemma_fundamental_div_mod(pow2(k) as int, p);
            let m = pow2(k) as int / p;
            assert(b as int == (limit * m) * p) by (nonlinear_arith)
                requires
                    b == limit * pow2(k),
                    pow2(k) as int == p * m,
            ;
            lemma_mod_multiples_basic(limit * m, p);
        } else {
            let h = limit as int / 2;
            assert(b as int == h * p) by (nonlinear_arith)
                requires
                    b == limit * pow2(k),
                    p == 2 * pow2(k),
                    limit == 2 * h,
            ;
            lemma_mod_multiples_basic(h, p);
        }
    }
    let q = a as int / p;
    let r = a as int % p;
    lemma_fundamental_div_mod(a as int, p);
    lemma_fundamental_div_mod(b as int, p);
    lemma_mod_bound(a as int, p);
    let n = b as int / p;
    if a < b {
        assert(q < n) by (nonlinear_arith)
            requires
                p * q + r == a,
                p * n == b,
                a < b,
                r >= 0,
                p >= 1,
        ;
        assert((q + 1) * p <= n * p) by (nonlinear_arith)
            requires
                q + 1 <= n,
                p >= 1,
        ;
    } else {
        assert(r == 0);
    }
    assert(q * p == p * q && n * p == p * n && (q + 1) * p == p * q + p) by (nonlinear_arith);
    assert(q >= 0) by {
        lemma_div_pos_is_pos(a as int, p);
    }
    assert(0 <= q * p) by (nonlinear_arith)
        requires
            q >= 0,
            p >= 1,
    ;
}

/// From `limit * 2^k` on the spacing is a multiple of 2^(k+1).
proof fn lemma_spacing_multiple(a: nat, limit: nat, k: nat)
    requires
        limit >= 1,
        a >= limit * pow2(k),
    ensures
        spacing(a, limit) % (2 * pow2(k)) == 0,
    decreases k,
{
    lemma_pow2_pos(k);
    assert(a >= limit) by (nonlinear_arith)
        requires
            a >= limit * pow2(k),
            pow2(k) >= 1,
    ;
    if k == 0 {
        lemma2_to64();
        assert(spacing(a, limit) == 2 * spacing(a / 2, limit));
        assert(2 * pow2(k) == 2);
    } else {
        let j = (k - 1) as nat;
        lemma_pow2_unfold(k);
        assert(limit * pow2(k) == 2 * (limit * pow2(j))) by (nonlinear_arith)
            requires
                pow2(k) == 2 * pow2(j),
        ;
        lemma_spacing_multiple(a / 2, limit, j);
        lemma_pow2_pos(j);
        let q = spacing(a / 2, limit) as int / (2 * pow2(j)) as int;
        lemma_fundamental_div_mod(spacing(a / 2, limit) as int, (2 * pow2(j)) as int);
        assert(spacing(a, limit) == q * (2 * pow2(k)) as int) by (nonlinear_arith)
            requires
                spacing(a, limit) == 2 * spacing(a / 2, limit),
                spacing(a / 2, limit) as int == (2 * pow2(j)) as int * q,
                pow2(k) == 2 * pow2(j),
        ;
        lemma_mod_multiples_basic(q, (2 * pow2(k)) as int);
    }
}

/// Rounding makes a magnitude from `limit * 2^k` on a multiple of 2^(k+1).
pub proof fn lemma_round_multiple(x: int, limit: nat, k: nat)
    requires
        limit >= 1,
        x >= limit * pow2(k) || -x >= limit * pow2(k),
    ensures
        round_to(x, limit) % (2 * pow2(k)) as int == 0,
{
    lemma_pow2_pos(k);
    assert(limit * pow2(k) > 0) by (nonlinear_arith)
        requires
            limit >= 1,
            pow2(k) >= 1,
    ;
    let a: nat = if x < 0 { (-x) as nat } else { x as nat };
    lemma_spacing_multiple(a, limit, k);
    let p = spacing(a, limit) as int;
    let d = (2 * pow2(k)) as int;
    let h = half_even(a as int / p, a as int % p, p);
    lemma_fundamental_div_mod(p, d);
    let q = p / d;
    assert(h * p == (h * q) * d) by (nonlinear_arith)
        requires
            p == d * q,
    ;
    lemma_mod_multiples_basic(h * q, d);
    assert(-(h * p) == (-(h * q)) * d) by (nonlinear_arith)
        requires
            h * p == (h * q) * d,
    ;
    lemma_mod_multiples_basic(-(h * q), d);
}

/// Rounding leaves a multiple of 2^k below `limit * 2^k` as it is.
pub proof fn lemma_round_exact(x: int, limit: nat, k: nat)
    requires
        limit >= 1,
        -(limit * pow2(k)) < x < limit * pow2(k),
        x % pow2(k) as int == 0,
    ensures
        round_to(x, limit) == x,
{
    lemma_pow2_pos(k);
    let a: nat = if x < 0 { (-x) as nat } else { x as nat };
    lemma_spacing_divides(a, limit, k);
    let p = spacing(a, limit) as int;
    let w = pow2(k) as int;
    lemma_fundamental_div_mod(x, w);
    lemma_fundamental_div_mod(w, p);
    let m: int = if x < 0 { -(x / w) } else { x / w };
    assert(w * -(x / w) == -(w * (x / w))) by (nonlinear_arith);
    assert(a as int == (m * (w / p)) * p) by (nonlinear_arith)
        requires
            a as int == w * m,
            w == p * (w / p),
    ;
    lemma_mod_multiples_basic(m * (w / p), p);
    lemma_fundamental_div_mod(a as int, p);
    assert((a as int / p) * p == a as int) by (nonlinear_arith)
        requires
            a as int == p * (a as int / p) + 0,
    ;
}

/// Rounding moves a magnitude within `limit * 2^k` by half of 2^k at most.
pub proof fn lemma_round_near(x: int, limit: nat, k: nat)
    requires
        limit >= 2,
        0 <= x < limit * pow2(k),
    ensures
        2 * x - pow2(k) <= 2 * round_to(x, limit) <= 2 * x + pow2(k),
        0 <= round_to(x, limit),
{
    lemma_pow2_pos(k);
    lemma_round_bounds(x, limit);
    lemma_spacing_divides(x as nat, limit, k);
    let p = spacing(x as nat, limit) as int;
    let q = x / p;
    let r = x % p;
    lemma_fundamental_div_mod(x, p);
    lemma_mod_bound(x, p);
    assert(p <= pow2(k)) by {
        lemma_fundamental_div_mod(pow2(k) as int, p);
        let d = pow2(k) as int / p;
        assert(d >= 1) by (nonlinear_arith)
            requires
                p * d == pow2(k) as int,
                p >= 1,
                pow2(k) >= 1,
        ;
        assert(p <= pow2(k)) by (nonlinear_arith)
            requires
                p * d == pow2(k) as int,
                d >= 1,
                p >= 1,
        ;
    }
    assert(q * p == p * q) by (nonlinear_arith);
    assert((q + 1) * p == p * q + p) by (nonlinear_arith);
}

/// Rounding keeps a magnitude of at most one at or below one.
pub proof fn lemma_double_within_one(x: int)
    requires
        -ONE <= x <= ONE,
    ensures
        -ONE <= double(x) <= ONE,
{
    lemma2_to64();
    lemma2_to64_rest();
    assert(DOUBLE_LIMIT as nat * pow2(54) == ONE);
    lemma_round_within(x, DOUBLE_LIMIT as nat, 54);
}

/// Rounds to as many significant bits as `limit` allows.
pub fn round_bits(x: i128, limit: u128) -> (r: i128)
    requires
        2 <= limit,
        -MAX_MAGNITUDE <= x <= MAX_MAGNITUDE,
    ensures
        r == round_to(x as int, limit as nat),
{
    let a: u128 = if x < 0 { (-x) as u128 } else { x as u128 };
    let mut t: u128 = a;
    let mut p: u128 = 1;
    while t >= limit
        invariant
            limit >= 2,
            1 <= p,
            t == a / p,
            p * t <= a,
            p == 1 || p <= a,
            a <= MAX_MAGNITUDE,
            spacing(a as nat, limit as nat) == p * spacing(t as nat, limit as nat),
        decreases t,
    {
        proof {
            lemma_div_denominator(a as int, p as int, 2);
            let old_t = t as int;
            let s = spacing((t / 2) as nat, limit as nat) as int;
            assert(p * (2 * s) == (2 * p) * s) by (nonlinear_arith);
            assert(2 * p * (old_t / 2) <= p * old_t) by (nonlinear_arith)
                requires
                    2 * (old_t / 2) <= old_t,
                    p >= 1,
            ;
            assert(2 * p <= p * old_t) by (nonlinear_arith)
                requires
                    old_t >= 2,
                    p >= 1,
            ;
        }
        t = t / 2;
        p = p * 2;
    }
    proof {
        assert(p * 1 == p) by (nonlinear_arith);
        lemma_fundamental_div_mod(a as int, p as int);
        lemma_round_bounds(x as int, limit as nat);
    }
    let rest: u128 = a % p;
    let q: u128 = if 2 * rest < p || (2 * rest == p && t % 2 == 0) {
        t
    } else {
        t + 1
    };
    let m: u128 = q * p;
    if x < 0 {
        -(m as i128)
    } else {
        m as i128
    }
}

/// `x` rounded as a double.
pub fn round_double(x: i128) -> (r: i128)
    requires
        -MAX_MAGNITUDE <= x <= MAX_MAGNITUDE,
    ensures
        r == double(x as int),
        x >= 0 ==> 0 <= r <= 2 * x,
        x <= 0 ==> 2 * x <= r <= 0,
{
    proof {
        lemma_round_bounds(x as int, DOUBLE_LIMIT as nat);
    }
    round_bits(x, DOUBLE_LIMIT)
}

/// The double nearest to `n / d`.
pub fn divide(n: u32, d: u32) -> (r: Real)
    requires
        n <= d,
        d > 0,
    ensures
        r.units == quotient(n as nat, d as nat),
        0 <= r.units <= ONE,
{
    if n == 0 {
        return Real { units: 0 };
    }
    let goal: u128 = 0x10_0000_0000_0000 * d as u128;
    let mut m: u128 = n as u128;
    let mut p: u128 = 1;
    while m < goal
        invariant
            0 < n <= d,
            goal == 0x10_0000_0000_0000 * d,
            m == n * p,
            p >= 1,
            m < 2 * goal,
            stretch(n as nat, d as nat) == p * stretch(m as nat, d as nat),
        decreases 2 * goal - m,
    {
        proof {
            let s = stretch((2 * m) as nat, d as nat) as int;
            assert(p * (2 * s) == (2 * p) * s) by (nonlinear_arith);
            assert(n * (2 * p) == 2 * (n * p)) by (nonlinear_arith);
            assert(p <= n * p) by (nonlinear_arith)
                requires
                    n >= 1,
                    p >= 1,
            ;
            assert(m < 2 * m) by {
                assert(m >= 1);
            }
        }
        m = m * 2;
        p = p * 2;
    }
    let ghost dd = d as int;
    proof {
        assert(p * 1 == p) by (nonlinear_arith);
        assert(p >= 0x10_0000_0000_0000) by (nonlinear_arith)
            requires
                n * p >= 0x10_0000_0000_0000 * dd,
                n <= dd,
                dd > 0,
                p >= 1,
                n > 0,
        ;
        assert(ONE as int / p as int <= ONE as int / 0x10_0000_0000_0000) by {
            lemma_div_is_ordered_by_denominator(
                ONE as int,
                0x10_0000_0000_0000,
                p as int,
            );
        }
        assert(0 <= ONE as int / p as int) by {
            lemma_div_pos_is_pos(ONE as int, p as int);
        }
        assert(ONE as int / 0x10_0000_0000_0000 == 0x80_0000_0000_0000);
        assert(p <= n * p) by (nonlinear_arith)
            requires
                n >= 1,
                p >= 1,
        ;
        assert((m as int) / dd < 0x20_0000_0000_0000) by (nonlinear_arith)
            requires
                (m as int) < 2 * (0x10_0000_0000_0000 * dd),
                dd > 0,
        ;
        assert((m as int) / dd >= 0) by {
            lemma_div_pos_is_pos(m as int, dd);
        }
    }
    let q: u128 = m / d as u128;
    let rest: u128 = m % d as u128;
    let nearest: u128 = if 2 * rest < d as u128 || (2 * rest == d as u128 && q % 2 == 0) {
        q
    } else {
        q + 1
    };
    let unit: i128 = ONE / p as i128;
    proof {
        // n <= d, so the quotient is at most p, and it is p itself only without a rest.
        lemma_fundamental_div_mod(m as int, dd);
        lemma_fundamental_div_mod(ONE as int, p as int);
        assert(nearest <= p) by (nonlinear_arith)
            requires
                m as int == dd * q + rest,
                m == n * p,
                n <= dd,
                dd > 0,
                p >= 1,
                0 <= rest < dd,
                nearest == q || (nearest == q + 1 && rest > 0),
        ;
        assert(0 <= nearest * unit <= p * unit) by (nonlinear_arith)
            requires
                0 <= nearest <= p,
                0 <= unit,
        ;
        assert(p * unit <= ONE);
    }
    Real { units: nearest as i128 * unit }
}

proof fn lemma_stretch(n: nat, d: nat) -> (j: nat)
    requires
        0 < n < 0x20_0000_0000_0000 * d,
    ensures
        stretch(n, d) == pow2(j),
        0x10_0000_0000_0000 * d <= n * pow2(j) < 0x20_0000_0000_0000 * d,
    decreases 0x20_0000_0000_0000 * d - n,
{
    lemma2_to64();
    if n >= 0x10_0000_0000_0000 * d {
        assert(n * pow2(0) == n) by (nonlinear_arith)
            requires
                pow2(0) == 1,
        ;
        0
    } else {
        let i = lemma_stretch(2 * n, d);
        lemma_pow2_unfold(i + 1);
        assert(n * pow2(i + 1) == (2 * n) * pow2(i)) by (nonlinear_arith)
            requires
                pow2(i + 1) == 2 * pow2(i),
        ;
        i + 1
    }
}

/// A quotient of two counts is a double: rounding it once more changes nothing.
pub proof fn lemma_quotient_is_double(n: nat, d: nat)
    requires
        n <= d <= u32::MAX,
        d > 0,
    ensures
        double(quotient(n, d)) == quotient(n, d),
{
    let limit = DOUBLE_LIMIT as nat;
    lemma2_to64();
    lemma2_to64_rest();
    if n == 0 {
        assert(0int % pow2(0) as int == 0);
        lemma_round_exact(0, limit, 0);
    } else {
        lemma_positive_quotient(n, d);
    }
}

proof fn lemma_positive_quotient(n: nat, d: nat)
    requires
        0 < n <= d <= u32::MAX,
    ensures
        double(quotient(n, d)) == quotient(n, d),
{
    let limit = DOUBLE_LIMIT as nat;
    lemma2_to64();
    lemma2_to64_rest();
    let j = lemma_stretch(n, d);
    let p = pow2(j) as int;
    lemma_pow2_pos(j);
    assert(ONE == pow2(107)) by {
        lemma_pow2_adds(53, 54);
    }
    assert(j < 107) by {
        if j >= 107 {
            if j > 107 {
                lemma_pow2_strictly_increases(107, j);
            }
            assert(n * p >= p) by (nonlinear_arith)
                requires
                    n >= 1,
                    p >= 1,
            ;
        }
    }
    let k = (107 - j) as nat;
    lemma_pow2_adds(j, k);
    lemma_pow2_pos(k);
    let unit = pow2(k) as int;
    assert(ONE as int / p == unit) by {
        assert(p * unit == ONE);
        vstd::arithmetic::div_mod::lemma_div_multiples_vanish(unit, p);
        assert(p * unit == unit * p) by (nonlinear_arith);
    }
    let h = half_even((n * p) / d as int, (n * p) % d as int, d as int);
    let w = d as int;
    assert(0 <= (n * p) / w < 0x20_0000_0000_0000) by (nonlinear_arith)
        requires
            0 <= n * p < 0x20_0000_0000_0000 * w,
            w > 0,
    ;
    let x = h * unit;
    assert(quotient(n, d) == x);
    assert(0 <= h <= 0x20_0000_0000_0000);
    if h < 0x20_0000_0000_0000 {
        assert(0 <= x < limit * pow2(k)) by (nonlinear_arith)
            requires
                0 <= h < limit,
                x == h * pow2(k) as int,
                pow2(k) >= 1,
        ;
        lemma_mod_multiples_basic(h, unit);
        lemma_round_exact(x, limit, k);
    } else {
        lemma_pow2_unfold(k + 1);
        assert(x == 0x10_0000_0000_0000 * pow2(k + 1) as int) by (nonlinear_arith)
            requires
                x == h * unit,
                h == 0x20_0000_0000_0000,
                pow2(k + 1) == 2 * unit,
        ;
        lemma_pow2_pos(k + 1);
        lemma_mod_multiples_basic(0x10_0000_0000_0000, pow2(k + 1) as int);
        assert(0 <= x < limit * pow2(k + 1)) by (nonlinear_arith)
            requires
                x == 0x10_0000_0000_0000 * pow2(k + 1) as int,
                limit == 0x20_0000_0000_0000,
                pow2(k + 1) >= 1,
        ;
        lemma_round_exact(x, limit, k + 1);
    }
}

} // verus!
