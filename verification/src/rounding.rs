//! Binary floating point rounding, on integers: the values that `as f32`,
//! `as f64`, and IEEE division and multiplication give, computed exactly.

use vstd::arithmetic::div_mod::{
    lemma_div_by_multiple, lemma_div_is_ordered, lemma_fundamental_div_mod,
    lemma_mod_multiples_basic,
};
use vstd::arithmetic::mul::lemma_mul_inequality;
use vstd::prelude::*;

verus! {

/// 2 to the power `n`.
pub open spec fn two_to(n: nat) -> nat
    decreases n,
{
    if n == 0 {
        1
    } else {
        2 * two_to((n - 1) as nat)
    }
}

pub proof fn lemma_two_to_positive(n: nat)
    ensures
        two_to(n) >= 1,
        n < two_to(n),
    decreases n,
{
    if n > 0 {
        lemma_two_to_positive((n - 1) as nat);
    }
}

/// `n` divided by `d`, rounded to the nearest integer, ties to the even one.
pub open spec fn round_half_even(n: nat, d: nat) -> nat {
    let q = n / d;
    let r = n % d;
    if 2 * r > d || (2 * r == d && q % 2 == 1) {
        q + 1
    } else {
        q
    }
}

/// How many low bits `n` loses when rounded to a significand below `limit`
/// (a power of two): 0 below `limit`, one more for each halving it takes.
pub open spec fn sig_shift(n: nat, limit: nat) -> nat
    decreases n,
{
    if limit == 0 || n < limit {
        0
    } else {
        1 + sig_shift(n / 2, limit)
    }
}

/// `n` rounded to the nearest value whose significand is below `limit`,
/// ties to the even significand: how binary floating point rounds.
pub open spec fn round_sig(n: nat, limit: nat) -> nat {
    let unit = two_to(sig_shift(n, limit));
    round_half_even(n, unit) * unit
}

/// 2^24: an `f32` significand holds 24 bits.
pub open spec fn f32_limit() -> nat {
    0x100_0000
}

/// 2^53: an `f64` significand holds 53 bits.
pub open spec fn f64_limit() -> nat {
    0x20_0000_0000_0000
}

/// `round_half_even` in executable form.
pub fn div_round_half_even(n: u128, d: u128) -> (r: u128)
    requires
        d > 0,
        n < u128::MAX,
    ensures
        r == round_half_even(n as nat, d as nat),
        n / d <= r <= n / d + 1,
{
    let q: u128 = n / d;
    let rem: u128 = n % d;
    if rem > d - rem || (rem == d - rem && q % 2 == 1) {
        assert(q < u128::MAX) by (nonlinear_arith)
            requires
                q == n / d,
                d > 0,
                n < u128::MAX,
        ;
        q + 1
    } else {
        q
    }
}

/// `round_sig` in executable form.
pub fn round_to_significand(n: u128, limit: u128) -> (v: u128)
    requires
        2 <= limit,
        n <= 0x1_0000_0000_0000_0000_0000_0000,
    ensures
        v == round_sig(n as nat, limit as nat),
        v <= 2 * n,
        n >= 1 ==> v >= 1,
{
    let mut q: u128 = n;
    let mut unit: u128 = 1;
    let ghost mut s: nat = 0;
    while q >= limit
        invariant
            2 <= limit,
            n <= 0x1_0000_0000_0000_0000_0000_0000,
            unit == two_to(s),
            1 <= unit,
            unit == 1 || unit <= n,
            n >= 1 ==> q >= 1,
            q == (n as int) / (unit as int),
            sig_shift(n as nat, limit as nat) == s + sig_shift(q as nat, limit as nat),
        decreases q,
    {
        proof {
            vstd::arithmetic::div_mod::lemma_div_denominator(n as int, unit as int, 2);
            assert(unit * 2 <= n) by (nonlinear_arith)
                requires
                    q == (n as int) / (unit as int),
                    q >= 2,
                    unit >= 1,
            ;
            s = s + 1;
        }
        q = q / 2;
        unit = unit * 2;
    }
    let rounded: u128 = div_round_half_even(n, unit);
    assert(n >= 1 ==> rounded * unit >= 1) by (nonlinear_arith)
        requires
            n >= 1 ==> rounded >= 1,
            unit >= 1,
    ;
    assert(rounded * unit <= 2 * n) by (nonlinear_arith)
        requires
            q == (n as int) / (unit as int),
            unit >= 1,
            rounded <= q + 1,
            unit == 1 || unit <= n,
            unit == 1 ==> rounded == n,
    {
        assert(q * unit <= n);
        assert(rounded * unit <= q * unit + unit);
    }
    rounded * unit
}

/// The value of the `f32` nearest to `n` (ties to even), as `as f32` gives it.
pub open spec fn f32_of(n: nat) -> nat {
    round_sig(n, f32_limit())
}

/// The least `k` from `from` on with `b * 2^k >= 2^23 * c` (for `b > 0`): the
/// scale that puts the quotient `b / c` into a 24-bit significand.
pub open spec fn quotient_exponent(b: nat, c: nat, k: nat) -> nat
    decreases 0x80_0000 * c - k,
{
    if b == 0 || b * two_to(k) >= 0x80_0000 * c {
        k
    } else {
        proof {
            lemma_two_to_positive(k);
            assert(b * two_to(k) >= two_to(k)) by (nonlinear_arith)
                requires
                    b >= 1,
                    two_to(k) >= 1,
            ;
        }
        quotient_exponent(b, c, k + 1)
    }
}

/// `(side as f32 * (target as f32 / current as f32)) as u32`, for `target`
/// below `current`: the three conversions, the quotient and the product each
/// rounded to the nearest 24-bit significand (ties to even), and the cast
/// truncating toward zero and saturating at `u32::MAX`.
pub open spec fn f32_scale(side: u32, target: u32, current: u32) -> u32 {
    let a = f32_of(side as nat);
    let b = f32_of(target as nat);
    let c = f32_of(current as nat);
    let k = quotient_exponent(b, c, 0);
    let m = round_half_even(b * two_to(k), c);
    let t = f32_of(a * m) / two_to(k);
    if t > u32::MAX {
        u32::MAX
    } else {
        t as u32
    }
}

/// `f32_scale` in executable form.
pub fn scale_f32(side: u32, target: u32, current: u32) -> (r: u32)
    requires
        target < current,
    ensures
        r == f32_scale(side, target, current),
{
    let a: u128 = round_to_significand(side as u128, 0x100_0000);
    let b: u128 = round_to_significand(target as u128, 0x100_0000);
    let c: u128 = round_to_significand(current as u128, 0x100_0000);
    let ghost k0: nat = 0;
    let mut scaled: u128 = b;
    let mut unit: u128 = 1;
    let ghost mut k: nat = 0;
    while b != 0 && scaled < 0x80_0000 * c
        invariant
            1 <= c <= 0x2_0000_0000,
            b <= 0x2_0000_0000,
            unit == two_to(k),
            1 <= unit,
            scaled == b * unit,
            b != 0 ==> unit <= scaled,
            scaled <= 0x100_0000 * c || scaled == b,
            quotient_exponent(b as nat, c as nat, k) == quotient_exponent(b as nat, c as nat, k0),
            k0 == 0,
        decreases 0x100_0000 * c - scaled,
    {
        proof {
            k = k + 1;
            assert(scaled * 2 == b * (unit * 2)) by (nonlinear_arith)
                requires
                    scaled == b * unit,
            ;
        }
        scaled = scaled * 2;
        unit = unit * 2;
    }
    let m: u128 = div_round_half_even(scaled, c);
    assert(a * m <= 0x4_0000_0000 * 0x4_0000_0000) by (nonlinear_arith)
        requires
            a <= 0x2_0000_0000,
            m <= scaled / c + 1,
            scaled <= 0x100_0000 * c || scaled <= 0x2_0000_0000,
            c >= 1,
    {
        assert(scaled / c <= 0x2_0000_0000);
    }
    let p: u128 = round_to_significand(a * m, 0x100_0000);
    let t: u128 = p / unit;
    if t > 0xffff_ffff {
        u32::MAX
    } else {
        t as u32
    }
}

proof fn lemma_two_to_monotone(i: nat, j: nat)
    requires
        i <= j,
    ensures
        two_to(i) <= two_to(j),
    decreases j,
{
    if j > i {
        lemma_two_to_monotone(i, (j - 1) as nat);
        lemma_two_to_positive((j - 1) as nat);
    }
}

proof fn lemma_sig_shift_upper(n: nat, limit: nat)
    requires
        limit >= 1,
    ensures
        n < limit * two_to(sig_shift(n, limit)),
    decreases n,
{
    assert(two_to(0) == 1);
    if n < limit {
        assert(sig_shift(n, limit) == 0);
    } else {
        lemma_sig_shift_upper(n / 2, limit);
        let s1 = sig_shift(n / 2, limit);
        assert(sig_shift(n, limit) == s1 + 1);
        assert(two_to(s1 + 1) == 2 * two_to(s1));
        assert(n < limit * two_to(s1 + 1)) by (nonlinear_arith)
            requires
                n / 2 < limit * two_to(s1),
                two_to(s1 + 1) == 2 * two_to(s1),
                n >= 0,
        {
            assert(n <= 2 * (n / 2) + 1);
        }
    }
}

proof fn lemma_sig_shift_lower(n: nat, limit: nat)
    requires
        limit >= 1,
        sig_shift(n, limit) > 0,
    ensures
        n >= limit * two_to((sig_shift(n, limit) - 1) as nat),
    decreases n,
{
    let s1 = sig_shift(n / 2, limit);
    assert(two_to(0) == 1);
    assert(n >= limit);
    assert(sig_shift(n, limit) == s1 + 1);
    if s1 > 0 {
        lemma_sig_shift_lower(n / 2, limit);
        assert(two_to(s1) == 2 * two_to((s1 - 1) as nat));
        assert(n >= limit * two_to(s1)) by (nonlinear_arith)
            requires
                n / 2 >= limit * two_to((s1 - 1) as nat),
                two_to(s1) == 2 * two_to((s1 - 1) as nat),
                n >= 0,
        {
            assert(n >= 2 * (n / 2));
        }
    }
}

proof fn lemma_sig_shift_monotone(x: nat, y: nat, limit: nat)
    requires
        x <= y,
    ensures
        sig_shift(x, limit) <= sig_shift(y, limit),
    decreases y,
{
    if limit != 0 && x >= limit {
        lemma_sig_shift_monotone(x / 2, y / 2, limit);
    }
}

proof fn lemma_round_half_even_bounds(n: nat, d: nat)
    requires
        d > 0,
    ensures
        n / d <= round_half_even(n, d) <= n / d + 1,
        n % d == 0 ==> round_half_even(n, d) == n / d,
{
}

proof fn lemma_round_half_even_monotone(x: nat, y: nat, d: nat)
    requires
        x <= y,
        d > 0,
    ensures
        round_half_even(x, d) <= round_half_even(y, d),
{
    lemma_div_is_ordered(x as int, y as int, d as int);
    if x / d == y / d {
        lemma_fundamental_div_mod(x as int, d as int);
        lemma_fundamental_div_mod(y as int, d as int);
        assert(x % d <= y % d);
    }
}

/// Rounding to a significand below an even `limit` keeps order.
pub proof fn lemma_round_sig_monotone(x: nat, y: nat, limit: nat)
    requires
        x <= y,
        limit >= 2,
        limit % 2 == 0,
    ensures
        round_sig(x, limit) <= round_sig(y, limit),
{
    let sx = sig_shift(x, limit);
    let sy = sig_shift(y, limit);
    let ux = two_to(sx);
    let uy = two_to(sy);
    lemma_sig_shift_monotone(x, y, limit);
    lemma_two_to_positive(sx);
    lemma_two_to_positive(sy);
    lemma_round_half_even_bounds(x, ux);
    lemma_round_half_even_bounds(y, uy);
    if sx == sy {
        lemma_round_half_even_monotone(x, y, ux);
        lemma_mul_inequality(round_half_even(x, ux) as int, round_half_even(y, uy) as int, ux as int);
    } else {
        lemma_sig_shift_upper(x, limit);
        lemma_sig_shift_lower(y, limit);
        let h = two_to((sy - 1) as nat);
        assert(uy == 2 * h);
        lemma_two_to_monotone(sx, (sy - 1) as nat);
        // round(x) <= limit * ux
        assert(round_half_even(x, ux) * ux <= limit * ux) by (nonlinear_arith)
            requires
                x < limit * ux,
                round_half_even(x, ux) <= x / ux + 1,
                ux >= 1,
        {
            assert(x / ux < limit) by {
                lemma_div_is_ordered(x as int, (limit * ux - 1) as int, ux as int);
                assert((limit * ux - 1) / (ux as int) < limit) by (nonlinear_arith)
                    requires
                        ux >= 1,
                        limit >= 1,
                ;
            }
        }
        // round(y) >= limit * h
        assert(y / uy >= limit / 2) by {
            assert(limit * h == (limit / 2) * uy) by (nonlinear_arith)
                requires
                    uy == 2 * h,
                    limit % 2 == 0,
            ;
            lemma_div_is_ordered(((limit / 2) * uy) as int, y as int, uy as int);
            lemma_div_by_multiple((limit / 2) as int, uy as int);
        }
        assert(round_half_even(y, uy) * uy >= limit * h) by (nonlinear_arith)
            requires
                round_half_even(y, uy) >= y / uy,
                y / uy >= limit / 2,
                uy == 2 * h,
                limit % 2 == 0,
                h >= 1,
        ;
        assert(limit * ux <= limit * h) by (nonlinear_arith)
            requires
                ux <= h,
                limit >= 0,
        ;
    }
}

/// A value whose significand fits below `limit` is its own rounding.
pub proof fn lemma_round_sig_exact(a: nat, j: nat, limit: nat)
    requires
        a < limit,
    ensures
        round_sig(a * two_to(j), limit) == a * two_to(j),
        sig_shift(a * two_to(j), limit) <= j,
    decreases j,
{
    let n = a * two_to(j);
    let s = sig_shift(n, limit);
    lemma_two_to_positive(s);
    if j == 0 {
        assert(two_to(0) == 1);
        assert(n == a * 1);
        assert(s == 0);
        assert(n / 1 == n && n % 1 == 0) by (nonlinear_arith);
        lemma_round_half_even_bounds(n, 1);
        assert(round_sig(n, limit) == n);
    } else {
        assert(n == 2 * (a * two_to((j - 1) as nat))) by (nonlinear_arith)
            requires
                n == a * two_to(j),
                two_to(j) == 2 * two_to((j - 1) as nat),
        ;
        lemma_round_sig_exact(a, (j - 1) as nat, limit);
        let half = a * two_to((j - 1) as nat);
        if n >= limit {
            assert(n / 2 == half);
            let s1 = sig_shift(half, limit);
            assert(s == s1 + 1);
            lemma_two_to_positive(s1);
            // half is a multiple of 2^s1, so n is a multiple of 2^s
            assert(half % two_to(s1) == 0) by {
                lemma_round_half_even_bounds(half, two_to(s1));
                lemma_fundamental_div_mod(half as int, two_to(s1) as int);
                let q = round_half_even(half, two_to(s1));
                assert(q * two_to(s1) == half);
                lemma_mod_multiples_basic(q as int, two_to(s1) as int);
            }
            assert(n % two_to(s) == 0) by {
                assert(two_to(s) == 2 * two_to(s1));
                let q = half / two_to(s1);
                lemma_fundamental_div_mod(half as int, two_to(s1) as int);
                assert(n == q * two_to(s)) by (nonlinear_arith)
                    requires
                        n == 2 * half,
                        half == two_to(s1) * q,
                        two_to(s) == 2 * two_to(s1),
                ;
                lemma_mod_multiples_basic(q as int, two_to(s) as int);
            }
            lemma_round_half_even_bounds(n, two_to(s));
            lemma_fundamental_div_mod(n as int, two_to(s) as int);
            assert(round_half_even(n, two_to(s)) * two_to(s) == n) by (nonlinear_arith)
                requires
                    round_half_even(n, two_to(s)) == n / two_to(s),
                    n == two_to(s) * (n / two_to(s)) + n % two_to(s),
                    n % two_to(s) == 0,
            ;
            assert(round_sig(n, limit) == n);
        } else {
            assert(s == 0);
            assert(two_to(0) == 1);
            assert(n / 1 == n && n % 1 == 0) by (nonlinear_arith);
            lemma_round_half_even_bounds(n, 1);
            assert(round_sig(n, limit) == n);
        }
    }
}

/// A side of at most 2^24 times a power of two is held exactly by `f32`.
proof fn lemma_f32_exact_side(side: nat, k: nat)
    requires
        side <= 0x100_0000,
    ensures
        round_sig(side * two_to(k), f32_limit()) == side * two_to(k),
{
    if side < 0x100_0000 {
        lemma_round_sig_exact(side, k, f32_limit());
    } else {
        assert(two_to(k + 1) == 2 * two_to(k));
        assert(side * two_to(k) == 0x80_0000 * two_to(k + 1)) by (nonlinear_arith)
            requires
                side == 0x100_0000,
                two_to(k + 1) == 2 * two_to(k),
        ;
        lemma_round_sig_exact(0x80_0000, k + 1, f32_limit());
    }
}

/// Scaling a side that `f32` holds exactly (up to 2^24) by a ratio below 1
/// never makes it larger.
pub proof fn lemma_f32_scale_shrinks(side: u32, target: u32, current: u32)
    requires
        side <= 0x100_0000,
        target < current,
    ensures
        f32_scale(side, target, current) <= side,
{
    let a = f32_of(side as nat);
    let b = f32_of(target as nat);
    let c = f32_of(current as nat);
    lemma_f32_exact_side(side as nat, 0);
    lemma_round_sig_exact(1, 0, f32_limit());
    assert(two_to(0) == 1);
    assert(side * two_to(0) == side) by (nonlinear_arith)
        requires
            two_to(0) == 1,
    ;
    assert(a == side);
    lemma_round_sig_monotone(target as nat, current as nat, f32_limit());
    lemma_round_sig_monotone(1, current as nat, f32_limit());
    assert(b <= c && c >= 1);
    let k = quotient_exponent(b, c, 0);
    let u = two_to(k);
    lemma_two_to_positive(k);
    let m = round_half_even(b * u, c);
    assert(b * u <= c * u) by (nonlinear_arith)
        requires
            b <= c,
            u >= 1,
    ;
    lemma_round_half_even_monotone(b * u, c * u, c);
    lemma_div_by_multiple(u as int, c as int);
    lemma_mod_multiples_basic(u as int, c as int);
    assert(c * u == u * c) by (nonlinear_arith);
    lemma_round_half_even_bounds(c * u, c);
    assert(m <= u);
    assert(a * m <= a * u) by (nonlinear_arith)
        requires
            m <= u,
    ;
    lemma_round_sig_monotone(a * m, a * u, f32_limit());
    lemma_f32_exact_side(a, k);
    lemma_div_is_ordered(f32_of(a * m) as int, (a * u) as int, u as int);
    lemma_div_by_multiple(a as int, u as int);
}


proof fn lemma_quotient_exponent(b: nat, c: nat, k: nat)
    requires
        c >= 1,
    ensures
        b == 0 || b * two_to(quotient_exponent(b, c, k)) >= 0x80_0000 * c,
    decreases 0x80_0000 * c - k,
{
    if b != 0 && b * two_to(k) < 0x80_0000 * c {
        lemma_two_to_positive(k);
        assert(b * two_to(k) >= two_to(k)) by (nonlinear_arith)
            requires
                b >= 1,
                two_to(k) >= 1,
        ;
        lemma_quotient_exponent(b, c, k + 1);
    }
}

/// Rounding to a significand below `limit` moves `n` by at most `2n / limit`.
proof fn lemma_round_sig_error(n: nat, limit: nat)
    requires
        limit >= 1,
    ensures
        limit * round_sig(n, limit) <= limit * n + 2 * n,
        limit * n <= limit * round_sig(n, limit) + 2 * n,
{
    let s = sig_shift(n, limit);
    let unit = two_to(s);
    lemma_two_to_positive(s);
    let r = round_half_even(n, unit);
    lemma_round_half_even_bounds(n, unit);
    lemma_fundamental_div_mod(n as int, unit as int);
    if s == 0 {
        assert(unit == 1);
        assert(n % 1 == 0 && n / 1 == n) by (nonlinear_arith);
        assert(r == n);
        assert(round_sig(n, limit) == r * 1);
    } else {
        lemma_sig_shift_lower(n, limit);
        assert(unit == 2 * two_to((s - 1) as nat));
        assert(limit * unit <= 2 * n) by (nonlinear_arith)
            requires
                n >= limit * two_to((s - 1) as nat),
                unit == 2 * two_to((s - 1) as nat),
        ;
        let q = n / unit;
        assert(r * unit <= n + unit && n < r * unit + unit) by (nonlinear_arith)
            requires
                n == unit * q + n % unit,
                0 <= n % unit < unit,
                q <= r <= q + 1,
        ;
        assert(limit * (r * unit) <= limit * n + limit * unit && limit * n <= limit * (r * unit)
            + limit * unit) by (nonlinear_arith)
            requires
                r * unit <= n + unit,
                n < r * unit + unit,
        ;
    }
}

/// Scaling a side of at most 2^24 by `target / current`, both at most 2^24,
/// lands within five of the exact value `side * target / current`: the
/// rounding of the ratio and of the product to `f32`, and the cast's
/// truncation, lose less than that.
pub proof fn lemma_f32_scale_close(side: u32, target: u32, current: u32)
    requires
        side <= 0x100_0000,
        target < current,
        current <= 0x100_0000,
    ensures
        f32_scale(side, target, current) * current <= side * target + 4 * current,
        side * target < f32_scale(side, target, current) * current + 5 * current,
{
    lemma_f32_scale_shrinks(side, target, current);
    assert(two_to(0) == 1);
    assert(side * two_to(0) == side && target * two_to(0) == target && current * two_to(0)
        == current) by (nonlinear_arith)
        requires
            two_to(0) == 1,
    ;
    lemma_f32_exact_side(side as nat, 0);
    lemma_f32_exact_side(target as nat, 0);
    lemma_f32_exact_side(current as nat, 0);
    let a = side as nat;
    let b = target as nat;
    let c = current as nat;
    assert(f32_of(a) == a && f32_of(b) == b && f32_of(c) == c);
    let k = quotient_exponent(b, c, 0);
    let u = two_to(k);
    lemma_two_to_positive(k);
    let m = round_half_even(b * u, c);
    let p = f32_of(a * m);
    let t = p / u;
    assert(f32_scale(side, target, current) == if t > u32::MAX {
        u32::MAX
    } else {
        t as u32
    });
    assert(t <= u32::MAX);
    if b == 0 {
        assert(b * u == 0);
        assert(m == round_half_even(0, c));
        assert(0nat / c == 0 && 0nat % c == 0) by (nonlinear_arith)
            requires
                c >= 1,
        ;
        lemma_round_half_even_bounds(0, c);
        assert(m == 0);
        assert(a * m == 0) by (nonlinear_arith)
            requires
                m == 0,
        ;
        lemma_round_sig_error(0, f32_limit());
        assert(p == 0);
        assert(t == 0);
        assert(side * target == 0) by (nonlinear_arith)
            requires
                target == 0,
        ;
        let r = f32_scale(side, target, current);
        assert(r == 0);
        assert(r * current == 0) by (nonlinear_arith)
            requires
                r == 0,
        ;
    } else {
        lemma_quotient_exponent(b, c, 0);
        assert(u >= 0x80_0000) by (nonlinear_arith)
            requires
                b * u >= 0x80_0000 * c,
                1 <= b <= c,
                u >= 1,
        ;
        // m is b * u / c rounded, so m * c lies within c of b * u.
        lemma_round_half_even_bounds(b * u, c);
        lemma_fundamental_div_mod((b * u) as int, c as int);
        let q = (b * u) / c;
        assert(m * c <= b * u + c && b * u < m * c + c) by (nonlinear_arith)
            requires
                b * u == c * q + (b * u) % c,
                0 <= (b * u) % c < c,
                q <= m <= q + 1,
        ;
        // and m is at most u, as b is at most c.
        assert(b * u <= c * u) by (nonlinear_arith)
            requires
                b <= c,
        ;
        lemma_round_half_even_monotone(b * u, c * u, c);
        lemma_div_by_multiple(u as int, c as int);
        lemma_mod_multiples_basic(u as int, c as int);
        assert(c * u == u * c) by (nonlinear_arith);
        lemma_round_half_even_bounds(c * u, c);
        assert(m <= u);
        let pm = a * m;
        lemma_round_sig_error(pm, f32_limit());
        lemma_fundamental_div_mod(p as int, u as int);
        assert(t * u <= p && p < t * u + u) by (nonlinear_arith)
            requires
                p == u * t + p % u,
                0 <= p % u < u,
        ;
        // The product's rounding costs at most 2 * u * c, scaled by 2^24.
        assert(2 * pm * c <= 0x200_0000 * u * c) by (nonlinear_arith)
            requires
                pm == a * m,
                m <= u,
                a <= 0x100_0000,
        ;
        assert(a * c <= 2 * u * c) by (nonlinear_arith)
            requires
                a <= 0x100_0000,
                u >= 0x80_0000,
        ;
        assert(pm * c <= a * b * u + a * c && a * b * u < pm * c + a * c + (if a == 0 { 1int } else { 0 })) by (nonlinear_arith)
            requires
                pm == a * m,
                m * c <= b * u + c,
                b * u < m * c + c,
        ;
        // Upper bound.
        assert(0x100_0000 * (t * u * c) <= 0x100_0000 * (p * c)) by (nonlinear_arith)
            requires
                t * u <= p,
        ;
        assert(0x100_0000 * (p * c) <= (0x100_0000 * pm + 2 * pm) * c) by (nonlinear_arith)
            requires
                0x100_0000 * p <= 0x100_0000 * pm + 2 * pm,
        ;
        assert(t * u * c <= a * b * u + 4 * u * c) by (nonlinear_arith)
            requires
                0x100_0000 * (t * u * c) <= (0x100_0000 * pm + 2 * pm) * c,
                pm * c <= a * b * u + a * c,
                2 * pm * c <= 0x200_0000 * u * c,
                a * c <= 2 * u * c,
        ;
        assert(t * c <= a * b + 4 * c) by (nonlinear_arith)
            requires
                t * u * c <= a * b * u + 4 * u * c,
                u >= 1,
        ;
        // Lower bound.
        assert(0x100_0000 * (pm * c) <= 0x100_0000 * (p * c) + 2 * pm * c) by (nonlinear_arith)
            requires
                0x100_0000 * pm <= 0x100_0000 * p + 2 * pm,
        ;
        assert(p * c < (t + 1) * u * c) by (nonlinear_arith)
            requires
                p < t * u + u,
                c >= 1,
        ;
        assert(a * b * u < (t + 5) * u * c) by (nonlinear_arith)
            requires
                0x100_0000 * (pm * c) <= 0x100_0000 * (p * c) + 2 * pm * c,
                p * c < (t + 1) * u * c,
                a * b * u < pm * c + a * c + (if a == 0 { 1int } else { 0 }),
                2 * pm * c <= 0x200_0000 * u * c,
                a * c <= 2 * u * c,
                u >= 1,
                c >= 1,
        ;
        assert(a * b < (t + 5) * c) by (nonlinear_arith)
            requires
                a * b * u < (t + 5) * u * c,
                u >= 1,
        ;
        assert((t + 5) * c == t * c + 5 * c) by (nonlinear_arith);
        assert(f32_scale(side, target, current) == t);
    }
}

} // verus!
