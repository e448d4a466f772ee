//! Rounding an exact value to the nearest binary32 number.

use vstd::arithmetic::div_mod::{
    lemma_basic_div, lemma_fundamental_div_mod, lemma_fundamental_div_mod_converse, lemma_small_mod,
};
use vstd::arithmetic::power2::{
    lemma2_to64, lemma2_to64_rest, lemma_pow2_adds, lemma_pow2_pos, lemma_pow2_strictly_increases,
    lemma_pow2_unfold, pow2,
};
use vstd::bits::{lemma_u128_shr_is_div, lemma_u64_pow2_no_overflow, lemma_u64_shl_is_mul};
use vstd::prelude::*;

use super::INFINITE;

verus! {

/// The quotient `num / den` rounded to an integer, a tie to the even one.
pub open spec fn half_even(num: nat, den: nat) -> nat {
    let q = num / den;
    let r = num % den;
    if 2 * r < den || (2 * r == den && q % 2 == 0) {
        q
    } else {
        q + 1
    }
}

/// How many binary digits of `num / den` lie above the lowest twenty-four of
/// its integer part: the least `e` with `num / den < 2^(e + 24)`.
pub open spec fn scale(num: nat, den: nat) -> nat
    decreases num / den,
{
    if den == 0 || num < den * pow2(24) {
        0
    } else {
        proof {
            lemma_scale_decreases(num, den);
        }
        1 + scale(num, 2 * den)
    }
}

/// The magnitude bits of the binary32 number nearest to `num / den` units of
/// 2^-149, of two equally near ones that with an even last bit; an infinity
/// where the value rounds to 2^128 or more.
///
/// Twenty-four binary digits are kept. The exponent field and the leading
/// digit, which is not stored, add up so that the count of dropped digits
/// stands directly above the kept ones.
pub open spec fn nearest(num: nat, den: nat) -> nat {
    let e = scale(num, den);
    let m = e * 0x80_0000 + half_even(num, den * pow2(e));
    if m < INFINITE {
        m
    } else {
        INFINITE as nat
    }
}

/// The count of digits is found in finitely many halvings.
pub proof fn lemma_scale_decreases(num: nat, den: nat)
    requires
        den > 0,
        num >= den * pow2(24),
    ensures
        num / (2 * den) < num / den,
{
    lemma2_to64();
    assert(num / (2 * den) < num / den) by (nonlinear_arith)
        requires
            den > 0,
            num >= den * 16777216,
    {
        let q = num / den;
        let p = num / (2 * den);
        assert(num == q * den + num % den && num % den < den);
        assert(num == p * (2 * den) + num % (2 * den) && num % (2 * den) < 2 * den);
        if p >= q {
            assert(p * (2 * den) >= q * (2 * den));
            assert(q * (2 * den) == 2 * (q * den));
            assert(q * den < 2 * den);
            assert(q * den + den > num);
        }
    }
}

/// What singles out the count of dropped digits.
pub proof fn lemma_scale_is(num: nat, den: nat, e: nat)
    requires
        den > 0,
        num < den * pow2(e + 24),
        e == 0 || num >= den * pow2((e + 23) as nat),
    ensures
        scale(num, den) == e,
    decreases e,
{
    lemma_pow2_pos(24);
    if e > 0 {
        assert(num >= den * pow2(24)) by {
            if e > 1 {
                lemma_pow2_strictly_increases(24, (e + 23) as nat);
                lemma_scaled_order(den, pow2(24), pow2((e + 23) as nat));
            }
        }
        lemma_double_power(den, (e + 23) as nat);
        if e > 1 {
            lemma_double_power(den, (e + 22) as nat);
        }
        lemma_scale_is(num, 2 * den, (e - 1) as nat);
    }
}

/// The bounds that `scale` stands for.
pub proof fn lemma_scale_bounds(num: nat, den: nat)
    requires
        den > 0,
    ensures
        num < den * pow2(scale(num, den) + 24),
        scale(num, den) > 0 ==> num >= den * pow2((scale(num, den) + 23) as nat),
    decreases num / den,
{
    if num >= den * pow2(24) {
        lemma_scale_decreases(num, den);
        lemma_scale_bounds(num, 2 * den);
        let e = scale(num, 2 * den);
        lemma_double_power(den, e + 24);
        if e > 0 {
            lemma_double_power(den, (e + 23) as nat);
        }
    }
}

proof fn lemma_double_power(den: nat, k: nat)
    ensures
        (2 * den) * pow2(k) == den * pow2(k + 1),
{
    lemma_pow2_unfold(k + 1);
    assert((2 * den) * pow2(k) == den * (2 * pow2(k))) by (nonlinear_arith);
}

proof fn lemma_scaled_order(den: nat, a: nat, b: nat)
    ensures
        a <= b ==> den * a <= den * b,
        a < b && den > 0 ==> den * a < den * b,
{
    assert(a <= b ==> den * a <= den * b) by (nonlinear_arith);
    assert(a < b && den > 0 ==> den * a < den * b) by (nonlinear_arith);
}

/// The exact value `num / den` lies between `mant` and `mant + 1` times
/// `2^exp`: on `mant` itself where nothing was cut off, above it otherwise.
pub open spec fn represents(mant: nat, exp: int, cut: bool, num: nat, den: nat) -> bool {
    let up = pow2((if exp > 0 { exp } else { 0 }) as nat);
    let down = pow2((if exp < 0 { -exp } else { 0 }) as nat);
    &&& den > 0
    &&& den * mant * up <= num * down
    &&& num * down < den * (mant + 1) * up
    &&& cut <==> den * mant * up < num * down
}

/// Cutting the last `s` digits off `mant` leaves what the rounding needs.
proof fn lemma_half_even_of_cut(num: nat, d: nat, mant: nat, p: nat, cut: bool)
    requires
        d > 0,
        p >= 2,
        p % 2 == 0,
        d * mant <= num * p,
        num * p < d * (mant + 1),
        cut <==> d * mant < num * p,
    ensures
        half_even(num, d) == {
            let q = mant / p;
            let r = mant % p;
            if r > p / 2 || (r == p / 2 && (cut || q % 2 != 0)) {
                q + 1
            } else {
                q
            }
        },
{
    let q = mant / p;
    let r = mant % p;
    let h = p / 2;
    lemma_fundamental_div_mod(mant as int, p as int);
    assert(d * q <= num < d * (q + 1)) by (nonlinear_arith)
        requires
            d > 0,
            p >= 2,
            mant == p * q + r,
            0 <= r < p,
            d * mant <= num * p,
            num * p < d * (mant + 1),
    {
        assert(d * (p * q) <= d * mant);
        assert(d * (p * q) == (d * q) * p);
        assert(d * (mant + 1) <= d * (p * (q + 1)));
        assert(d * (p * (q + 1)) == (d * (q + 1)) * p);
        assert(num * p < (d * (q + 1)) * p);
        assert((d * q) * p <= num * p);
    }
    let rest = (num - d * q) as nat;
    assert(d * (q + 1) == d * q + d) by (nonlinear_arith);
    lemma_fundamental_div_mod_converse(num as int, d as int, q as int, rest as int);
    assert(num / d == q && num % d == rest);
    assert(rest * p == num * p - (d * q) * p) by (nonlinear_arith)
        requires
            rest == num - d * q,
    ;
    assert(d * mant == (d * q) * p + d * r) by (nonlinear_arith)
        requires
            mant == p * q + r,
    ;
    assert(d * (mant + 1) == d * mant + d) by (nonlinear_arith);
    assert(d * r <= rest * p < d * r + d);
    assert(cut <==> d * r < rest * p);
    assert(r < h ==> 2 * rest < d) by (nonlinear_arith)
        requires
            p == 2 * h,
            h >= 1,
            rest * p < d * r + d,
    {
        if r < h {
            assert(d * r + d == d * (r + 1));
            assert(d * (r + 1) <= d * h);
            assert((2 * rest) * h == rest * p);
            assert((2 * rest) * h < d * h);
        }
    }
    assert(r > h ==> 2 * rest > d) by (nonlinear_arith)
        requires
            p == 2 * h,
            h >= 1,
            d > 0,
            d * r <= rest * p,
    {
        if r > h {
            assert(d * h < d * r);
            assert((2 * rest) * h == rest * p);
            assert((2 * rest) * h > d * h);
        }
    }
    assert(r == h ==> (2 * rest >= d && (2 * rest == d <==> !cut))) by (nonlinear_arith)
        requires
            p == 2 * h,
            h >= 1,
            d > 0,
            d * r <= rest * p,
            cut <==> d * r < rest * p,
    {
        if r == h {
            assert((2 * rest) * h == rest * p);
            assert((2 * rest) * h >= d * h);
            if 2 * rest == d {
                assert((2 * rest) * h == d * h);
            } else {
                assert((2 * rest) * h > d * h);
            }
        }
    }
}

/// Where the digits that `scale` counts start, and how the exact value
/// relates to `mant` there.
proof fn lemma_represents_scaled(
    mant: nat,
    exp: int,
    cut: bool,
    num: nat,
    den: nat,
    len: nat,
    e: nat,
)
    requires
        represents(mant, exp, cut, num, den),
        len > 0,
        pow2((len - 1) as nat) <= mant < pow2(len),
        e == (if len + exp > 24 { len + exp - 24 } else { 0 }),
    ensures
        scale(num, den) == e,
        e - exp > 0 ==> {
            let p = pow2((e - exp) as nat);
            let d = den * pow2(e);
            &&& d * mant <= num * p
            &&& num * p < d * (mant + 1)
            &&& cut <==> d * mant < num * p
        },
        e - exp <= 0 && !cut ==> num == (den * pow2(e)) * (mant * pow2((exp - e) as nat)),
{
    let a = (if exp > 0 { exp } else { 0 }) as nat;
    let b = (if exp < 0 { -exp } else { 0 }) as nat;
    let up = pow2(a);
    let down = pow2(b);
    lemma_pow2_pos(a);
    lemma_pow2_pos(b);
    lemma_pow2_pos(e);
    // The upper bound.
    lemma_pow2_adds(len, a);
    lemma_pow2_adds(e + 24, b);
    assert(pow2(len) * up <= pow2(e + 24) * down) by {
        if len + a < e + 24 + b {
            lemma_pow2_strictly_increases(len + a, e + 24 + b);
        }
    }
    assert(num < den * pow2(e + 24)) by (nonlinear_arith)
        requires
            num * down < den * (mant + 1) * up,
            mant + 1 <= pow2(len),
            pow2(len) * up <= pow2(e + 24) * down,
            down > 0,
            up > 0,
    {
        assert(den * (mant + 1) * up <= den * pow2(len) * up);
        assert(den * pow2(len) * up == den * (pow2(len) * up));
        assert(den * (pow2(len) * up) <= den * (pow2(e + 24) * down));
        assert(den * (pow2(e + 24) * down) == (den * pow2(e + 24)) * down);
        assert(num * down < (den * pow2(e + 24)) * down);
    }
    // The lower bound.
    if e > 0 {
        lemma_pow2_adds((len - 1) as nat, a);
        lemma_pow2_adds((e + 23) as nat, b);
        assert(len - 1 + a == e + 23 + b);
        assert(num >= den * pow2((e + 23) as nat)) by (nonlinear_arith)
            requires
                den * mant * up <= num * down,
                pow2((len - 1) as nat) <= mant,
                pow2((len - 1) as nat) * up == pow2((e + 23) as nat) * down,
                down > 0,
                up > 0,
        {
            let low = pow2((len - 1) as nat);
            assert(den * low * up <= den * mant * up);
            assert(den * low * up == den * (low * up));
            assert(den * (low * up) == (den * pow2((e + 23) as nat)) * down);
            assert((den * pow2((e + 23) as nat)) * down <= num * down);
        }
    }
    lemma_scale_is(num, den, e);
    if e - exp > 0 {
        let s = (e - exp) as nat;
        let p = pow2(s);
        let t = pow2(e);
        lemma_pow2_pos(s);
        lemma_pow2_adds(a, s);
        lemma_pow2_adds(e, b);
        assert(a + s == e + b);
        assert(up * p == t * down);
        lemma_rescale(den, mant, num, up, down, p, t);
        lemma_rescale(den, mant + 1, num, up, down, p, t);
    } else if !cut {
        let t = (exp - e) as nat;
        lemma_pow2_adds(e, t);
        assert(a == exp && b == 0);
        lemma2_to64();
        assert(num == den * mant * up);
        assert(den * mant * (pow2(e) * pow2(t)) == (den * pow2(e)) * (mant * pow2(t)))
            by (nonlinear_arith);
    }
}

proof fn lemma_rescale(den: nat, x: nat, num: nat, up: nat, down: nat, p: nat, t: nat)
    requires
        up > 0,
        down > 0,
        p > 0,
        up * p == t * down,
    ensures
        den * x * up <= num * down <==> (den * t) * x <= num * p,
        den * x * up < num * down <==> (den * t) * x < num * p,
        num * down < den * x * up <==> num * p < (den * t) * x,
{
    let l = den * x * up;
    let r = num * down;
    let l2 = (den * t) * x;
    let r2 = num * p;
    assert(l * p == l2 * down) by (nonlinear_arith)
        requires
            l == den * x * up,
            l2 == (den * t) * x,
            up * p == t * down,
    {
        assert(l * p == (den * x) * (up * p));
        assert((den * x) * (t * down) == ((den * t) * x) * down);
    }
    assert(r * p == r2 * down) by (nonlinear_arith)
        requires
            r == num * down,
            r2 == num * p,
    ;
    lemma_same_order(l, r, l2, r2, p, down);
    lemma_same_order(r, l, r2, l2, p, down);
}

proof fn lemma_same_order(l: nat, r: nat, l2: nat, r2: nat, p: nat, d: nat)
    requires
        p > 0,
        d > 0,
        l * p == l2 * d,
        r * p == r2 * d,
    ensures
        l <= r <==> l2 <= r2,
        l < r <==> l2 < r2,
{
    assert(l <= r ==> l * p <= r * p) by (nonlinear_arith);
    assert(l > r ==> l * p > r * p) by (nonlinear_arith)
        requires
            p > 0,
    ;
    assert(l2 <= r2 ==> l2 * d <= r2 * d) by (nonlinear_arith);
    assert(l2 > r2 ==> l2 * d > r2 * d) by (nonlinear_arith)
        requires
            d > 0,
    ;
    assert(l < r ==> l * p < r * p) by (nonlinear_arith)
        requires
            p > 0,
    ;
    assert(l2 < r2 ==> l2 * d < r2 * d) by (nonlinear_arith)
        requires
            d > 0,
    ;
}

/// `2^k`.
pub(crate) fn power_of_two(k: u32) -> (r: u128)
    requires
        k < 128,
    ensures
        r == pow2(k as nat),
{
    proof {
        lemma2_to64();
    }
    if k < 64 {
        proof {
            lemma_u64_pow2_no_overflow(k as nat);
            lemma_u64_shl_is_mul(1, k as u64);
        }
        (1u64 << (k as u64)) as u128
    } else {
        proof {
            lemma_u64_pow2_no_overflow((k - 64) as nat);
            lemma_u64_shl_is_mul(1, (k - 64) as u64);
            lemma_pow2_adds((k - 64) as nat, 64);
        }
        let high: u128 = (1u64 << ((k - 64) as u64)) as u128;
        assert(high * 0x1_0000_0000_0000_0000 <= u128::MAX) by (nonlinear_arith)
            requires
                high <= 0xFFFF_FFFF_FFFF_FFFF,
        ;
        high * 0x1_0000_0000_0000_0000
    }
}

/// The number of binary digits of `x`.
fn digits(x: u128) -> (len: u32)
    requires
        0 < x < 0x1_0000_0000_0000_0000_0000_0000_0000_000,
    ensures
        0 < len <= 124,
        pow2((len - 1) as nat) <= x < pow2(len as nat),
{
    let mut len: u32 = 0;
    let mut rest: u128 = x;
    let mut step: u32 = 64;
    proof {
        lemma2_to64();
        lemma2_to64_rest();
        lemma_pow2_adds(64, 60);
        lemma_pow2_adds(64, 64);
        assert(pow2(124) == 0x1_0000_0000_0000_0000_0000_0000_0000_000);
    }
    while step > 0
        invariant
            step == 64 || step == 32 || step == 16 || step == 8 || step == 4 || step == 2 || step
                == 1 || step == 0,
            rest > 0,
            rest < pow2((if step == 0 { 1 } else { 2 * step }) as nat),
            len + 2 * step <= 128,
            rest * pow2(len as nat) <= x,
            x < (rest + 1) * pow2(len as nat),
        decreases step,
    {
        let ghost before = rest;
        let ghost low = len;
        let piece: u128 = rest >> (step as u128);
        proof {
            lemma_u128_shr_is_div(rest, step as u128);
            lemma_pow2_pos(step as nat);
            lemma_pow2_adds(step as nat, step as nat);
            lemma_fundamental_div_mod(rest as int, pow2(step as nat) as int);
            lemma_pow2_adds(len as nat, step as nat);
        }
        if piece > 0 {
            proof {
                let p = pow2(step as nat);
                let w = pow2(len as nat);
                assert(piece < p) by (nonlinear_arith)
                    requires
                        rest == p * piece + rest as int % p as int,
                        0 <= rest as int % p as int,
                        rest < p * p,
                ;
                assert(piece * (w * p) <= x && x < (piece + 1) * (w * p)) by (nonlinear_arith)
                    requires
                        rest == p * piece + rest as int % p as int,
                        0 <= rest as int % (p as int),
                        rest as int % (p as int) < p,
                        rest * w <= x,
                        x < (rest + 1) * w,
                {
                    assert((p * piece) * w <= rest * w);
                    assert(rest + 1 <= p * (piece + 1));
                    assert((rest + 1) * w <= (p * (piece + 1)) * w);
                }
            }
            rest = piece;
            len = len + step;
        } else {
            assert(rest < pow2(step as nat)) by (nonlinear_arith)
                requires
                    rest == pow2(step as nat) * piece + rest as int % pow2(step as nat) as int,
                    rest as int % (pow2(step as nat) as int) < pow2(step as nat),
                    piece == 0,
            ;
        }
        step = step / 2;
    }
    proof {
        lemma_pow2_unfold((len + 1) as nat);
        if len > 123 {
            if len > 124 {
                lemma_pow2_strictly_increases(124, len as nat);
            }
        }
    }
    len + 1
}

/// The magnitude bits nearest to the exact value that `mant`, `exp` and `cut`
/// represent.
pub(crate) fn pack(
    mant: u128,
    exp: i32,
    cut: bool,
    Ghost(num): Ghost<nat>,
    Ghost(den): Ghost<nat>,
) -> (m: u32)
    requires
        mant < 0x1_0000_0000_0000_0000_0000_0000_0000_000,
        -1000 <= exp <= 1000,
        represents(mant as nat, exp as int, cut, num, den),
        cut ==> mant >= 0x200_0000,
    ensures
        m == nearest(num, den),
        m <= INFINITE,
{
    if mant == 0 {
        proof {
            lemma_represents_zero(exp as int, num, den);
            lemma_nearest_of_zero(den);
        }
        return 0;
    }
    let len = digits(mant);
    let e: i32 = if len as i32 + exp > 24 { len as i32 + exp - 24 } else { 0 };
    let s: i32 = e - exp;
    let ghost d = den * pow2(e as nat);
    proof {
        lemma2_to64();
        lemma_represents_scaled(mant as nat, exp as int, cut, num, den, len as nat, e as nat);
        lemma_pow2_pos(e as nat);
        assert(d > 0) by (nonlinear_arith)
            requires
                d == den * pow2(e as nat),
                den > 0,
                pow2(e as nat) > 0,
        ;
        if cut && len < 25 {
            lemma_pow2_strictly_increases(len as nat, 25);
        }
    }
    if e >= 254 {
        proof {
            lemma_overflow(num, den);
        }
        return INFINITE;
    }
    let f: u32;
    if s <= 0 {
        let t: u32 = (-s) as u32;
        let p = power_of_two(t);
        proof {
            lemma_pow2_pos(t as nat);
            lemma_pow2_adds(len as nat, t as nat);
            if len + t < 24 {
                lemma_pow2_strictly_increases((len + t) as nat, 24);
            }
            assert(mant * p < pow2(24)) by (nonlinear_arith)
                requires
                    mant < pow2(len as nat),
                    p > 0,
                    pow2(len as nat) * p <= pow2(24),
            ;
            lemma_exact_quotient(num, d, (mant * p) as nat);
        }
        f = (mant * p) as u32;
    } else if s >= 126 {
        proof {
            lemma_pow2_unfold(s as nat);
            lemma_pow2_pos((s - 1) as nat);
            if s > 126 {
                lemma_pow2_strictly_increases(125, (s - 1) as nat);
            }
            lemma_pow2_adds(124, 1);
            lemma_pow2_adds(64, 60);
            lemma2_to64_rest();
            lemma_small_mod(mant as nat, pow2(s as nat));
            lemma_basic_div(mant as int, pow2(s as nat) as int);
            lemma_half_even_of_cut(num, d, mant as nat, pow2(s as nat), cut);
        }
        f = 0;
    } else {
        let q: u128 = mant >> (s as u128);
        let p = power_of_two(s as u32);
        let half: u128 = p / 2;
        proof {
            lemma_u128_shr_is_div(mant, s as u128);
            lemma_pow2_unfold(s as nat);
            lemma_pow2_pos((s - 1) as nat);
            lemma_fundamental_div_mod(mant as int, pow2(s as nat) as int);
            lemma_half_even_of_cut(num, d, mant as nat, pow2(s as nat), cut);
            lemma_pow2_adds(24, s as nat);
            if len < 24 + s {
                lemma_pow2_strictly_increases(len as nat, (24 + s) as nat);
            }
            assert(q < pow2(24)) by (nonlinear_arith)
                requires
                    mant < pow2(24) * pow2(s as nat),
                    mant == pow2(s as nat) * q + mant as int % pow2(s as nat) as int,
                    0 <= mant as int % pow2(s as nat) as int,
                    pow2(s as nat) > 0,
            ;
            assert(q * p == p * q) by (nonlinear_arith);
        }
        let rest: u128 = mant - q * p;
        if rest > half || (rest == half && (cut || q % 2 != 0)) {
            f = q as u32 + 1;
        } else {
            f = q as u32;
        }
    }
    let m: u32 = e as u32 * 0x80_0000 + f;
    if m < INFINITE {
        m
    } else {
        INFINITE
    }
}

proof fn lemma_represents_zero(exp: int, num: nat, den: nat)
    requires
        represents(0, exp, false, num, den),
    ensures
        num == 0,
{
    let b = (if exp < 0 { -exp } else { 0 }) as nat;
    lemma_pow2_pos(b);
    let down = pow2(b);
    let up = pow2((if exp > 0 { exp } else { 0 }) as nat);
    assert(den * 0 * up == 0) by (nonlinear_arith);
    assert(num == 0) by (nonlinear_arith)
        requires
            num * down <= 0,
            down > 0,
    ;
}

/// Zero is zero.
pub proof fn lemma_nearest_of_zero(den: nat)
    requires
        den > 0,
    ensures
        nearest(0, den) == 0,
{
    lemma_pow2_pos(24);
    lemma2_to64();
    assert(0 < den * pow2(24)) by (nonlinear_arith)
        requires
            den > 0,
            pow2(24) > 0,
    ;
    assert(den * pow2(0) == den);
    lemma_small_mod(0, den);
    lemma_basic_div(0, den as int);
}

/// With 254 digits dropped the value is beyond the greatest finite one.
proof fn lemma_overflow(num: nat, den: nat)
    requires
        den > 0,
        scale(num, den) >= 254,
    ensures
        nearest(num, den) == INFINITE,
{
    let e = scale(num, den);
    lemma_half_even_range(num, den);
    assert(e * 0x80_0000 >= 254 * 0x80_0000);
}

/// The digits that are kept: at most twenty-four, and no fewer where any were
/// dropped. Rounding up may carry into a twenty-fifth.
pub proof fn lemma_half_even_range(num: nat, den: nat)
    requires
        den > 0,
    ensures
        ({
            let e = scale(num, den);
            let f = half_even(num, den * pow2(e));
            &&& f <= 0x100_0000
            &&& e > 0 ==> f >= 0x80_0000
        }),
{
    let e = scale(num, den);
    let d = den * pow2(e);
    lemma2_to64();
    lemma_scale_bounds(num, den);
    lemma_pow2_pos(e);
    lemma_pow2_adds(e, 24);
    lemma_pow2_adds(e, 23);
    assert(d > 0) by (nonlinear_arith)
        requires
            d == den * pow2(e),
            den > 0,
            pow2(e) > 0,
    ;
    lemma_fundamental_div_mod(num as int, d as int);
    let q = num / d;
    assert(q < 0x100_0000) by (nonlinear_arith)
        requires
            num < den * (pow2(e) * 0x100_0000),
            d == den * pow2(e),
            d > 0,
            num == d * q + num as int % d as int,
            0 <= num as int % d as int,
    {
        assert(den * (pow2(e) * 0x100_0000) == d * 0x100_0000);
    }
    if e > 0 {
        assert(q >= 0x80_0000) by (nonlinear_arith)
            requires
                num >= den * (pow2(e) * 0x80_0000),
                d == den * pow2(e),
                d > 0,
                num == d * q + num as int % d as int,
                num as int % (d as int) < d,
        {
            assert(den * (pow2(e) * 0x80_0000) == d * 0x80_0000);
            if q < 0x80_0000 {
                assert(d * q + d <= d * 0x80_0000);
            }
        }
    }
}

proof fn lemma_exact_quotient(num: nat, d: nat, k: nat)
    requires
        d > 0,
        num == d * k,
    ensures
        half_even(num, d) == k,
{
    assert(d * k == k * d) by (nonlinear_arith);
    lemma_fundamental_div_mod_converse(num as int, d as int, k as int, 0);
}

} // verus!
