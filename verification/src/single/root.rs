//! The square root.

use vstd::arithmetic::power2::{
    lemma2_to64, lemma2_to64_rest, lemma_pow2_adds, lemma_pow2_pos, lemma_pow2_unfold, pow2,
};
use vstd::prelude::*;

pub mod laws;

use super::arith::unpack;
use super::rounding::{nearest, pack, represents};
use super::{signed, with_sign, Single, INFINITE, QUIET_NAN};

verus! {

/// `r` is the integer part of the square root of `n`.
pub open spec fn is_floor_root(r: nat, n: nat) -> bool {
    r * r <= n && n < (r + 1) * (r + 1)
}

/// The integer part of the square root of `n`.
pub open spec fn floor_root(n: nat) -> nat {
    choose|r: nat| is_floor_root(r, n)
}

/// The square root, rounded to nearest. The root of a negative zero is that
/// zero; a negative number has none.
///
/// Of a value of `u` units the root is the square root of `u * 2^149` units.
/// Its integer part has more digits than are kept, so where the root is not an
/// integer any value up to the next one rounds alike: half a unit more stands
/// for it.
pub open spec fn square_root(x: Single) -> Single {
    if x.zero() {
        x
    } else if x.nan() || x.negative() {
        Single { bits: QUIET_NAN }
    } else if x.infinite() {
        x
    } else {
        let n = x.absolute_units() * pow2(149);
        let r = floor_root(n);
        signed(false, nearest(if r * r == n { 2 * r } else { 2 * r + 1 }, 2))
    }
}

/// There is one integer part only.
pub proof fn lemma_floor_root_is(r: nat, n: nat)
    requires
        is_floor_root(r, n),
    ensures
        floor_root(n) == r,
{
    let c = floor_root(n);
    assert(is_floor_root(c, n));
    assert(c == r) by (nonlinear_arith)
        requires
            r * r <= n,
            n < (r + 1) * (r + 1),
            c * c <= n,
            n < (c + 1) * (c + 1),
    {
        if c < r {
            assert((c + 1) * (c + 1) <= r * r);
        }
        if r < c {
            assert((r + 1) * (r + 1) <= c * c);
        }
    }
}

/// Every integer has one.
pub proof fn lemma_floor_root_exists(n: nat)
    ensures
        is_floor_root(floor_root(n), n),
    decreases n,
{
    if n == 0 {
        assert(0int * 0 == 0 && 1int * 1 == 1) by (nonlinear_arith);
        assert(is_floor_root(0, 0));
    } else {
        lemma_floor_root_exists((n - 1) as nat);
        let r = floor_root((n - 1) as nat);
        assert((r + 1) * (r + 1) == r * r + 2 * r + 1) by (nonlinear_arith);
        assert((r + 2) * (r + 2) == r * r + 4 * r + 4) by (nonlinear_arith);
        if n < (r + 1) * (r + 1) {
            assert(is_floor_root(r, n));
        } else {
            assert(is_floor_root(r + 1, n));
        }
    }
}

/// The integer part of a square root, digit by digit.
fn integer_root(n: u128) -> (r: u128)
    requires
        n < 0x400_0000_0000_0000_0000_0000_0000,
    ensures
        is_floor_root(r as nat, n as nat),
        r < 0x20_0000_0000_0000,
{
    let mut r: u128 = 0;
    let mut step: u128 = 0x10_0000_0000_0000;
    let ghost mut k: nat = 53;
    proof {
        lemma2_to64();
        lemma2_to64_rest();
    }
    while step > 0
        invariant
            k <= 53,
            step == if k == 0 { 0 } else { pow2((k - 1) as nat) },
            r * r <= n,
            n < (r + pow2(k)) * (r + pow2(k)),
            r + pow2(k) <= 0x20_0000_0000_0000,
        decreases k,
    {
        proof {
            lemma_pow2_unfold(k);
            lemma_pow2_pos((k - 1) as nat);
            lemma2_to64();
            if k > 1 {
                lemma_pow2_unfold((k - 1) as nat);
            }
        }
        let next: u128 = r + step;
        assert(next * next <= 0x20_0000_0000_0000 * 0x20_0000_0000_0000) by (nonlinear_arith)
            requires
                next <= 0x20_0000_0000_0000,
        ;
        if next * next <= n {
            r = next;
        }
        step = step / 2;
        proof {
            k = (k - 1) as nat;
        }
    }
    proof {
        lemma2_to64();
    }
    r
}

impl Single {
    /// The square root.
    pub fn sqrt(self) -> (r: Single)
        ensures
            r == square_root(self),
    {
        let m = self.magnitude_bits();
        if m == 0 {
            return self;
        }
        if m > INFINITE || self.is_negative() {
            return Single { bits: QUIET_NAN };
        }
        if m == INFINITE {
            return self;
        }
        let (f, e) = unpack(m);
        let t: u32 = e + 149;
        let odd: u32 = t % 2;
        let g: u128 = if odd == 1 { 2 * f as u128 } else { f as u128 };
        let wide: u128 = g * 0x1_0000_0000_0000_0000_0000;
        let mant = integer_root(wide);
        let exp: i32 = (t / 2) as i32 - 40;
        let ghost n = self.absolute_units() * pow2(149);
        let ghost root = floor_root(n);
        let ghost num = if root * root == n { 2 * root } else { 2 * root + 1 };
        proof {
            lemma_root_represents(f as nat, e as nat, g as nat, mant as nat);
            assert(mant >= 0x200_0000) by (nonlinear_arith)
                requires
                    wide >= 0x1_0000_0000_0000_0000_0000,
                    wide < (mant + 1) * (mant + 1),
            {
                if mant < 0x200_0000 {
                    assert((mant + 1) * (mant + 1) <= 0x200_0000 * 0x200_0000);
                }
            }
        }
        with_sign(false, pack(mant, exp, mant * mant != wide, Ghost(num), Ghost(2)))
    }
}

proof fn lemma_root_represents(f: nat, e: nat, g: nat, mant: nat)
    requires
        g == if (e + 149) % 2 == 1 { 2 * f } else { f },
        is_floor_root(mant, g * 0x1_0000_0000_0000_0000_0000),
    ensures
        ({
            let n = (f * pow2(e)) * pow2(149);
            let root = floor_root(n);
            let num = if root * root == n { 2 * root } else { 2 * root + 1 };
            represents(
                mant,
                (e + 149) / 2 - 40,
                mant * mant != g * 0x1_0000_0000_0000_0000_0000,
                num,
                2,
            )
        }),
{
    let n = (f * pow2(e)) * pow2(149);
    let wide = g * 0x1_0000_0000_0000_0000_0000;
    let h = ((e + 149) / 2) as nat;
    let x = (h - 40) as nat;
    let s = pow2(x);
    lemma2_to64();
    lemma2_to64_rest();
    lemma_pow2_pos(x);
    lemma_pow2_adds(e, 149);
    lemma_pow2_adds(x, x);
    lemma_pow2_adds(x + x, 80);
    lemma_pow2_adds(40, 40);
    lemma_pow2_unfold(e + 149);
    // n == wide * s^2
    assert(n == wide * (s * s)) by {
        assert(n == f * pow2(e + 149)) by (nonlinear_arith)
            requires
                n == (f * pow2(e)) * pow2(149),
                pow2(e + 149) == pow2(e) * pow2(149),
        ;
        if (e + 149) % 2 == 1 {
            assert(e + 149 == 2 * x + 80 + 1);
        } else {
            assert(e + 149 == 2 * x + 80);
        }
        assert(g * pow2((2 * x + 80) as nat) == n) by (nonlinear_arith)
            requires
                n == f * pow2(e + 149),
                g == 2 * f && pow2(e + 149) == 2 * pow2((2 * x + 80) as nat) || g == f && pow2(
                    e + 149,
                ) == pow2((2 * x + 80) as nat),
        ;
        assert(pow2((2 * x + 80) as nat) == (s * s) * 0x1_0000_0000_0000_0000_0000);
        assert(g * ((s * s) * 0x1_0000_0000_0000_0000_0000) == wide * (s * s)) by (nonlinear_arith)
            requires
                wide == g * 0x1_0000_0000_0000_0000_0000,
        ;
    }
    lemma_floor_root_exists(n);
    let root = floor_root(n);
    let low = mant * s;
    let high = (mant + 1) * s;
    assert(low * low <= n && (mant * mant == wide <==> low * low == n) && n < high * high)
        by (nonlinear_arith)
        requires
            n == wide * (s * s),
            low == mant * s,
            high == (mant + 1) * s,
            mant * mant <= wide,
            wide < (mant + 1) * (mant + 1),
            s > 0,
    {
        let q = s * s;
        assert(q > 0);
        assert(low * low == (mant * mant) * q);
        assert(high * high == ((mant + 1) * (mant + 1)) * q);
        assert((mant * mant) * q <= wide * q);
        if mant * mant < wide {
            assert((mant * mant) * q < wide * q);
        }
    }
    assert(low <= root && root < high) by (nonlinear_arith)
        requires
            low * low <= n,
            n < high * high,
            root * root <= n,
            n < (root + 1) * (root + 1),
    {
        if root < low {
            assert((root + 1) * (root + 1) <= low * low);
        }
        if root >= high {
            assert(root * root >= high * high);
        }
    }
    let num = if root * root == n { 2 * root } else { 2 * root + 1 };
    if low * low == n {
        assert((low + 1) * (low + 1) > low * low) by (nonlinear_arith);
        lemma_floor_root_is(low, n);
    } else if root == low {
        assert(root * root != n);
    }
    assert(2 * mant * s == 2 * low && 2 * (mant + 1) * s == 2 * high) by (nonlinear_arith)
        requires
            low == mant * s,
            high == (mant + 1) * s,
    ;
    assert(num * 1 == num);
}

} // verus!
