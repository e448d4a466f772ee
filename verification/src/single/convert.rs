//! Between binary32 numbers and integers.

use vstd::arithmetic::div_mod::{lemma_fundamental_div_mod, lemma_fundamental_div_mod_converse};
use vstd::arithmetic::power2::{
    lemma2_to64, lemma2_to64_rest, lemma_pow2_adds, lemma_pow2_pos, lemma_pow2_strictly_increases,
    lemma_pow2_unfold, pow2,
};
use vstd::prelude::*;

use super::arith::{absolute, unpack};
use super::nearest::lemma_nearest_exact;
use super::rounding::{nearest, pack, power_of_two, represents};
use super::{magnitude_units, signed, with_sign, Single, INFINITE};

verus! {

/// The number of units in one.
pub open spec fn one_unit() -> nat {
    pow2(149)
}

/// The integer `n` as a number.
pub open spec fn whole(n: nat) -> Single {
    signed(false, nearest(n * one_unit(), 1))
}

/// The nearest integer, a tie away from zero. Infinities and what is not a
/// number stay.
pub open spec fn rounded(x: Single) -> Single {
    if x.finite() {
        signed(
            x.negative(),
            nearest(
                ((2 * x.absolute_units() + one_unit()) / (2 * one_unit())) as nat * one_unit(),
                1,
            ),
        )
    } else {
        x
    }
}

/// The greatest integer that is not above. Infinities and what is not a
/// number stay.
pub open spec fn floored(x: Single) -> Single {
    if x.finite() {
        let n = x.units() / (one_unit() as int);
        signed(
            x.negative(),
            nearest(absolute(n) * one_unit(), 1),
        )
    } else {
        x
    }
}

/// The integer part, drawn into `0..=top`; zero for what is not a number.
pub open spec fn saturated(x: Single, top: nat) -> nat {
    if x.nan() || x.negative() {
        0
    } else if x.infinite() || x.absolute_units() / one_unit() > top {
        top
    } else {
        x.absolute_units() / one_unit()
    }
}

proof fn lemma_common_factor(x: nat, y: nat, g: nat)
    requires
        y > 0,
        g > 0,
    ensures
        (x * g) / (y * g) == x / y,
        y * g > 0,
{
    lemma_fundamental_div_mod(x as int, y as int);
    let q = x / y;
    let r = x % y;
    assert(y * g > 0 && x * g == (y * g) * q + r * g && 0 <= r * g && r * g < y * g)
        by (nonlinear_arith)
        requires
            x == y * q + r,
            r < y,
            g > 0,
            y > 0,
    ;
    assert((y * g) * q == q * (y * g)) by (nonlinear_arith);
    lemma_fundamental_div_mod_converse((x * g) as int, (y * g) as int, q as int, (r * g) as int);
}

/// The integer part of `f * 2^e` units where a fraction is left.
proof fn lemma_integer_part(f: nat, e: nat)
    requires
        e < 149,
    ensures
        (f * pow2(e)) / one_unit() == f / pow2((149 - e) as nat),
        ((2 * (f * pow2(e)) + one_unit()) / (2 * one_unit())) == (f + pow2((148 - e) as nat))
            / pow2((149 - e) as nat),
{
    let s = (149 - e) as nat;
    let g = pow2(e);
    let h = pow2((s - 1) as nat);
    lemma_pow2_pos(e);
    lemma_pow2_pos(s);
    lemma_pow2_adds(s, e);
    lemma_pow2_unfold(s);
    lemma_common_factor(f, pow2(s), g);
    assert(2 * (f * g) + pow2(149) == (f + h) * (2 * g)) by (nonlinear_arith)
        requires
            pow2(149) == (2 * h) * g,
    ;
    assert(2 * pow2(149) == pow2(s) * (2 * g)) by (nonlinear_arith)
        requires
            pow2(149) == pow2(s) * g,
    ;
    lemma_common_factor(f + h, pow2(s), 2 * g);
}

/// `f * 2^e` units are an integer where no fraction is left.
proof fn lemma_integral(f: nat, e: nat)
    requires
        e >= 149,
    ensures
        f * pow2(e) == (f * pow2((e - 149) as nat)) * one_unit(),
        (f * pow2(e)) / one_unit() == f * pow2((e - 149) as nat),
        (2 * (f * pow2(e)) + one_unit()) / (2 * one_unit()) == f * pow2((e - 149) as nat),
{
    let k = f * pow2((e - 149) as nat);
    let w = one_unit();
    lemma_pow2_pos(149);
    lemma_pow2_adds((e - 149) as nat, 149);
    assert(f * pow2(e) == k * w) by (nonlinear_arith)
        requires
            k == f * pow2((e - 149) as nat),
            pow2(e) == pow2((e - 149) as nat) * w,
    ;
    lemma_fundamental_div_mod_converse((k * w) as int, w as int, k as int, 0);
    assert(2 * (k * w) + w == k * (2 * w) + w) by (nonlinear_arith);
    lemma_fundamental_div_mod_converse(
        (2 * (k * w) + w) as int,
        (2 * w) as int,
        k as int,
        w as int,
    );
}

proof fn lemma_whole_represents(n: nat)
    ensures
        represents(n, 149, false, n * one_unit(), 1),
{
    lemma2_to64();
    lemma_pow2_pos(149);
    let w = one_unit();
    assert(1 * n * w == n * w && 1 * (n + 1) * w == n * w + w && (n * w) * 1 == n * w)
        by (nonlinear_arith);
}

/// The magnitude bits of the integer `n`.
fn pack_integer(n: u64) -> (m: u32)
    ensures
        m == nearest(n as nat * one_unit(), 1),
        m <= INFINITE,
{
    proof {
        lemma_whole_represents(n as nat);
    }
    pack(n as u128, 149, false, Ghost(n as nat * one_unit()), Ghost(1))
}

impl Single {
    /// The integer `n` as a number.
    pub fn from_u32(n: u32) -> (r: Single)
        ensures
            r == whole(n as nat),
    {
        with_sign(false, pack_integer(n as u64))
    }

    /// The integer `n` as a number.
    pub fn from_usize(n: usize) -> (r: Single)
        ensures
            r == whole(n as nat),
    {
        with_sign(false, pack_integer(n as u64))
    }

    /// The nearest integer, a tie away from zero.
    pub fn round(self) -> (r: Single)
        ensures
            r == rounded(self),
    {
        let m = self.magnitude_bits();
        if m >= INFINITE {
            return self;
        }
        let (f, e) = unpack(m);
        if e >= 149 {
            proof {
                lemma_integral(f as nat, e as nat);
                lemma_nearest_exact(m as nat, 1);
                assert(magnitude_units(m as nat) * 1 == magnitude_units(m as nat));
            }
            return with_sign(self.is_negative(), m);
        }
        let s: u32 = 149 - e;
        proof {
            lemma_integer_part(f as nat, e as nat);
            lemma_pow2_unfold(s as nat);
            lemma_pow2_pos((s - 1) as nat);
        }
        if s > 25 {
            proof {
                lemma2_to64();
                if s > 26 {
                    lemma_pow2_strictly_increases(25, (s - 1) as nat);
                }
                lemma_fundamental_div_mod_converse(
                    (f + pow2((s - 1) as nat)) as int,
                    pow2(s as nat) as int,
                    0,
                    (f + pow2((s - 1) as nat)) as int,
                );
            }
            with_sign(self.is_negative(), pack_integer(0))
        } else {
            proof {
                lemma2_to64();
                if s < 25 {
                    lemma_pow2_strictly_increases((s - 1) as nat, 24);
                }
            }
            let half = power_of_two(s - 1);
            let n: u128 = (f as u128 + half) / (2 * half);
            assert(n <= f as u128 + half) by (nonlinear_arith)
                requires
                    n == (f as u128 + half) / (2 * half),
                    half > 0,
            ;
            with_sign(self.is_negative(), pack_integer(n as u64))
        }
    }

    /// The greatest integer that is not above.
    pub fn floor(self) -> (r: Single)
        ensures
            r == floored(self),
    {
        let m = self.magnitude_bits();
        if m >= INFINITE {
            return self;
        }
        let (f, e) = unpack(m);
        let ghost u = self.absolute_units();
        let ghost w = one_unit();
        proof {
            lemma_pow2_pos(149);
        }
        if e >= 149 {
            proof {
                lemma_integral(f as nat, e as nat);
                lemma_nearest_exact(m as nat, 1);
                assert(u * 1 == u);
                let k = f * pow2((e - 149) as nat);
                if self.negative() {
                    assert(-(u as int) == (-k) * w) by (nonlinear_arith)
                        requires
                            u == k * w,
                    ;
                    lemma_fundamental_div_mod_converse(-(u as int), w as int, -k, 0);
                }
            }
            return with_sign(self.is_negative(), m);
        }
        let s: u32 = 149 - e;
        proof {
            lemma_integer_part(f as nat, e as nat);
            lemma_fundamental_div_mod(u as int, w as int);
        }
        let below: u32;
        let fraction: bool;
        if s >= 24 {
            proof {
                lemma2_to64();
                if s > 24 {
                    lemma_pow2_strictly_increases(24, s as nat);
                }
                lemma_fundamental_div_mod_converse(f as int, pow2(s as nat) as int, 0, f as int);
            }
            below = 0;
            fraction = f > 0;
        } else {
            let p = power_of_two(s);
            proof {
                lemma_pow2_pos(s as nat);
                lemma_fundamental_div_mod(f as int, p as int);
            }
            let q: u128 = f as u128 / p;
            assert(q <= f) by (nonlinear_arith)
                requires
                    q == f as u128 / p,
                    p > 0,
            ;
            below = q as u32;
            fraction = f as u128 % p != 0;
        }
        proof {
            lemma_fraction(f as nat, e as nat);
        }
        let n: u32 = if self.is_negative() && fraction { below + 1 } else { below };
        proof {
            if self.negative() {
                if fraction {
                    assert(-(u as int) == (-(below + 1)) * w + (w - u % w)) by (nonlinear_arith)
                        requires
                            u == w * below + u % w,
                    ;
                    lemma_fundamental_div_mod_converse(
                        -(u as int),
                        w as int,
                        -(below + 1),
                        w - u % w,
                    );
                } else {
                    assert(-(u as int) == (-(below as int)) * w) by (nonlinear_arith)
                        requires
                            u == w * below,
                    ;
                    lemma_fundamental_div_mod_converse(-(u as int), w as int, -(below as int), 0);
                }
            }
        }
        with_sign(self.is_negative(), pack_integer(n as u64))
    }

    /// The integer part, drawn into `0..=top`.
    fn truncate(self, top: u64) -> (r: u64)
        ensures
            r == saturated(self, top as nat),
    {
        let m = self.magnitude_bits();
        if m > INFINITE || self.is_negative() {
            return 0;
        }
        if m == INFINITE {
            return top;
        }
        let (f, e) = unpack(m);
        proof {
            lemma2_to64();
            lemma2_to64_rest();
        }
        let n: u64;
        if e >= 149 {
            let k: u32 = e - 149;
            proof {
                lemma_integral(f as nat, e as nat);
            }
            if k > 40 {
                proof {
                    lemma_pow2_adds(41, (k - 41) as nat);
                    lemma_pow2_pos((k - 41) as nat);
                    let p = pow2(k as nat);
                    let c = pow2((k - 41) as nat);
                    assert(f * p > u64::MAX) by (nonlinear_arith)
                        requires
                            f >= 0x80_0000,
                            p == 0x200_0000_0000 * c,
                            c >= 1,
                    {
                        assert(p >= 0x200_0000_0000);
                        assert(f * p >= 0x80_0000 * p);
                    }
                }
                return top;
            }
            let p = power_of_two(k);
            proof {
                if k < 40 {
                    lemma_pow2_strictly_increases(k as nat, 40);
                }
                assert(f * p <= 0xFF_FFFF * 0x100_0000_0000) by (nonlinear_arith)
                    requires
                        f <= 0xFF_FFFF,
                        p <= 0x100_0000_0000,
                ;
            }
            n = (f as u128 * p) as u64;
        } else {
            let s: u32 = 149 - e;
            proof {
                lemma_integer_part(f as nat, e as nat);
                lemma_pow2_pos(s as nat);
            }
            if s >= 24 {
                proof {
                    if s > 24 {
                        lemma_pow2_strictly_increases(24, s as nat);
                    }
                    lemma_fundamental_div_mod_converse(
                        f as int,
                        pow2(s as nat) as int,
                        0,
                        f as int,
                    );
                }
                n = 0;
            } else {
                let p = power_of_two(s);
                let q: u128 = f as u128 / p;
                assert(q <= f) by (nonlinear_arith)
                    requires
                        q == f as u128 / p,
                        p > 0,
                ;
                n = q as u64;
            }
        }
        if n > top {
            top
        } else {
            n
        }
    }

    /// The integer part as a byte, drawn into its range.
    pub fn to_u8(self) -> (r: u8)
        ensures
            r == saturated(self, 255),
    {
        self.truncate(255) as u8
    }

    /// The integer part as a `u32`, drawn into its range.
    pub fn to_u32(self) -> (r: u32)
        ensures
            r == saturated(self, u32::MAX as nat),
    {
        self.truncate(u32::MAX as u64) as u32
    }

    /// The integer part as a `usize`, drawn into its range.
    pub fn to_usize(self) -> (r: usize)
        ensures
            r == saturated(self, usize::MAX as nat),
    {
        self.truncate(usize::MAX as u64) as usize
    }
}

/// Whether `f * 2^e` units have a fraction shows in the digits of `f`.
proof fn lemma_fraction(f: nat, e: nat)
    requires
        e < 149,
    ensures
        (f * pow2(e)) % one_unit() == 0 <==> f % pow2((149 - e) as nat) == 0,
{
    let s = (149 - e) as nat;
    let g = pow2(e);
    let p = pow2(s);
    let w = one_unit();
    lemma_pow2_pos(e);
    lemma_pow2_pos(s);
    lemma_pow2_pos(149);
    lemma_pow2_adds(s, e);
    lemma_integer_part(f, e);
    let q = f / p;
    lemma_fundamental_div_mod(f as int, p as int);
    lemma_fundamental_div_mod((f * g) as int, w as int);
    let r = f % p;
    assert((f * g) as int % w as int == r * g) by (nonlinear_arith)
        requires
            f * g == w * q + (f * g) as int % w as int,
            f == p * q + r,
            w == p * g,
    {
        assert((p * q + r) * g == (p * g) * q + r * g);
    }
    assert(r * g == 0 <==> r == 0) by (nonlinear_arith)
        requires
            g > 0,
    ;
}

} // verus!
