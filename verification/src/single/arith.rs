//! The four operations of arithmetic, each rounded to nearest.

use vstd::arithmetic::div_mod::lemma_fundamental_div_mod;
use vstd::arithmetic::power2::{
    lemma2_to64, lemma2_to64_rest, lemma_pow2_adds, lemma_pow2_pos, lemma_pow2_strictly_increases,
    pow2,
};
use vstd::prelude::*;

use super::rounding::{nearest, pack, power_of_two, represents};
use super::{magnitude_units, signed, with_sign, Single, INFINITE, QUIET_NAN};

verus! {

/// The magnitude of an integer.
pub open spec fn absolute(x: int) -> nat {
    (if x < 0 { -x } else { x }) as nat
}

/// `a + b`. An exact zero is positive, except for the sum of two negative
/// zeros.
pub open spec fn sum(a: Single, b: Single) -> Single {
    if a.nan() || b.nan() {
        Single { bits: QUIET_NAN }
    } else if a.infinite() {
        if b.infinite() && a.negative() != b.negative() {
            Single { bits: QUIET_NAN }
        } else {
            a
        }
    } else if b.infinite() {
        b
    } else {
        let exact = a.units() + b.units();
        if exact == 0 {
            signed(a.negative() && b.negative(), 0)
        } else {
            signed(exact < 0, nearest(absolute(exact), 1))
        }
    }
}

/// `-a`.
pub open spec fn opposite(a: Single) -> Single {
    signed(!a.negative(), a.magnitude())
}

/// `a - b`.
pub open spec fn difference(a: Single, b: Single) -> Single {
    sum(a, opposite(b))
}

/// `a * b`.
pub open spec fn product(a: Single, b: Single) -> Single {
    let negative = a.negative() != b.negative();
    if a.nan() || b.nan() || (a.infinite() && b.zero()) || (a.zero() && b.infinite()) {
        Single { bits: QUIET_NAN }
    } else if a.infinite() || b.infinite() {
        signed(negative, INFINITE as nat)
    } else {
        signed(negative, nearest(a.absolute_units() * b.absolute_units(), pow2(149)))
    }
}

/// `a / b`.
pub open spec fn quotient(a: Single, b: Single) -> Single {
    let negative = a.negative() != b.negative();
    if a.nan() || b.nan() || (a.infinite() && b.infinite()) || (a.zero() && b.zero()) {
        Single { bits: QUIET_NAN }
    } else if a.infinite() || b.zero() {
        signed(negative, INFINITE as nat)
    } else if b.infinite() {
        signed(negative, 0)
    } else {
        signed(negative, nearest(a.absolute_units() * pow2(149), b.absolute_units()))
    }
}

/// The digits of a magnitude, and how many digits stand below them.
pub(crate) fn unpack(m: u32) -> (r: (u32, u32))
    requires
        m < INFINITE,
    ensures
        r.0 < 0x100_0000,
        r.1 < 254,
        r.1 > 0 ==> r.0 >= 0x80_0000,
        m > 0 ==> r.0 > 0,
        magnitude_units(m as nat) == r.0 * pow2(r.1 as nat),
{
    proof {
        lemma2_to64();
    }
    if m < 0x80_0000 {
        (m, 0)
    } else {
        (0x80_0000 + m % 0x80_0000, m / 0x80_0000 - 1)
    }
}

impl Single {
    /// `self + other`.
    pub fn plus(self, other: Single) -> (r: Single)
        ensures
            r == sum(self, other),
    {
        let ma = self.magnitude_bits();
        let mb = other.magnitude_bits();
        if ma > INFINITE || mb > INFINITE {
            return Single { bits: QUIET_NAN };
        }
        if ma == INFINITE {
            if mb == INFINITE && self.is_negative() != other.is_negative() {
                return Single { bits: QUIET_NAN };
            }
            return self;
        }
        if mb == INFINITE {
            return other;
        }
        let (fa, ea) = unpack(ma);
        let (fb, eb) = unpack(mb);
        if ea >= eb {
            add_aligned(self.is_negative(), fa, ea, other.is_negative(), fb, eb)
        } else {
            add_aligned(other.is_negative(), fb, eb, self.is_negative(), fa, ea)
        }
    }

    /// `-self`.
    pub fn negated(self) -> (r: Single)
        ensures
            r == opposite(self),
    {
        with_sign(!self.is_negative(), self.magnitude_bits())
    }

    /// `self - other`.
    pub fn minus(self, other: Single) -> (r: Single)
        ensures
            r == difference(self, other),
    {
        self.plus(other.negated())
    }

    /// `self * other`.
    pub fn times(self, other: Single) -> (r: Single)
        ensures
            r == product(self, other),
    {
        let ma = self.magnitude_bits();
        let mb = other.magnitude_bits();
        let negative = self.is_negative() != other.is_negative();
        if ma > INFINITE || mb > INFINITE || (ma == INFINITE && mb == 0) || (ma == 0 && mb
            == INFINITE) {
            return Single { bits: QUIET_NAN };
        }
        if ma == INFINITE || mb == INFINITE {
            return with_sign(negative, INFINITE);
        }
        let (fa, ea) = unpack(ma);
        let (fb, eb) = unpack(mb);
        assert(fa * fb < 0x1_0000_0000_0000) by (nonlinear_arith)
            requires
                fa < 0x100_0000,
                fb < 0x100_0000,
        ;
        let mant: u128 = fa as u128 * fb as u128;
        let exp: i32 = ea as i32 + eb as i32 - 149;
        let ghost num = self.absolute_units() * other.absolute_units();
        proof {
            lemma_product_represents(fa as nat, ea as nat, fb as nat, eb as nat);
        }
        with_sign(negative, pack(mant, exp, false, Ghost(num), Ghost(pow2(149))))
    }

    /// `self / other`.
    pub fn over(self, other: Single) -> (r: Single)
        ensures
            r == quotient(self, other),
    {
        let ma = self.magnitude_bits();
        let mb = other.magnitude_bits();
        let negative = self.is_negative() != other.is_negative();
        if ma > INFINITE || mb > INFINITE || (ma == INFINITE && mb == INFINITE) || (ma == 0 && mb
            == 0) {
            return Single { bits: QUIET_NAN };
        }
        if ma == INFINITE || mb == 0 {
            return with_sign(negative, INFINITE);
        }
        if mb == INFINITE {
            return with_sign(negative, 0);
        }
        let (fa, ea) = unpack(ma);
        let (fb, eb) = unpack(mb);
        let wide: u128 = fa as u128 * 0x1_0000_0000_0000_0000;
        let mant: u128 = wide / fb as u128;
        let rest: u128 = wide % fb as u128;
        let exp: i32 = ea as i32 - eb as i32 + 85;
        let ghost num = self.absolute_units() * pow2(149);
        let ghost den = other.absolute_units();
        proof {
            lemma_fundamental_div_mod(wide as int, fb as int);
            lemma_quotient_represents(
                fa as nat,
                ea as nat,
                fb as nat,
                eb as nat,
                mant as nat,
                rest as nat,
            );
            if fa > 0 {
                assert(mant >= 0x200_0000) by (nonlinear_arith)
                    requires
                        wide == fb * mant + rest,
                        rest < fb,
                        fb < 0x100_0000,
                        wide >= 0x1_0000_0000_0000_0000,
                {
                    if mant < 0x200_0000 {
                        assert(fb * mant <= 0x100_0000 * 0x200_0000);
                    }
                }
            } else {
                assert(rest == 0) by (nonlinear_arith)
                    requires
                        0 == fb * mant + rest,
                        mant >= 0,
                        rest >= 0,
                ;
            }
            assert(mant <= wide) by (nonlinear_arith)
                requires
                    wide == fb * mant + rest,
                    rest >= 0,
                    fb >= 1,
            ;
        }
        with_sign(negative, pack(mant, exp, rest != 0, Ghost(num), Ghost(den)))
    }
}

proof fn lemma_product_represents(fa: nat, ea: nat, fb: nat, eb: nat)
    ensures
        represents(
            fa * fb,
            ea + eb - 149,
            false,
            (fa * pow2(ea)) * (fb * pow2(eb)),
            pow2(149),
        ),
{
    let exp = ea + eb - 149;
    let a = (if exp > 0 { exp } else { 0 }) as nat;
    let b = (if exp < 0 { -exp } else { 0 }) as nat;
    let den = pow2(149);
    let mant = fa * fb;
    let num = (fa * pow2(ea)) * (fb * pow2(eb));
    lemma2_to64();
    lemma_pow2_pos(149);
    lemma_pow2_pos(a);
    lemma_pow2_adds(ea, eb);
    lemma_pow2_adds(149, a);
    lemma_pow2_adds(ea + eb, b);
    assert(149 + a == ea + eb + b);
    assert(den * mant * pow2(a) == num * pow2(b)) by (nonlinear_arith)
        requires
            den * pow2(a) == (pow2(ea) * pow2(eb)) * pow2(b),
            mant == fa * fb,
            num == (fa * pow2(ea)) * (fb * pow2(eb)),
    {
        assert(den * mant * pow2(a) == mant * (den * pow2(a)));
        assert(num == mant * (pow2(ea) * pow2(eb)));
        assert(num * pow2(b) == mant * ((pow2(ea) * pow2(eb)) * pow2(b)));
    }
    assert(den * mant * pow2(a) < den * (mant + 1) * pow2(a)) by (nonlinear_arith)
        requires
            den > 0,
            pow2(a) > 0,
    {
        assert(den * (mant + 1) == den * mant + den);
        assert((den * mant + den) * pow2(a) == den * mant * pow2(a) + den * pow2(a));
        assert(den * pow2(a) > 0);
    }
}

proof fn lemma_quotient_represents(fa: nat, ea: nat, fb: nat, eb: nat, mant: nat, rest: nat)
    requires
        fb > 0,
        fa * 0x1_0000_0000_0000_0000 == fb * mant + rest,
        rest < fb,
    ensures
        represents(
            mant,
            ea - eb + 85,
            rest != 0,
            (fa * pow2(ea)) * pow2(149),
            fb * pow2(eb),
        ),
{
    let exp = ea - eb + 85;
    let a = (if exp > 0 { exp } else { 0 }) as nat;
    let b = (if exp < 0 { -exp } else { 0 }) as nat;
    let num = (fa * pow2(ea)) * pow2(149);
    let den = fb * pow2(eb);
    lemma2_to64();
    lemma_pow2_pos(eb);
    lemma_pow2_pos(a);
    lemma_pow2_adds(ea, 149);
    lemma_pow2_adds(ea + 149, b);
    lemma_pow2_adds(eb, a);
    lemma_pow2_adds(eb + a, 64);
    assert(ea + 149 + b == eb + a + 64);
    let g = pow2(eb) * pow2(a);
    assert(g > 0) by (nonlinear_arith)
        requires
            g == pow2(eb) * pow2(a),
            pow2(eb) > 0,
            pow2(a) > 0,
    ;
    assert(num * pow2(b) == g * (fa * 0x1_0000_0000_0000_0000)) by (nonlinear_arith)
        requires
            num == (fa * pow2(ea)) * pow2(149),
            (pow2(ea) * pow2(149)) * pow2(b) == g * 0x1_0000_0000_0000_0000,
    {
        assert(num == fa * (pow2(ea) * pow2(149)));
        assert(num * pow2(b) == fa * ((pow2(ea) * pow2(149)) * pow2(b)));
        assert(fa * (g * 0x1_0000_0000_0000_0000) == g * (fa * 0x1_0000_0000_0000_0000));
    }
    assert(den * mant * pow2(a) == g * (fb * mant)) by (nonlinear_arith)
        requires
            den == fb * pow2(eb),
            g == pow2(eb) * pow2(a),
    ;
    assert(den * (mant + 1) * pow2(a) == g * (fb * (mant + 1))) by (nonlinear_arith)
        requires
            den == fb * pow2(eb),
            g == pow2(eb) * pow2(a),
    ;
    let w = fa * 0x1_0000_0000_0000_0000;
    assert(fb * (mant + 1) == fb * mant + fb) by (nonlinear_arith);
    assert(g * (fb * mant) <= g * w && (rest != 0 <==> g * (fb * mant) < g * w) && g * w < g * (
    fb * (mant + 1))) by (nonlinear_arith)
        requires
            g > 0,
            w == fb * mant + rest,
            rest < fb,
            fb * (mant + 1) == fb * mant + fb,
    ;
    assert(den > 0) by (nonlinear_arith)
        requires
            den == fb * pow2(eb),
            fb > 0,
            pow2(eb) > 0,
    ;
}

proof fn lemma_represents_integer(mant: nat, exp: nat, cut: bool, num: nat)
    requires
        mant * pow2(exp) <= num,
        num < (mant + 1) * pow2(exp),
        cut <==> mant * pow2(exp) < num,
    ensures
        represents(mant, exp as int, cut, num, 1),
{
    lemma2_to64();
    let e = exp as int;
    let up = pow2((if e > 0 { e } else { 0 }) as nat);
    let down = pow2((if e < 0 { -e } else { 0 }) as nat);
    assert(up == pow2(exp) && down == 1);
    assert(1 * mant * up == mant * up && 1 * (mant + 1) * up == (mant + 1) * up && num * down
        == num) by (nonlinear_arith)
        requires
            down == 1,
    ;
}

/// The sum of two finite numbers, the one with fewer dropped digits second.
fn add_aligned(na: bool, fa: u32, ea: u32, nb: bool, fb: u32, eb: u32) -> (r: Single)
    requires
        fa < 0x100_0000,
        fb < 0x100_0000,
        eb <= ea < 254,
        ea > 0 ==> fa >= 0x80_0000,
    ensures
        ({
            let ua = if na { -(fa * pow2(ea as nat)) } else { (fa * pow2(ea as nat)) as int };
            let ub = if nb { -(fb * pow2(eb as nat)) } else { (fb * pow2(eb as nat)) as int };
            let exact = ua + ub;
            r == if exact == 0 {
                signed(na && nb, 0)
            } else {
                signed(exact < 0, nearest(absolute(exact), 1))
            }
        }),
{
    let ghost wa = (fa * pow2(ea as nat)) as nat;
    let ghost wb = (fb * pow2(eb as nat)) as nat;
    let gap: u32 = ea - eb;
    proof {
        lemma2_to64();
        lemma2_to64_rest();
        lemma_pow2_pos(ea as nat);
        lemma_pow2_pos(eb as nat);
    }
    if gap <= 64 {
        let p = power_of_two(gap);
        proof {
            if gap < 64 {
                lemma_pow2_strictly_increases(gap as nat, 64);
            }
            lemma_pow2_adds(gap as nat, eb as nat);
            assert(fa * p <= 0x100_0000 * 0x1_0000_0000_0000_0000) by (nonlinear_arith)
                requires
                    fa < 0x100_0000,
                    p <= 0x1_0000_0000_0000_0000,
            ;
        }
        let big: u128 = fa as u128 * p;
        let ghost unit = pow2(eb as nat);
        assert(wa == big * unit) by (nonlinear_arith)
            requires
                wa == fa * (p * unit),
                big == fa * p,
        ;
        let small: u128 = fb as u128;
        let mant: u128;
        let negative: bool;
        if na == nb {
            mant = big + small;
            negative = na;
            assert(mant * unit == wa + wb) by (nonlinear_arith)
                requires
                    mant == big + small,
                    wa == big * unit,
                    wb == small * unit,
            ;
        } else if big >= small {
            mant = big - small;
            negative = na;
            assert(mant * unit == wa - wb) by (nonlinear_arith)
                requires
                    mant == big - small,
                    wa == big * unit,
                    wb == small * unit,
            ;
        } else {
            mant = small - big;
            negative = nb;
            assert(mant * unit == wb - wa) by (nonlinear_arith)
                requires
                    mant == small - big,
                    wa == big * unit,
                    wb == small * unit,
            ;
        }
        let ghost num = (mant * unit) as nat;
        if mant == 0 {
            return with_sign(na && nb, 0);
        }
        proof {
            assert(num > 0) by (nonlinear_arith)
                requires
                    num == mant * unit,
                    mant > 0,
                    unit > 0,
            ;
            assert(num < (mant + 1) * unit) by (nonlinear_arith)
                requires
                    num == mant * unit,
                    unit > 0,
            ;
            lemma_represents_integer(mant as nat, eb as nat, false, num);
        }
        with_sign(negative, pack(mant, eb as i32, false, Ghost(num), Ghost(1)))
    } else {
        let big: u128 = fa as u128 * 0x100_0000_0000;
        let exp: i32 = ea as i32 - 40;
        let ghost unit = pow2((ea - 40) as nat);
        proof {
            lemma_pow2_pos((ea - 40) as nat);
            lemma_pow2_adds((ea - 40) as nat, 40);
            lemma_pow2_adds(24, eb as nat);
            lemma_pow2_strictly_increases((24 + eb) as nat, (ea - 40) as nat);
            assert(wa == big * unit) by (nonlinear_arith)
                requires
                    wa == fa * (unit * 0x100_0000_0000),
                    big == fa * 0x100_0000_0000,
            ;
            assert(wb < unit) by (nonlinear_arith)
                requires
                    wb == fb * pow2(eb as nat),
                    fb < 0x100_0000,
                    0x100_0000 * pow2(eb as nat) < unit,
                    pow2(eb as nat) > 0,
            ;
            assert(fb > 0 ==> wb > 0) by (nonlinear_arith)
                requires
                    wb == fb * pow2(eb as nat),
                    pow2(eb as nat) > 0,
            ;
            assert(wb < wa) by (nonlinear_arith)
                requires
                    wb < unit,
                    wa == big * unit,
                    big >= 1,
            ;
            assert((big + 1) * unit == big * unit + unit) by (nonlinear_arith);
            assert((big - 1) * unit == big * unit - unit) by (nonlinear_arith);
        }
        if na == nb || fb == 0 {
            proof {
                lemma_represents_integer(big as nat, (ea - 40) as nat, fb != 0, (wa + wb) as nat);
            }
            with_sign(na, pack(big, exp, fb != 0, Ghost((wa + wb) as nat), Ghost(1)))
        } else {
            proof {
                lemma_represents_integer(
                    (big - 1) as nat,
                    (ea - 40) as nat,
                    true,
                    (wa - wb) as nat,
                );
            }
            with_sign(na, pack(big - 1, exp, true, Ghost((wa - wb) as nat), Ghost(1)))
        }
    }
}

} // verus!
