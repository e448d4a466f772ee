//! What the square root promises.

use vstd::arithmetic::power2::{
    lemma2_to64, lemma2_to64_rest, lemma_pow2_adds, lemma_pow2_pos, lemma_pow2_strictly_increases,
    lemma_pow2_unfold, pow2,
};
use vstd::prelude::*;

use super::{floor_root, is_floor_root, lemma_floor_root_exists, square_root};
use crate::single::convert::one_unit;
use crate::single::laws::{
    law_rounding_is_nearest, lemma_constants, lemma_rank_between, lemma_rank_error,
};
use crate::single::nearest::{lemma_digits_of, lemma_units_of_digits, lemma_units_order};
use crate::single::{magnitude_units, Single, INFINITE, ONE, ZERO};

verus! {

/// The root of a number in `0..=1` lies there too.
pub proof fn law_root_of_part_is_part(x: Single)
    requires
        x.finite(),
        0 <= x.units() <= one_unit(),
    ensures
        square_root(x).finite(),
        0 <= square_root(x).units() <= one_unit(),
{
    let w = one_unit();
    lemma_constants();
    lemma_units_order(0, x.magnitude());
    if !x.zero() {
        let u = x.absolute_units();
        let n = u * w;
        lemma_floor_root_exists(n);
        let r = floor_root(n);
        assert(r <= w) by (nonlinear_arith)
            requires
                r * r <= n,
                n == u * w,
                u <= w,
        {
            if r > w {
                assert(r * r > w * w);
                assert(u * w <= w * w);
            }
        }
        let twice = if r * r == n {
            2 * r
        } else {
            2 * r + 1
        };
        assert(twice <= 2 * w) by {
            if r == w && r * r != n {
                assert(n <= w * w) by (nonlinear_arith)
                    requires
                        n == u * w,
                        u <= w,
                ;
            }
        }
        lemma_rank_between(
            square_root(x),
            twice as int,
            2,
            Single { bits: ZERO },
            Single { bits: ONE },
        );
    }
}

/// Numbers with more than twenty-four digits of units are even.
proof fn lemma_great_is_even(m: nat)
    requires
        magnitude_units(m) >= 0x100_0000,
    ensures
        magnitude_units(m) % 2 == 0,
{
    let (e, f) = lemma_digits_of(m);
    lemma2_to64();
    if e == 0 {
        assert(f * 1 == f);
    } else {
        lemma_pow2_unfold(e);
        let t = pow2((e - 1) as nat);
        assert(f * (2 * t) == 2 * (f * t)) by (nonlinear_arith);
    }
}

/// No binary32 number is nearer to the square root of `x` than the one that is
/// returned: the middle between it and a greater one is not below the root,
/// and that between it and a smaller one not above. Both sides are squared.
pub proof fn law_root_is_nearest(x: Single, m: nat)
    requires
        x.finite(),
        !x.negative(),
        !x.zero(),
    ensures
        square_root(x).finite(),
        !square_root(x).negative(),
        ({
            let exact = x.units() * one_unit();
            let root = square_root(x).units();
            let other = magnitude_units(m) as int;
            &&& other > root ==> 4 * exact <= (root + other) * (root + other)
            &&& other < root ==> (root + other) * (root + other) <= 4 * exact
        }),
{
    let w = one_unit();
    let u = x.absolute_units();
    let n = u * w;
    lemma_constants();
    lemma_units_order(0, x.magnitude());
    lemma_floor_root_exists(n);
    let r = floor_root(n);
    let exact = r * r == n;
    let twice = if exact {
        2 * r
    } else {
        2 * r + 1
    };
    let s = square_root(x);
    lemma_root_range(x.magnitude(), r);
    lemma_rank_between(
        s,
        twice as int,
        2,
        Single { bits: 0x1A00_0000 },
        Single { bits: 0x6000_0000 },
    );
    lemma_rank_error(s, twice as int, 2);
    law_rounding_is_nearest(twice, 2, m);
    let root = s.units();
    let v = magnitude_units(m) as int;
    lemma_great_is_even(s.magnitude());
    if v >= 0x100_0000 {
        lemma_great_is_even(m);
    }
    let b = root + v;
    if v > root {
        assert(twice <= b);
        assert(2 * r + (if exact {
            0int
        } else {
            2
        }) <= b);
        assert(4 * n <= b * b) by (nonlinear_arith)
            requires
                n < (r + 1) * (r + 1),
                2 * r + 2 <= b || (r * r == n && 2 * r <= b),
        {
            if r * r == n && 2 * r <= b {
                assert((2 * r) * (2 * r) <= b * b);
            } else {
                assert((2 * r + 2) * (2 * r + 2) <= b * b);
            }
        }
    } else if v < root {
        assert(b <= twice);
        assert(b <= 2 * r) by {
            if !exact {
                assert(2 * root <= 2 * r + 1 + (2 * r + 1) / 0x80_0000 + 2);
            }
        }
        assert(b * b <= 4 * n) by (nonlinear_arith)
            requires
                r * r <= n,
                0 <= b <= 2 * r,
        {
            assert(b * b <= (2 * r) * (2 * r));
        }
    }
}

/// The root of a positive number has at least seventy-five digits of units,
/// and far fewer than the greatest number.
proof fn lemma_root_range(m: nat, r: nat)
    requires
        0 < m < INFINITE,
        is_floor_root(r, magnitude_units(m) * one_unit()),
    ensures
        (Single { bits: 0x1A00_0000 }).finite(),
        (Single { bits: 0x6000_0000 }).finite(),
        (Single { bits: 0x1A00_0000 }).units() * 2 <= 2 * r,
        2 * r + 1 <= (Single { bits: 0x6000_0000 }).units() * 2,
        (Single { bits: 0x1A00_0000 }).units() >= 0x1000_0000_0000,
{
    let u = magnitude_units(m);
    let w = one_unit();
    lemma2_to64();
    lemma2_to64_rest();
    lemma_units_order(0, m);
    let (e, f) = lemma_digits_of(m);
    assert(e <= 253);
    lemma_units_of_digits(51, 0x80_0000);
    lemma_pow2_adds(51, 23);
    let low = pow2(74);
    lemma_pow2_adds(44, 30);
    lemma_pow2_pos(30);
    assert(low >= pow2(44)) by (nonlinear_arith)
        requires
            low == pow2(44) * pow2(30),
            pow2(30) >= 1,
    ;
    lemma_pow2_adds(74, 74);
    lemma_pow2_strictly_increases(148, 149);
    assert(r >= low) by (nonlinear_arith)
        requires
            u * w < (r + 1) * (r + 1),
            u >= 1,
            w > low * low,
    {
        assert(u * w >= w);
        if r + 1 <= low {
            assert((r + 1) * (r + 1) <= low * low);
        }
    }
    lemma_units_of_digits(191, 0x80_0000);
    lemma_pow2_adds(191, 23);
    let high = pow2(213);
    lemma_pow2_unfold(214);
    lemma_pow2_adds(213, 213);
    lemma_pow2_adds(24, 253);
    lemma_pow2_adds(277, 149);
    lemma_pow2_pos(e);
    lemma_pow2_pos(253);
    lemma_pow2_pos(213);
    if e < 253 {
        lemma_pow2_strictly_increases(e, 253);
    }
    let t = pow2(e);
    let top = pow2(253);
    assert(u < pow2(277)) by (nonlinear_arith)
        requires
            u == f * t,
            f < 0x100_0000,
            0 < t <= top,
            pow2(277) == 0x100_0000 * top,
    {
        assert(f * t < 0x100_0000 * t);
        assert(0x100_0000 * t <= 0x100_0000 * top);
    }
    assert(r < high) by (nonlinear_arith)
        requires
            r * r <= u * w,
            u < pow2(277),
            pow2(277) * w == high * high,
            w > 0,
    {
        assert(u * w < pow2(277) * w);
        if r >= high {
            assert(r * r >= high * high);
        }
    }
}

} // verus!
