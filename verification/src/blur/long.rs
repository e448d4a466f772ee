//! The blur over long windows, whose running sum is rounded: how far it drifts
//! off the exact one.

use vstd::arithmetic::power2::{lemma2_to64, lemma_pow2_adds, pow2};
use vstd::prelude::*;

use super::sums::{
    lemma_span_before, lemma_span_bound, lemma_span_slides, lemma_span_split, span_sum,
};
use super::{box_mean, edge, effective_radius, first_sum, window_sum};
use crate::color::laws::{law_byte_is_nearest, lemma_byte_within};
use crate::color::mixing::lemma_byte_is_near;
use crate::color::byte_of;
use crate::single::arith::{absolute, difference, opposite, product, quotient, sum};
use crate::single::convert::{one_unit, whole};
use crate::single::edges::{law_opposite_is_negated, lemma_product_within, lemma_sum_within};
use crate::single::laws::{
    law_integers_are_exact, lemma_constants, lemma_quotient_rank, lemma_rank_between,
};
use crate::single::near::{
    law_difference_is_near, law_product_is_near, law_quotient_is_near, law_sum_is_near,
};
use crate::single::nearest::lemma_units_order;
use crate::single::Single;

verus! {

/// `x` is `total` after some roundings, each by 2^-15 of the window's `count`.
spec fn is_drifted(x: Single, total: int, count: int, steps: int) -> bool {
    x.finite() && 0x8000 * absolute(x.units() - total * one_unit()) <= steps * (count * one_unit())
}

/// Numbers of that size.
proof fn lemma_size(x: Single, count: int)
    requires
        0 < count <= 0x20_0000,
        absolute(x.units()) <= 400 * (count * one_unit()),
    ensures
        absolute(x.units()) <= pow2(179),
{
    let w = one_unit();
    lemma2_to64();
    lemma_pow2_adds(30, 149);
    assert(400 * (count * w) <= 0x4000_0000 * w) by (nonlinear_arith)
        requires
            count <= 0x20_0000,
    ;
}

/// Another number is added.
proof fn lemma_drifts(x: Single, y: Single, total: int, v: int, count: int, steps: int)
    requires
        is_drifted(x, total, count, steps),
        is_drifted(y, v, count, 1),
        0 <= total <= 255 * count,
        -255 * count <= v <= 255 * count,
        0 <= total + v <= 255 * count,
        0 < count <= 0x20_0000,
        0 <= steps <= 0x41_0000,
    ensures
        is_drifted(sum(x, y), total + v, count, steps + 2),
{
    let w = one_unit();
    let cw = count * w;
    let u = x.units();
    let z = y.units();
    lemma_constants();
    let tw = total * w;
    let vw = v * w;
    assert(0 <= tw <= 255 * cw && -255 * cw <= vw && vw <= 255 * cw && 0 <= tw + vw <= 255 * cw
        && (total + v) * w == tw + vw && cw > 0) by (nonlinear_arith)
        requires
            tw == total * w,
            vw == v * w,
            cw == count * w,
            0 <= total <= 255 * count,
            -255 * count <= v <= 255 * count,
            0 <= total + v <= 255 * count,
            count > 0,
            w > 0,
    ;
    let sc = steps * cw;
    assert(0 <= sc <= 0x41_0000 * cw && (steps + 2) * cw == sc + 2 * cw && 1 * cw == cw)
        by (nonlinear_arith)
        requires
            sc == steps * cw,
            0 <= steps <= 0x41_0000,
            cw > 0,
    ;
    lemma_size(x, count);
    lemma_size(y, count);
    lemma_sum_within(x, y, 179);
    law_sum_is_near(x, y);
}

/// The first samples.
proof fn lemma_first_drifts(line: Seq<u8>, n: nat, count: int)
    requires
        n <= line.len(),
        n <= count <= 0x20_0000,
        0 < count,
        2 * n <= 0x41_0000,
    ensures
        is_drifted(first_sum(line, n), span_sum(line, 0, n as int) as int, count, 2 * n as int),
    decreases n,
{
    let w = one_unit();
    lemma_constants();
    if n > 0 {
        lemma_first_drifts(line, (n - 1) as nat, count);
        let v = line[n - 1] as nat;
        law_integers_are_exact(v);
        lemma_span_bound(line, 0, n - 1);
        assert(0 <= 1 * (count * w)) by (nonlinear_arith)
            requires
                count > 0,
        ;
        lemma_drifts(
            first_sum(line, (n - 1) as nat),
            whole(v),
            span_sum(line, 0, n - 1) as int,
            v as int,
            count,
            2 * (n - 1),
        );
    } else {
        assert(0 * w == 0 && 0 * (count * w) == 0);
    }
}

/// The running sum.
proof fn lemma_window_drifts(line: Seq<u8>, r: nat, k: int)
    requires
        r < line.len() <= 0x10_0000,
        0 <= k < line.len(),
    ensures
        is_drifted(
            window_sum(line, r, k as nat),
            span_sum(line, k - r, k + r + 1) as int,
            2 * r as int + 1,
            2 * r + 4 + 2 * k,
        ),
    decreases k,
{
    let w = one_unit();
    let count = 2 * r + 1;
    lemma_constants();
    lemma_span_bound(line, k - r, k + r + 1);
    assert(1 * (count * w) == count * w && count * w >= w) by (nonlinear_arith)
        requires
            count >= 1,
    ;
    if k == 0 {
        let a = line[0] as nat;
        let head = (r + 1) as int;
        lemma_first_drifts(line, r + 1, count as int);
        lemma_span_bound(line, 0, head);
        lemma_span_before(line, r);
        lemma_span_split(line, -(r as int), 0, head);
        assert(a * r == r * line[0] && a * r <= 255 * r) by (nonlinear_arith)
            requires
                a == line[0],
                a <= 255,
        ;
        lemma_first_product(a, r);
        lemma_drifts(
            first_sum(line, r + 1),
            product(whole(a), whole(r)),
            span_sum(line, 0, head) as int,
            (a * r) as int,
            count as int,
            2 * (r as int + 1),
        );
    } else {
        let j = k - 1;
        lemma_window_drifts(line, r, j);
        lemma_span_slides(line, j - r, j + r + 1);
        let next = line[edge(k + r, line.len())] as nat;
        let last = line[edge(j - r, line.len())] as nat;
        lemma_step_difference(next, last, count as int);
        lemma_span_bound(line, j - r, j + r + 1);
        lemma_drifts(
            window_sum(line, r, j as nat),
            difference(whole(next), whole(last)),
            span_sum(line, j - r, j + r + 1) as int,
            next - last,
            count as int,
            2 * r + 4 + 2 * j,
        );
    }
}

/// The samples before the first one.
proof fn lemma_first_product(a: nat, r: nat)
    requires
        a <= 255,
        r <= 0x10_0000,
    ensures
        is_drifted(product(whole(a), whole(r)), (a * r) as int, 2 * r as int + 1, 1),
{
    let w = one_unit();
    lemma_constants();
    law_integers_are_exact(a);
    law_integers_are_exact(r);
    lemma2_to64();
    lemma_pow2_adds(8, 149);
    lemma_pow2_adds(20, 149);
    assert(a * w <= 0x100 * w && r * w <= 0x10_0000 * w) by (nonlinear_arith)
        requires
            a <= 255,
            r <= 0x10_0000,
    ;
    lemma_product_within(whole(a), whole(r), 157, 169);
    law_product_is_near(whole(a), whole(r));
    let p = product(whole(a), whole(r)).units();
    assert(0x8000 * absolute(p - (a * r) * w) <= 1 * ((2 * r + 1) * w)) by (nonlinear_arith)
        requires
            0x100_0000 * absolute(p * w - (a * w) * (r * w)) <= (a * w) * (r * w) + 0x80_0000
                * w,
            a <= 255,
            w >= 0x100_0000_0000,
    {
        let e = p - (a * r) * w;
        assert((a * w) * (r * w) == ((a * r) * w) * w);
        assert(p * w - (a * w) * (r * w) == e * w);
        assert(absolute(e * w) == absolute(e) * w);
        assert(((a * r) * w) * w >= 0);
        assert((0x100_0000 * absolute(e)) * w <= ((a * r) * w + 0x80_0000) * w);
        assert(0x100_0000 * absolute(e) <= (a * r) * w + 0x80_0000);
        assert(a * r <= 255 * r);
        assert((a * r) * w <= (255 * r) * w);
    }
}

/// What leaves the window and what comes in.
proof fn lemma_step_difference(next: nat, last: nat, count: int)
    requires
        next <= 255,
        last <= 255,
        count >= 1,
    ensures
        is_drifted(difference(whole(next), whole(last)), next - last, count, 1),
{
    let w = one_unit();
    lemma_constants();
    law_integers_are_exact(next);
    law_integers_are_exact(last);
    law_opposite_is_negated(whole(last));
    lemma2_to64();
    lemma_pow2_adds(8, 149);
    let u = next * w;
    let v = last * w;
    assert(0 <= u <= 255 * w && 0 <= v <= 255 * w && (next - last) * w == u - v && 1 * (count * w)
        >= w) by (nonlinear_arith)
        requires
            u == next * w,
            v == last * w,
            next <= 255,
            last <= 255,
            count >= 1,
    ;
    lemma_sum_within(whole(next), opposite(whole(last)), 157);
    law_difference_is_near(whole(next), whole(last));
}

/// The mean over a window of a line of up to 2^20 samples is near the exact one:
/// off by one half, and by 2^-14 for each sample that was taken in.
pub(crate) proof fn lemma_long_mean(line: Seq<u8>, k: int, radius: nat)
    requires
        0 <= k < line.len() <= 0x10_0000,
    ensures
        ({
            let r = effective_radius(radius, line.len());
            let total = span_sum(line, k - r, k + r + 1);
            let count = 2 * r + 1;
            0x8000 * (2 * absolute(box_mean(line, k, radius) * count - total)) <= (0x8000 + 2 * (2
                * r + 2 * k + 5)) * count
        }),
{
    reveal(box_mean);
    let w = one_unit();
    let r = effective_radius(radius, line.len());
    let total = span_sum(line, k - r, k + r + 1) as int;
    let count = 2 * r + 1;
    let steps = 2 * r + 4 + 2 * k;
    lemma_constants();
    lemma_span_bound(line, k - r, k + r + 1);
    lemma_window_drifts(line, r, k);
    law_integers_are_exact(count);
    law_integers_are_exact(512);
    let x = window_sum(line, r, k as nat);
    let c = whole(count);
    let q = quotient(x, c);
    let u = x.units();
    let cw = count * w;
    let tw = total * w;
    assert(0 <= tw <= 255 * cw && cw > 0 && steps * cw <= 0x41_0000 * cw) by (nonlinear_arith)
        requires
            tw == total * w,
            cw == count * w,
            0 <= total <= 255 * count,
            steps <= 0x41_0000,
            count > 0,
            w > 0,
    ;
    assert(absolute(u) <= 400 * cw);
    lemma_quotient_rank(x, c);
    law_opposite_is_negated(whole(512));
    assert((-(512 * w)) * cw <= u * w && u * w <= (512 * w) * cw) by (nonlinear_arith)
        requires
            absolute(u) <= 400 * cw,
            cw > 0,
            w > 0,
    {
        assert(absolute(u) * w <= (400 * cw) * w);
        assert((400 * cw) * w <= (512 * w) * cw);
        assert(absolute(u * w) == absolute(u) * w);
    }
    lemma_rank_between(q, u * w, cw, opposite(whole(512)), whole(512));
    law_quotient_is_near(x, c);
    let v = q.units();
    lemma_long_quotient(u, v, total, count as int, steps, w as int);
    lemma_byte_within(q);
    law_byte_is_nearest(q);
    if v <= 0 && !q.negative() {
        lemma_units_order(0, q.magnitude());
        let n = (2 * v + w) / (2 * w as int);
        assert(n == 0) by (nonlinear_arith)
            requires
                n == (2 * v + w) / (2 * w as int),
                v == 0,
                w > 0,
        ;
    }
    if v >= 0 && 4 * v <= 1021 * w {
        lemma_byte_is_near(q);
    }
    if 4 * v > 1021 * w {
        let n = (2 * v + w) / (2 * w as int);
        assert(n >= 255) by (nonlinear_arith)
            requires
                n == (2 * v + w) / (2 * w as int),
                4 * v > 1021 * w,
                w > 0,
        ;
    }
    lemma_long_byte(byte_of(q) as int, v, total, count as int, steps, w as int);
}

proof fn lemma_long_quotient(u: int, v: int, total: int, count: int, steps: int, w: int)
    requires
        w >= 0x100_0000_0000,
        count > 0,
        absolute(u) <= 400 * (count * w),
        0x8000 * absolute(u - total * w) <= steps * (count * w),
        0x100_0000 * absolute(v * (count * w) - u * w) <= absolute(u * w) + 0x80_0000 * (count * w),
    ensures
        0x8000 * absolute(v * count - total * w) <= (steps + 1) * (count * w),
{
    let cw = count * w;
    let d = v * count - u;
    assert(v * cw - u * w == d * w) by (nonlinear_arith)
        requires
            cw == count * w,
            d == v * count - u,
    ;
    assert(0x100_0000 * absolute(d) <= 400 * cw + 0x80_0000 * count) by (nonlinear_arith)
        requires
            0x100_0000 * absolute(d * w) <= absolute(u * w) + 0x80_0000 * cw,
            absolute(u) <= 400 * cw,
            cw == count * w,
            w > 0,
    {
        assert(absolute(d * w) == absolute(d) * w && absolute(u * w) == absolute(u) * w);
        assert(absolute(u) * w <= (400 * cw) * w);
        assert((0x100_0000 * absolute(d)) * w <= (400 * cw + 0x80_0000 * count) * w);
    }
    assert(0x80_0000 * count <= cw) by (nonlinear_arith)
        requires
            cw == count * w,
            w >= 0x80_0000,
            count > 0,
    ;
    assert((steps + 1) * cw == steps * cw + cw) by (nonlinear_arith);
}

proof fn lemma_long_byte(m: int, v: int, total: int, count: int, steps: int, w: int)
    requires
        w > 0,
        count > 0,
        0 <= total <= 255 * count,
        0 <= steps,
        0x8000 * absolute(v * count - total * w) <= (steps + 1) * (count * w),
        v <= 0 ==> m == 0,
        0 <= v && 4 * v <= 1021 * w ==> 2 * absolute(m * w - v) <= w,
        4 * v > 1021 * w ==> m == 255,
    ensures
        0x8000 * (2 * absolute(m * count - total)) <= (0x8000 + 2 * (steps + 1)) * count,
{
    let cw = count * w;
    let vc = v * count;
    let tw = total * w;
    let mc = m * count;
    let e = mc - total;
    let sc = (steps + 1) * cw;
    assert(cw > 0 && sc >= 0) by (nonlinear_arith)
        requires
            cw == count * w,
            sc == (steps + 1) * cw,
            count > 0,
            w > 0,
            steps >= 0,
    ;
    assert(e * w == mc * w - tw) by (nonlinear_arith)
        requires
            e == mc - total,
            tw == total * w,
    ;
    assert(0x8000 * (2 * absolute(e * w)) <= 0x8000 * cw + 2 * sc) by {
        if v <= 0 {
            assert(mc * w == 0 && vc <= 0 && tw >= 0) by (nonlinear_arith)
                requires
                    mc == m * count,
                    m == 0,
                    vc == v * count,
                    v <= 0,
                    count > 0,
                    tw == total * w,
                    total >= 0,
                    w > 0,
            ;
        } else if 4 * v <= 1021 * w {
            assert(2 * absolute(mc * w - vc) <= cw) by (nonlinear_arith)
                requires
                    2 * absolute(m * w - v) <= w,
                    mc == m * count,
                    vc == v * count,
                    cw == count * w,
                    count > 0,
            {
                let d = m * w - v;
                assert(mc * w - vc == d * count);
                assert(absolute(d * count) == absolute(d) * count);
                assert((2 * absolute(d)) * count <= w * count);
            }
        } else {
            assert(mc * w == 255 * cw && vc >= 255 * cw && tw <= 255 * cw) by (nonlinear_arith)
                requires
                    mc == m * count,
                    m == 255,
                    vc == v * count,
                    4 * v > 1021 * w,
                    count > 0,
                    cw == count * w,
                    tw == total * w,
                    total <= 255 * count,
                    w > 0,
            {
                assert(v * count >= (255 * w) * count);
                assert(total * w <= (255 * count) * w);
            }
        }
    }
    assert(0x8000 * (2 * absolute(e)) <= (0x8000 + 2 * (steps + 1)) * count) by (nonlinear_arith)
        requires
            0x8000 * (2 * absolute(e * w)) <= 0x8000 * cw + 2 * sc,
            cw == count * w,
            sc == (steps + 1) * cw,
            w > 0,
    {
        assert(absolute(e * w) == absolute(e) * w);
        assert(0x8000 * cw + 2 * sc == ((0x8000 + 2 * (steps + 1)) * count) * w);
        assert((0x8000 * (2 * absolute(e))) * w <= ((0x8000 + 2 * (steps + 1)) * count) * w);
    }
}

} // verus!
