//! The running sum of the box blur: for windows of up to 65535 samples it is
//! the exact sum, and the mean is the exact one rounded.

use vstd::arithmetic::div_mod::lemma_fundamental_div_mod;
use vstd::arithmetic::power2::{lemma2_to64, lemma_pow2_adds, lemma_pow2_pos, pow2};
use vstd::prelude::*;

use super::{box_mean, edge, effective_radius, first_sum, window_sum};
use crate::color::byte_of;
use crate::color::laws::{lemma_byte_near, lemma_byte_within};
use crate::single::arith::{absolute, difference, opposite, product, quotient, sum};
use crate::single::convert::{one_unit, whole};
use crate::single::laws::{
    law_integers_are_exact, law_rounding_is_exact, lemma_constants, lemma_difference_rank,
    lemma_product_rank, lemma_quotient_rank, lemma_rank_between, lemma_rank_error_within,
    lemma_rank_is_value, lemma_sum_rank,
};
use crate::single::nearest::lemma_units_order;
use crate::single::{Single, BYTE_MAX, ZERO};

verus! {

/// The sum of the samples from `low` up to, not including, `high`.
pub open spec fn span_sum(line: Seq<u8>, low: int, high: int) -> nat
    decreases high - low,
{
    if low >= high {
        0
    } else {
        span_sum(line, low, high - 1) + line[edge(high - 1, line.len())] as nat
    }
}

/// `total / count` rounded to the nearest integer.
pub open spec fn rounded_mean(total: nat, count: nat) -> nat {
    (2 * total + count) / (2 * count)
}

/// The window around a sample of a line of `n` holds at most 65535 samples.
pub open spec fn short_window(radius: nat, n: nat) -> bool {
    effective_radius(radius, n) <= 32767
}

pub(crate) proof fn lemma_span_bound(line: Seq<u8>, low: int, high: int)
    requires
        low <= high,
    ensures
        span_sum(line, low, high) <= 255 * (high - low),
    decreases high - low,
{
    if low < high {
        lemma_span_bound(line, low, high - 1);
    }
}

/// Moving the window by one drops its first sample and takes in the next.
pub(crate) proof fn lemma_span_slides(line: Seq<u8>, low: int, high: int)
    requires
        low < high,
    ensures
        span_sum(line, low + 1, high + 1) + line[edge(low, line.len())] == span_sum(
            line,
            low,
            high,
        ) + line[edge(high, line.len())],
    decreases high - low,
{
    if low + 1 < high {
        lemma_span_slides(line, low, high - 1);
    } else {
        assert(span_sum(line, low + 1, high + 1) == span_sum(line, low + 1, high) + line[edge(
            high,
            line.len(),
        )]);
        assert(span_sum(line, low + 1, high) == 0);
        assert(span_sum(line, low, high - 1) == 0);
    }
}

/// The samples before the first one all count as the first.
pub(crate) proof fn lemma_span_before(line: Seq<u8>, r: nat)
    requires
        line.len() > 0,
    ensures
        span_sum(line, -(r as int), 0) == r * line[0],
    decreases r,
{
    if r > 0 {
        lemma_span_before(line, (r - 1) as nat);
        lemma_span_first(line, -(r as int), 0);
        assert(r * line[0] == (r - 1) * line[0] + line[0]) by (nonlinear_arith);
    } else {
        assert(0 * line[0] == 0) by (nonlinear_arith);
    }
}

proof fn lemma_span_first(line: Seq<u8>, low: int, high: int)
    requires
        low < high,
    ensures
        span_sum(line, low, high) == line[edge(low, line.len())] + span_sum(line, low + 1, high),
    decreases high - low,
{
    if low + 1 < high {
        lemma_span_first(line, low, high - 1);
    } else {
        assert(span_sum(line, low, high - 1) == 0);
        assert(span_sum(line, low + 1, high) == 0);
    }
}

pub(crate) proof fn lemma_mean_is_byte(total: nat, count: nat)
    requires
        count > 0,
        total <= 255 * count,
    ensures
        rounded_mean(total, count) <= 255,
{
    let q = rounded_mean(total, count);
    lemma_fundamental_div_mod((2 * total + count) as int, (2 * count) as int);
    assert(q <= 255) by (nonlinear_arith)
        requires
            2 * total + count == (2 * count) * q + (2 * total + count) as int % (2 * count) as int,
            0 <= (2 * total + count) as int % (2 * count) as int,
            total <= 255 * count,
            count > 0,
    {
        if q >= 256 {
            assert((2 * count) * q >= (2 * count) * 256);
        }
    }
}

pub(crate) proof fn lemma_span_split(line: Seq<u8>, low: int, mid: int, high: int)
    requires
        low <= mid <= high,
    ensures
        span_sum(line, low, high) == span_sum(line, low, mid) + span_sum(line, mid, high),
    decreases high - mid,
{
    if mid < high {
        lemma_span_split(line, low, mid, high - 1);
    }
}

/// A number that is not negative and has the value of an integer is that
/// integer.
proof fn lemma_is_whole(x: Single, n: nat)
    requires
        n <= 0x100_0000,
        !x.negative(),
        x.rank() == whole(n).rank(),
    ensures
        x == whole(n),
{
    law_integers_are_exact(n);
}

/// Integers whose sum has at most twenty-four digits add up exactly.
proof fn lemma_whole_sum(a: nat, b: nat)
    requires
        a + b <= 0x100_0000,
    ensures
        sum(whole(a), whole(b)) == whole(a + b),
{
    let w = one_unit();
    law_integers_are_exact(a);
    law_integers_are_exact(b);
    law_integers_are_exact(a + b);
    lemma_sum_rank(whole(a), whole(b));
    law_rounding_is_exact(whole(a + b), 1);
    assert((a + b) * w == a * w + b * w) by (nonlinear_arith);
    assert(a * w >= 0 && b * w >= 0) by (nonlinear_arith);
    assert(whole(a + b).units() * 1 == whole(a + b).units());
    lemma_is_whole(sum(whole(a), whole(b)), a + b);
}

/// Integers whose product has at most twenty-four digits multiply exactly.
proof fn lemma_whole_product(a: nat, b: nat)
    requires
        a <= 0x100_0000,
        b <= 0x100_0000,
        a * b <= 0x100_0000,
    ensures
        product(whole(a), whole(b)) == whole(a * b),
{
    let w = one_unit();
    lemma_constants();
    law_integers_are_exact(a);
    law_integers_are_exact(b);
    law_integers_are_exact(a * b);
    lemma_product_rank(whole(a), whole(b));
    law_rounding_is_exact(whole(a * b), w);
    assert((a * w) * (b * w) == ((a * b) * w) * w) by (nonlinear_arith);
    lemma_is_whole(product(whole(a), whole(b)), a * b);
}

/// One step of a running sum of integers is exact.
proof fn lemma_whole_step(total: nat, next: nat, last: nat)
    requires
        next <= 255,
        last <= 255,
        last <= total + next,
        total <= 0x100_0000,
        total + next - last <= 0x100_0000,
    ensures
        sum(whole(total), difference(whole(next), whole(last))) == whole(
            (total + next - last) as nat,
        ),
{
    let w = one_unit();
    lemma_constants();
    let n = (total + next - last) as nat;
    law_integers_are_exact(total);
    law_integers_are_exact(next);
    law_integers_are_exact(last);
    law_integers_are_exact(n);
    let d = difference(whole(next), whole(last));
    lemma_difference_rank(whole(next), whole(last));
    let m = absolute(next - last);
    law_integers_are_exact(m);
    let exact = if next >= last {
        whole(m)
    } else {
        opposite(whole(m))
    };
    assert(exact.units() == next * w - last * w) by (nonlinear_arith)
        requires
            next >= last ==> exact.units() == (next - last) * w,
            next < last ==> exact.units() == -((last - next) * w),
    ;
    law_rounding_is_exact(exact, 1);
    assert(exact.units() * 1 == exact.units());
    lemma_rank_is_value(d, exact);
    lemma_sum_rank(whole(total), d);
    law_rounding_is_exact(whole(n), 1);
    assert(whole(n).units() * 1 == whole(n).units());
    assert(n * w == total * w + next * w - last * w) by (nonlinear_arith)
        requires
            n == total + next - last,
    ;
    assert(n * w >= 0) by (nonlinear_arith);
    lemma_is_whole(sum(whole(total), d), n);
}

/// The first samples of a line add up exactly.
proof fn lemma_first_sum(line: Seq<u8>, n: nat)
    requires
        n <= line.len(),
        n <= 65535,
    ensures
        first_sum(line, n) == whole(span_sum(line, 0, n as int)),
    decreases n,
{
    if n == 0 {
        law_integers_are_exact(0);
        assert(0 * one_unit() == 0);
        lemma_constants();
        lemma_units_order(whole(0).magnitude(), 0);
    } else {
        lemma_first_sum(line, (n - 1) as nat);
        lemma_span_bound(line, 0, n as int);
        lemma_whole_sum(span_sum(line, 0, n - 1), line[n - 1] as nat);
    }
}

/// The running sum is the exact sum of the samples in the window, where the
/// window holds at most 65535 of them.
pub proof fn law_running_sum_is_exact(line: Seq<u8>, r: nat, k: int)
    requires
        r < line.len(),
        0 <= k < line.len(),
        r <= 32767,
    ensures
        window_sum(line, r, k as nat) == whole(span_sum(line, k - r, k + r + 1)),
        span_sum(line, k - r, k + r + 1) <= 255 * (2 * r + 1),
    decreases k,
{
    lemma_span_bound(line, k - r, k + r + 1);
    if k == 0 {
        let a = line[0] as nat;
        let head = (r + 1) as int;
        lemma_first_sum(line, r + 1);
        lemma_span_bound(line, 0, head);
        lemma_span_before(line, r);
        lemma_span_split(line, -(r as int), 0, head);
        assert(a * r == r * line[0] && a * r <= 255 * r) by (nonlinear_arith)
            requires
                a == line[0],
                a <= 255,
        ;
        lemma_whole_product(a, r);
        lemma_whole_sum(span_sum(line, 0, head), a * r);
    } else {
        let j = k - 1;
        law_running_sum_is_exact(line, r, j);
        lemma_span_slides(line, j - r, j + r + 1);
        lemma_whole_step(
            span_sum(line, j - r, j + r + 1),
            line[edge(k + r, line.len())] as nat,
            line[edge(j - r, line.len())] as nat,
        );
    }
}

/// A blurred sample is the exact mean of its window, rounded, where the window
/// holds at most 65535 samples.
pub proof fn law_box_mean_is_rounded_mean(line: Seq<u8>, k: int, radius: nat)
    requires
        0 <= k < line.len(),
        short_window(radius, line.len()),
    ensures
        ({
            let r = effective_radius(radius, line.len());
            box_mean(line, k, radius) == rounded_mean(
                span_sum(line, k - r, k + r + 1),
                2 * r + 1,
            )
        }),
{
    reveal(box_mean);
    let r = effective_radius(radius, line.len());
    law_running_sum_is_exact(line, r, k);
    let total = span_sum(line, k - r, k + r + 1);
    law_mean_is_rounded_division(total, 2 * r + 1);
    lemma_byte_within(quotient(whole(total), whole(2 * r + 1)));
}

/// The mean of an odd number of bytes, up to 65535 of them, is what dividing
/// in binary32 and rounding gives.
pub proof fn law_mean_is_rounded_division(total: nat, count: nat)
    requires
        count % 2 == 1,
        count <= 65535,
        total <= 255 * count,
    ensures
        byte_of(quotient(whole(total), whole(count))) == rounded_mean(total, count),
{
    let w = one_unit();
    let zero = Single { bits: ZERO };
    let top = Single { bits: BYTE_MAX };
    lemma_constants();
    law_integers_are_exact(total);
    law_integers_are_exact(count);
    let a = whole(total);
    let b = whole(count);
    assert(count * w > 0) by (nonlinear_arith)
        requires
            count > 0,
            w > 0,
    ;
    lemma_quotient_rank(a, b);
    let x = quotient(a, b);
    let den = (count * w) as nat;
    let num: int = ((total * w) * w) as int;
    let bound = 255 * w;
    assert(0 * den <= num && num <= bound * den) by (nonlinear_arith)
        requires
            num == (total * w) * w,
            den == count * w,
            bound == 255 * w,
            total <= 255 * count,
    {
        assert((total * w) * w == total * (w * w));
        assert(total * (w * w) <= (255 * count) * (w * w));
        assert((255 * count) * (w * w) == (255 * w) * (count * w));
    }
    lemma_rank_between(x, num, den, zero, top);
    // The quotient is below 256, so that its last digit weighs 2^-16.
    lemma2_to64();
    lemma_pow2_adds(149, 8);
    lemma_pow2_adds(133, 16);
    lemma_pow2_pos(133);
    let last = pow2(133);
    assert(num < den * pow2(157)) by (nonlinear_arith)
        requires
            num <= bound * den,
            bound == 255 * w,
            pow2(157) == w * 256,
            den > 0,
            w > 0,
    ;
    lemma_rank_error_within(x, num, den, 133);
    let u = x.units();
    assert(u * den - num == (u * count - total * w) * w) by (nonlinear_arith)
        requires
            num == (total * w) * w,
            den == count * w,
    ;
    let off = absolute(u * count - total * w);
    assert(absolute(u * den - num) == off * w) by (nonlinear_arith)
        requires
            u * den - num == (u * count - total * w) * w,
            off == absolute(u * count - total * w),
            w > 0,
    {
        let z = u * count - total * w;
        if z < 0 {
            assert(z * w < 0);
            assert((-z) * w == -(z * w));
        } else {
            assert(z * w >= 0);
        }
    }
    assert(2 * off <= count * last) by (nonlinear_arith)
        requires
            2 * (off * w) <= den * last,
            den == count * w,
            w > 0,
    {
        assert(den * last == (count * last) * w);
        assert((2 * off) * w <= (count * last) * w);
    }
    assert(2 * off < w) by (nonlinear_arith)
        requires
            2 * off <= count * last,
            count <= 65535,
            w == last * 65536,
            last > 0,
    {
        assert(count * last <= 65535 * last);
    }
    // The exact mean is at least half of a part in count off any tie.
    lemma_fundamental_div_mod((2 * total + count) as int, (2 * count) as int);
    let n = rounded_mean(total, count);
    let rest = (2 * total + count) % (2 * count);
    assert(2 * total + count == (2 * count) * n + rest);
    lemma_mean_is_byte(total, count);
    assert((2 * count) * n == 2 * (count * n)) by (nonlinear_arith);
    assert(rest % 2 == 1);
    let d = 2 * total - 2 * (count * n);
    assert(d == rest - count);
    assert(d % 2 == 0);
    assert(absolute(d) <= count - 1);
    let z = u * count - total * w;
    let g = u - n * w;
    assert((2 * count) * g == 2 * z + d * w) by (nonlinear_arith)
        requires
            z == u * count - total * w,
            g == u - n * w,
            d == 2 * total - 2 * (count * n),
    ;
    assert(d * w <= (count - 1) * w && d * w >= -((count - 1) * w)) by (nonlinear_arith)
        requires
            -(count - 1) <= d <= count - 1,
            w > 0,
    ;
    assert((count - 1) * w == count * w - w) by (nonlinear_arith);
    assert(-w < 2 * g < w) by (nonlinear_arith)
        requires
            -(count * w) < (2 * count) * g < count * w,
            count > 0,
    {
        assert((2 * count) * g == count * (2 * g));
    }
    lemma_byte_near(x, n);
}

} // verus!
