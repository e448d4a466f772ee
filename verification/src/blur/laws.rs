//! What the box blur promises: a mean lies among its samples, so a uniform
//! picture stays, far samples do not count, and no color rises above alpha.

use vstd::arithmetic::div_mod::{lemma_div_is_ordered, lemma_fundamental_div_mod_converse};
use vstd::arithmetic::power2::{lemma2_to64, lemma2_to64_rest, lemma_pow2_adds, pow2};
use vstd::prelude::*;

use super::sums::{
    law_box_mean_is_rounded_mean, lemma_mean_is_byte, lemma_span_bound, rounded_mean, short_window,
    span_sum,
};
use super::{
    blurred_columns, blurred_rows, box_mean, channel_at, column, edge, effective_radius, first_sum,
    lemma_channel_bound, lemma_channel_parts, lemma_parts_of, row, window_sum,
};
use crate::color::laws::{lemma_byte_near, lemma_byte_within};
use crate::single::arith::{difference, product, quotient};
use crate::single::convert::{one_unit, whole};
use crate::single::laws::{
    law_integers_are_exact, law_zero_absorbs, law_zero_is_neutral, lemma_constants,
    lemma_difference_rank, lemma_scaled_integer,
};
use crate::single::nearest::{lemma_nearest_exact, lemma_nearest_monotone, lemma_units_order};
use crate::single::rounding::lemma_nearest_of_zero;
use crate::single::{magnitude_units, Single};

verus! {

/// Every sample that a span counts lies in `lo..=hi`.
proof fn lemma_span_between(line: Seq<u8>, low: int, high: int, lo: u8, hi: u8)
    requires
        low <= high,
        forall|j: int|
            low <= j < high ==> lo <= #[trigger] line[edge(j, line.len())] <= hi,
    ensures
        lo * (high - low) <= span_sum(line, low, high) <= hi * (high - low),
    decreases high - low,
{
    if low < high {
        lemma_span_between(line, low, high - 1, lo, hi);
        let n = high - 1 - low;
        assert(lo * (n + 1) == lo * n + lo && hi * (n + 1) == hi * n + hi) by (nonlinear_arith);
        assert(lo <= line[edge(high - 1, line.len())] <= hi);
    } else {
        assert(lo * 0 == 0 && hi * 0 == 0);
    }
}

/// A total between two multiples of its count has a mean between the two.
proof fn lemma_mean_between(total: nat, count: nat, lo: nat, hi: nat)
    requires
        count > 0,
        lo * count <= total <= hi * count,
    ensures
        lo <= rounded_mean(total, count) <= hi,
{
    let d = 2 * count;
    assert(lo * d == 2 * (lo * count) && hi * d == 2 * (hi * count)) by (nonlinear_arith)
        requires
            d == 2 * count,
    ;
    lemma_fundamental_div_mod_converse(
        (2 * (lo * count) + count) as int,
        d as int,
        lo as int,
        count as int,
    );
    lemma_fundamental_div_mod_converse(
        (2 * (hi * count) + count) as int,
        d as int,
        hi as int,
        count as int,
    );
    lemma_div_is_ordered((2 * (lo * count) + count) as int, (2 * total + count) as int, d as int);
    lemma_div_is_ordered((2 * total + count) as int, (2 * (hi * count) + count) as int, d as int);
}

/// A mean lies between the least and the greatest of the samples within the
/// radius; no other sample counts.
pub proof fn law_mean_lies_among_samples(line: Seq<u8>, k: int, radius: nat, lo: u8, hi: u8)
    requires
        0 <= k < line.len(),
        short_window(radius, line.len()),
        forall|i: int|
            0 <= i < line.len() && k - radius <= i <= k + radius ==> lo <= #[trigger] line[i]
                <= hi,
    ensures
        lo <= box_mean(line, k, radius) <= hi,
{
    law_box_mean_is_rounded_mean(line, k, radius);
    let r = effective_radius(radius, line.len());
    assert forall|j: int| k - r <= j < k + r + 1 implies lo <= #[trigger] line[edge(
        j,
        line.len(),
    )] <= hi by {
        let i = edge(j, line.len());
        assert(0 <= i < line.len() && k - radius <= i <= k + radius);
    }
    lemma_span_between(line, k - r, k + r + 1, lo, hi);
    lemma_mean_between(span_sum(line, k - r, k + r + 1), 2 * r + 1, lo as nat, hi as nat);
}

/// Where no sample of one line exceeds that of another, no mean does.
pub proof fn law_mean_is_monotone(a: Seq<u8>, b: Seq<u8>, k: int, radius: nat)
    requires
        a.len() == b.len(),
        0 <= k < a.len(),
        short_window(radius, a.len()),
        forall|i: int| 0 <= i < a.len() ==> #[trigger] a[i] <= b[i],
    ensures
        box_mean(a, k, radius) <= box_mean(b, k, radius),
{
    law_box_mean_is_rounded_mean(a, k, radius);
    law_box_mean_is_rounded_mean(b, k, radius);
    let r = effective_radius(radius, a.len());
    let count = 2 * r + 1;
    let x = span_sum(a, k - r, k + r + 1);
    let y = span_sum(b, k - r, k + r + 1);
    lemma_span_monotone(a, b, k - r, k + r + 1);
    lemma_span_bound(a, k - r, k + r + 1);
    lemma_span_bound(b, k - r, k + r + 1);
    lemma_mean_is_byte(x, count);
    lemma_mean_is_byte(y, count);
    lemma_div_is_ordered((2 * x + count) as int, (2 * y + count) as int, (2 * count) as int);
}

proof fn lemma_span_monotone(a: Seq<u8>, b: Seq<u8>, low: int, high: int)
    requires
        a.len() == b.len(),
        a.len() > 0,
        forall|i: int| 0 <= i < a.len() ==> #[trigger] a[i] <= b[i],
    ensures
        span_sum(a, low, high) <= span_sum(b, low, high),
    decreases high - low,
{
    if low < high {
        lemma_span_monotone(a, b, low, high - 1);
        let i = edge(high - 1, a.len());
        assert(a[i] <= b[i]);
    }
}

/// A mean depends on the samples within the radius alone.
pub proof fn law_mean_sees_its_window(a: Seq<u8>, b: Seq<u8>, k: int, radius: nat)
    requires
        a.len() == b.len(),
        0 <= k < a.len(),
        short_window(radius, a.len()),
        forall|i: int|
            0 <= i < a.len() && k - radius <= i <= k + radius ==> #[trigger] a[i] == b[i],
    ensures
        box_mean(a, k, radius) == box_mean(b, k, radius),
{
    law_box_mean_is_rounded_mean(a, k, radius);
    law_box_mean_is_rounded_mean(b, k, radius);
    let r = effective_radius(radius, a.len());
    assert forall|j: int| k - r <= j < k + r + 1 implies #[trigger] a[edge(j, a.len())]
        == b[edge(j, a.len())] by {
        let i = edge(j, a.len());
        assert(0 <= i < a.len() && k - radius <= i <= k + radius);
    }
    lemma_span_alike(a, b, k - r, k + r + 1);
}

proof fn lemma_span_alike(a: Seq<u8>, b: Seq<u8>, low: int, high: int)
    requires
        a.len() == b.len(),
        forall|j: int| low <= j < high ==> #[trigger] a[edge(j, a.len())] == b[edge(j, a.len())],
    ensures
        span_sum(a, low, high) == span_sum(b, low, high),
    decreases high - low,
{
    if low < high {
        lemma_span_alike(a, b, low, high - 1);
        assert(a[edge(high - 1, a.len())] == b[edge(high - 1, a.len())]);
    }
}

/// A line of zeros has means of zero, however long it is.
pub proof fn law_zeros_stay_zero(line: Seq<u8>, k: int, radius: nat)
    requires
        0 <= k < line.len(),
        line.len() <= usize::MAX,
        forall|i: int| 0 <= i < line.len() ==> #[trigger] line[i] == 0,
    ensures
        box_mean(line, k, radius) == 0,
{
    reveal(box_mean);
    lemma_constants();
    let r = effective_radius(radius, line.len());
    lemma_zero_window(line, r, k as nat);
    let x = window_sum(line, r, k as nat);
    let q = quotient(x, whole(2 * r + 1));
    lemma_zero_quotient(x, 2 * r + 1);
    lemma_byte_within(q);
    lemma_byte_near(q, 0);
}

/// A zero over a count of one or more is a zero.
proof fn lemma_zero_quotient(x: Single, n: nat)
    requires
        x.zero(),
        n >= 1,
    ensures
        quotient(x, whole(n)).zero(),
{
    let w = one_unit();
    lemma_constants();
    let b = whole(n);
    law_integers_are_exact(1);
    assert(1 * w <= n * w) by (nonlinear_arith)
        requires
            n >= 1,
    ;
    lemma_nearest_monotone(1 * w, 1, n * w, 1);
    lemma_units_order(0, whole(1).magnitude());
    if !b.infinite() {
        lemma_units_order(0, b.magnitude());
        lemma_nearest_of_zero(b.absolute_units());
        assert(0 * w == 0);
    }
}

proof fn lemma_zero_window(line: Seq<u8>, r: nat, k: nat)
    requires
        r < line.len(),
        k < line.len(),
        line.len() <= usize::MAX,
        forall|i: int| 0 <= i < line.len() ==> #[trigger] line[i] == 0,
    ensures
        window_sum(line, r, k).zero(),
    decreases k,
{
    lemma_whole_zero();
    if k == 0 {
        lemma_zero_first(line, r + 1);
        lemma_zero_times_whole(r);
        assert(line[0] == 0);
        law_zero_is_neutral(first_sum(line, r + 1), product(whole(0), whole(r)));
    } else {
        let before = window_sum(line, r, (k - 1) as nat);
        lemma_zero_window(line, r, (k - 1) as nat);
        assert(line[edge((k + r) as int, line.len())] == 0);
        assert(line[edge(k - 1 - r, line.len())] == 0);
        let d = difference(whole(0), whole(0));
        lemma_difference_rank(whole(0), whole(0));
        lemma_nearest_of_zero(1);
        law_zero_is_neutral(before, d);
    }
}

proof fn lemma_whole_zero()
    ensures
        whole(0).zero(),
{
    lemma_nearest_of_zero(1);
    assert(0 * one_unit() == 0);
}

/// A machine integer as a number is finite.
proof fn lemma_whole_is_finite(n: nat)
    requires
        n <= usize::MAX,
    ensures
        whole(n).finite(),
{
    let w = one_unit();
    lemma2_to64();
    lemma2_to64_rest();
    lemma_pow2_adds(64, 149);
    let m = lemma_scaled_integer(1, 213);
    lemma_nearest_exact(m, 1);
    assert(magnitude_units(m) * 1 == pow2(213));
    assert(n * w <= pow2(213)) by (nonlinear_arith)
        requires
            n <= pow2(64),
            pow2(213) == pow2(64) * w,
    ;
    lemma_nearest_monotone(n * w, 1, pow2(213), 1);
}

/// Zero times an integer, however great, is a zero.
proof fn lemma_zero_times_whole(n: nat)
    requires
        n <= usize::MAX,
    ensures
        product(whole(0), whole(n)).zero(),
{
    lemma_whole_zero();
    lemma_whole_is_finite(n);
    law_zero_absorbs(whole(n), whole(0));
}

proof fn lemma_zero_first(line: Seq<u8>, n: nat)
    requires
        n <= line.len(),
        forall|i: int| 0 <= i < line.len() ==> #[trigger] line[i] == 0,
    ensures
        first_sum(line, n).zero(),
    decreases n,
{
    if n > 0 {
        lemma_whole_zero();
        lemma_zero_first(line, (n - 1) as nat);
        assert(line[n - 1] == 0);
        law_zero_is_neutral(first_sum(line, (n - 1) as nat), whole(0));
    }
}

/// Channel `c` of the pixel at `(x, y)`.
pub open spec fn sample(buf: Seq<u8>, width: nat, x: int, y: int, c: int) -> u8 {
    buf[channel_at(width as int, x, y, c)]
}

/// The samples of a buffer blurred along its rows.
pub proof fn lemma_blurred_row_sample(
    src: Seq<u8>,
    width: nat,
    height: nat,
    radius: nat,
    x: int,
    y: int,
    c: int,
)
    requires
        0 <= x < width,
        0 <= y < height,
        0 <= c < 4,
    ensures
        sample(blurred_rows(src, width, height, radius), width, x, y, c) == box_mean(
            row(src, width, y, c),
            x,
            radius,
        ),
        forall|k: int|
            0 <= k < width ==> #[trigger] row(src, width, y, c)[k] == sample(src, width, k, y, c),
{
    lemma_channel_parts(width as int, x, y, c);
    lemma_channel_bound(width as int, height as int, x, y, c);
    assert forall|k: int| 0 <= k < width implies #[trigger] row(src, width, y, c)[k] == sample(
        src,
        width,
        k,
        y,
        c,
    ) by {
        assert(channel_at(width as int, 0, y, c) + k * 4 == channel_at(width as int, k, y, c));
    }
}

/// The samples of a buffer blurred along its columns.
pub proof fn lemma_blurred_column_sample(
    src: Seq<u8>,
    width: nat,
    height: nat,
    radius: nat,
    x: int,
    y: int,
    c: int,
)
    requires
        0 <= x < width,
        0 <= y < height,
        0 <= c < 4,
    ensures
        sample(blurred_columns(src, width, height, radius), width, x, y, c) == box_mean(
            column(src, width, height, x, c),
            y,
            radius,
        ),
        forall|k: int|
            0 <= k < height ==> #[trigger] column(src, width, height, x, c)[k] == sample(
                src,
                width,
                x,
                k,
                c,
            ),
{
    lemma_channel_parts(width as int, x, y, c);
    lemma_channel_bound(width as int, height as int, x, y, c);
    assert forall|k: int| 0 <= k < height implies #[trigger] column(src, width, height, x, c)[k]
        == sample(src, width, x, k, c) by {
        assert(channel_at(width as int, x, 0, c) + k * (width * 4) == channel_at(
            width as int,
            x,
            k,
            c,
        )) by (nonlinear_arith);
    }
}

/// The picture with rows and columns exchanged.
pub open spec fn transposed(src: Seq<u8>, width: nat, height: nat) -> Seq<u8> {
    Seq::new(
        width * height * 4,
        |i: int|
            sample(src, width, i / 4 / (height as int), i / 4 % (height as int), i % 4),
    )
}

/// The samples of a picture with rows and columns exchanged.
pub proof fn lemma_transposed_sample(
    src: Seq<u8>,
    width: nat,
    height: nat,
    x: int,
    y: int,
    c: int,
)
    requires
        0 <= x < width,
        0 <= y < height,
        0 <= c < 4,
    ensures
        sample(transposed(src, width, height), height, y, x, c) == sample(src, width, x, y, c),
{
    lemma_channel_parts(height as int, y, x, c);
    lemma_channel_bound(height as int, width as int, y, x, c);
    assert(width * height == height * width) by (nonlinear_arith);
}

/// Blurring the columns is blurring the rows of the picture with rows and
/// columns exchanged.
pub proof fn law_columns_mirror_rows(src: Seq<u8>, width: nat, height: nat, radius: nat)
    requires
        width > 0,
        height > 0,
        src.len() >= width * height * 4,
    ensures
        blurred_columns(src, width, height, radius) == transposed(
            blurred_rows(transposed(src, width, height), height, width, radius),
            height,
            width,
        ),
{
    let turned = transposed(src, width, height);
    let blurred = blurred_rows(turned, height, width, radius);
    let left = blurred_columns(src, width, height, radius);
    let right = transposed(blurred, height, width);
    assert(width * height == height * width) by (nonlinear_arith);
    assert forall|i: int| 0 <= i < width * height * 4 implies left[i] == right[i] by {
        lemma_parts_of(width as int, height as int, i);
        let x = i / 4 % (width as int);
        let y = i / 4 / (width as int);
        let c = i % 4;
        lemma_blurred_column_sample(src, width, height, radius, x, y, c);
        lemma_blurred_row_sample(turned, height, width, radius, y, x, c);
        lemma_transposed_sample(blurred, height, width, y, x, c);
        let line = column(src, width, height, x, c);
        let other = row(turned, height, x, c);
        assert forall|k: int| 0 <= k < height implies line[k] == other[k] by {
            lemma_transposed_sample(src, width, height, x, k, c);
            assert(line[k] == sample(src, width, x, k, c));
            assert(other[k] == sample(turned, height, k, x, c));
        }
        assert(line =~= other);
    }
    assert(left =~= right);
}

/// Channel `c` of pixel `p`.
pub open spec fn channel(buf: Seq<u8>, p: int, c: int) -> u8 {
    buf[4 * p + c]
}

/// No color of a pixel exceeds its alpha.
pub open spec fn alpha_bounds_colors(buf: Seq<u8>) -> bool {
    forall|p: int, c: int|
        0 <= p < buf.len() / 4 && 0 <= c < 4 ==> #[trigger] channel(buf, p, c) <= channel(
            buf,
            p,
            3,
        )
}

/// Where no color exceeds its alpha, none does after a blur along the rows.
pub proof fn law_row_blur_keeps_colors_below_alpha(
    src: Seq<u8>,
    width: nat,
    height: nat,
    radius: nat,
)
    requires
        width > 0,
        short_window(radius, width),
        src.len() >= width * height * 4,
        alpha_bounds_colors(src),
    ensures
        alpha_bounds_colors(blurred_rows(src, width, height, radius)),
{
    let out = blurred_rows(src, width, height, radius);
    assert forall|p: int, c: int|
        0 <= p < out.len() / 4 && 0 <= c < 4 implies #[trigger] channel(out, p, c) <= channel(
        out,
        p,
        3,
    ) by {
        let i = 4 * p + c;
        lemma_parts_of(width as int, height as int, i);
        let x = i / 4 % (width as int);
        let y = i / 4 / (width as int);
        lemma_blurred_row_sample(src, width, height, radius, x, y, c);
        lemma_blurred_row_sample(src, width, height, radius, x, y, 3);
        let a = row(src, width, y, c);
        let b = row(src, width, y, 3);
        assert forall|k: int| 0 <= k < a.len() implies #[trigger] a[k] <= b[k] by {
            lemma_pixel_order(src, width, height, k, y, c);
            assert(b[k] == sample(src, width, k, y, 3));
        }
        law_mean_is_monotone(a, b, x, radius);
    }
}

/// Where no color exceeds its alpha, none does after a blur along the columns.
pub proof fn law_column_blur_keeps_colors_below_alpha(
    src: Seq<u8>,
    width: nat,
    height: nat,
    radius: nat,
)
    requires
        width > 0,
        short_window(radius, height),
        src.len() >= width * height * 4,
        alpha_bounds_colors(src),
    ensures
        alpha_bounds_colors(blurred_columns(src, width, height, radius)),
{
    let out = blurred_columns(src, width, height, radius);
    assert forall|p: int, c: int|
        0 <= p < out.len() / 4 && 0 <= c < 4 implies #[trigger] channel(out, p, c) <= channel(
        out,
        p,
        3,
    ) by {
        let i = 4 * p + c;
        lemma_parts_of(width as int, height as int, i);
        let x = i / 4 % (width as int);
        let y = i / 4 / (width as int);
        lemma_blurred_column_sample(src, width, height, radius, x, y, c);
        lemma_blurred_column_sample(src, width, height, radius, x, y, 3);
        let a = column(src, width, height, x, c);
        let b = column(src, width, height, x, 3);
        assert forall|k: int| 0 <= k < a.len() implies #[trigger] a[k] <= b[k] by {
            lemma_pixel_order(src, width, height, x, k, c);
            assert(b[k] == sample(src, width, x, k, 3));
        }
        law_mean_is_monotone(a, b, y, radius);
    }
}

proof fn lemma_pixel_order(src: Seq<u8>, width: nat, height: nat, x: int, y: int, c: int)
    requires
        0 <= x < width,
        0 <= y < height,
        0 <= c < 4,
        src.len() >= width * height * 4,
        alpha_bounds_colors(src),
    ensures
        sample(src, width, x, y, c) <= sample(src, width, x, y, 3),
{
    lemma_channel_parts(width as int, x, y, c);
    lemma_channel_bound(width as int, height as int, x, y, c);
    let p = y * width + x;
    assert(channel(src, p, c) <= channel(src, p, 3));
}

} // verus!
