//! What a blur writes, from the samples alone: the mean over a window in which
//! the ends of a line count again beyond it, rounded to the nearest integer.

use vstd::arithmetic::div_mod::lemma_fundamental_div_mod;
use vstd::prelude::*;

use super::laws::{lemma_blurred_column_sample, lemma_blurred_row_sample, sample};
use super::long::lemma_long_mean;
use super::sums::{law_box_mean_is_rounded_mean, lemma_mean_is_byte, lemma_span_bound, span_sum};
use super::{blurred_columns, blurred_rows, box_mean, column, edge, overlaid, row};
use crate::single::arith::absolute;

verus! {

/// The values of `f` at `low` and on, up to `high`, added up; below zero the
/// value at zero counts, from `n` on that at `n - 1`.
pub open spec fn repeated_total(f: spec_fn(int) -> int, n: int, low: int, high: int) -> int
    decreases high - low,
{
    if low >= high {
        0
    } else {
        let i = high - 1;
        repeated_total(f, n, low, i) + f(
            if i < 0 {
                0
            } else if i < n {
                i
            } else {
                n - 1
            },
        )
    }
}

/// How far a window reaches to either side along `n` values.
pub open spec fn window_reach(radius: int, n: int) -> int {
    if radius < n - 1 {
        radius
    } else {
        n - 1
    }
}

/// `m` is the integer next to the mean of `count` values that add up to `total`.
/// For an odd count there is one such integer.
pub open spec fn is_mean(m: int, total: int, count: int) -> bool {
    2 * absolute(m * count - total) <= count
}

/// `m` is the rounded mean of the values of `f` in the window around `k`: exactly
/// where the window holds at most 65535 values, nearly in lines of up to 2^20.
pub open spec fn is_window_mean(
    m: int,
    f: spec_fn(int) -> int,
    n: int,
    k: int,
    radius: int,
) -> bool {
    let r = window_reach(radius, n);
    let total = repeated_total(f, n, k - r, k + r + 1);
    &&& r <= 32767 ==> is_mean(m, total, 2 * r + 1)
    &&& n <= 0x10_0000 ==> is_nearly_mean(m, total, 2 * r + 1, k + r)
}

/// `m` is `total / count` but for one half, and for 2^-14 for each of `taken`
/// values and for three more.
pub open spec fn is_nearly_mean(m: int, total: int, count: int, taken: int) -> bool {
    0x8000 * (2 * absolute(m * count - total)) <= (0x8000 + 2 * (2 * taken + 5)) * count
}

proof fn lemma_repeated_is_span(line: Seq<u8>, f: spec_fn(int) -> int, low: int, high: int)
    requires
        line.len() > 0,
        forall|i: int| 0 <= i < line.len() ==> #[trigger] f(i) == line[i],
    ensures
        repeated_total(f, line.len() as int, low, high) == span_sum(line, low, high),
    decreases high - low,
{
    if low < high {
        lemma_repeated_is_span(line, f, low, high - 1);
        let i = edge(high - 1, line.len());
        assert(f(i) == line[i]);
    }
}

/// A blurred sample is the rounded mean of its window. The samples are those of
/// `f`.
pub proof fn law_blurred_sample_is_window_mean(
    line: Seq<u8>,
    f: spec_fn(int) -> int,
    k: int,
    radius: nat,
)
    requires
        0 <= k < line.len(),
        forall|i: int| 0 <= i < line.len() ==> #[trigger] f(i) == line[i],
    ensures
        is_window_mean(box_mean(line, k, radius) as int, f, line.len() as int, k, radius as int),
{
    let n = line.len() as int;
    let r = window_reach(radius as int, n);
    lemma_repeated_is_span(line, f, k - r, k + r + 1);
    let total = span_sum(line, k - r, k + r + 1);
    let count = 2 * r + 1;
    let m = box_mean(line, k, radius) as int;
    if r <= 32767 {
        law_box_mean_is_rounded_mean(line, k, radius);
        lemma_span_bound(line, k - r, k + r + 1);
        lemma_mean_is_byte(total, count as nat);
        let top = 2 * total + count;
        let den = 2 * count;
        lemma_fundamental_div_mod(top, den);
        assert(m == top / den);
        assert(2 * (m * count) == den * m) by (nonlinear_arith)
            requires
                den == 2 * count,
        ;
    }
    if n <= 0x10_0000 {
        lemma_long_mean(line, k, radius);
    }
}

/// The sample of channel `c` at column `x` of row `y`.
pub open spec fn sample_of(buf: Seq<u8>, width: nat, x: int, y: int, c: int) -> int {
    buf[(y * width + x) * 4 + c] as int
}

/// A blur along the rows writes the rounded mean of the window along the row, at
/// every pixel, and nothing else.
pub proof fn law_rows_are_window_means(
    src: Seq<u8>,
    width: nat,
    height: nat,
    radius: nat,
    x: int,
    y: int,
    c: int,
)
    requires
        0 <= x < width,
        0 <= y < height,
        0 <= c < 4,
    ensures
        blurred_rows(src, width, height, radius).len() == width * height * 4,
        is_window_mean(
            sample_of(blurred_rows(src, width, height, radius), width, x, y, c),
            |i: int| sample_of(src, width, i, y, c),
            width as int,
            x,
            radius as int,
        ),
{
    let line = row(src, width, y, c);
    let f = |i: int| sample_of(src, width, i, y, c);
    lemma_blurred_row_sample(src, width, height, radius, x, y, c);
    assert forall|i: int| 0 <= i < line.len() implies #[trigger] f(i) == line[i] by {
        assert(line[i] == sample(src, width, i, y, c));
    }
    law_blurred_sample_is_window_mean(line, f, x, radius);
}

/// A blur along the columns writes the rounded mean of the window down the
/// column.
pub proof fn law_columns_are_window_means(
    src: Seq<u8>,
    width: nat,
    height: nat,
    radius: nat,
    x: int,
    y: int,
    c: int,
)
    requires
        0 <= x < width,
        0 <= y < height,
        0 <= c < 4,
    ensures
        blurred_columns(src, width, height, radius).len() == width * height * 4,
        is_window_mean(
            sample_of(blurred_columns(src, width, height, radius), width, x, y, c),
            |j: int| sample_of(src, width, x, j, c),
            height as int,
            y,
            radius as int,
        ),
{
    let line = column(src, width, height, x, c);
    let f = |j: int| sample_of(src, width, x, j, c);
    lemma_blurred_column_sample(src, width, height, radius, x, y, c);
    assert forall|j: int| 0 <= j < line.len() implies #[trigger] f(j) == line[j] by {
        assert(line[j] == sample(src, width, x, j, c));
    }
    law_blurred_sample_is_window_mean(line, f, y, radius);
}

/// What a blur writes to a longer buffer: its samples over the head, and nothing
/// past them.
pub proof fn law_blur_is_written_over(base: Seq<u8>, head: Seq<u8>, i: int)
    requires
        head.len() <= base.len(),
        0 <= i < base.len(),
    ensures
        overlaid(base, head).len() == base.len(),
        i < head.len() ==> overlaid(base, head)[i] == head[i],
        i >= head.len() ==> overlaid(base, head)[i] == base[i],
{
}

} // verus!
