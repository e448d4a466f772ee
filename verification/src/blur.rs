//! Box blur of a premultiplied RGBA buffer, along rows and along columns.
//!
//! The sum over the window runs along a line in binary32. It is exact for
//! windows of up to 65535 samples.

use vstd::arithmetic::div_mod::{lemma_fundamental_div_mod, lemma_fundamental_div_mod_converse};
use vstd::prelude::*;

pub mod full;
pub mod laws;
pub mod long;
pub mod sums;
pub mod windows;

use crate::color::{byte_within, to_byte_within};
use crate::single::arith::{difference, product, quotient, sum};
use crate::single::convert::whole;
use crate::single::{Single, ZERO};

verus! {

/// Position `i` drawn into a line of `n` samples: beyond either end the
/// sample at that end counts again.
pub open spec fn edge(i: int, n: nat) -> int {
    if i < 0 {
        0
    } else if i >= n {
        n - 1
    } else {
        i
    }
}

/// The radius that a line of `n` samples is blurred with.
pub open spec fn effective_radius(radius: nat, n: nat) -> nat {
    if radius < n {
        radius
    } else {
        (n - 1) as nat
    }
}

/// The first `n` samples, added up one by one.
pub open spec fn first_sum(line: Seq<u8>, n: nat) -> Single
    decreases n,
{
    if n == 0 {
        Single { bits: ZERO }
    } else {
        sum(first_sum(line, (n - 1) as nat), whole(line[n - 1] as nat))
    }
}

/// The running sum of the samples within `r` of `k`: that around the first
/// sample, from which each step drops the sample that leaves the window and
/// takes in the next.
pub open spec fn window_sum(line: Seq<u8>, r: nat, k: nat) -> Single
    decreases k,
{
    if k == 0 {
        sum(first_sum(line, r + 1), product(whole(line[0] as nat), whole(r)))
    } else {
        let next = line[edge((k + r) as int, line.len())];
        let last = line[edge(k - 1 - r, line.len())];
        sum(
            window_sum(line, r, (k - 1) as nat),
            difference(whole(next as nat), whole(last as nat)),
        )
    }
}

/// The mean of the samples within `radius` of `k`, from their running sum.
#[verifier::opaque]
pub open spec fn box_mean(line: Seq<u8>, k: int, radius: nat) -> u8 {
    let r = effective_radius(radius, line.len());
    byte_within(quotient(window_sum(line, r, k as nat), whole(2 * r + 1)))
}

/// The samples of `src` from `start` on, `stride` apart.
pub open spec fn strided(src: Seq<u8>, start: int, stride: int, count: nat) -> Seq<u8> {
    Seq::new(count, |k: int| src[start + k * stride])
}

/// The position of channel `c` of the pixel at `(x, y)`.
pub open spec fn channel_at(width: int, x: int, y: int, c: int) -> int {
    (y * width + x) * 4 + c
}

/// Channel `c` along row `y`.
pub open spec fn row(src: Seq<u8>, width: nat, y: int, c: int) -> Seq<u8> {
    strided(src, channel_at(width as int, 0, y, c), 4, width)
}

/// Channel `c` along column `x`.
pub open spec fn column(src: Seq<u8>, width: nat, height: nat, x: int, c: int) -> Seq<u8> {
    strided(src, channel_at(width as int, x, 0, c), (width * 4) as int, height)
}

/// The buffer with each sample replaced by the mean along its row.
pub open spec fn blurred_rows(src: Seq<u8>, width: nat, height: nat, radius: nat) -> Seq<u8> {
    Seq::new(
        width * height * 4,
        |i: int|
            box_mean(
                row(src, width, i / 4 / (width as int), i % 4),
                i / 4 % (width as int),
                radius,
            ),
    )
}

/// The buffer with each sample replaced by the mean along its column.
pub open spec fn blurred_columns(src: Seq<u8>, width: nat, height: nat, radius: nat) -> Seq<u8> {
    Seq::new(
        width * height * 4,
        |i: int|
            box_mean(
                column(src, width, height, i / 4 % (width as int), i % 4),
                i / 4 / (width as int),
                radius,
            ),
    )
}

/// `base` with its first samples replaced by `head`.
pub open spec fn overlaid(base: Seq<u8>, head: Seq<u8>) -> Seq<u8> {
    head + base.skip(head.len() as int)
}

/// A position names its channel, row and column.
pub proof fn lemma_channel_parts(width: int, x: int, y: int, c: int)
    requires
        0 <= x < width,
        0 <= y,
        0 <= c < 4,
    ensures
        ({
            let i = channel_at(width, x, y, c);
            &&& i >= 0
            &&& i % 4 == c
            &&& i / 4 == y * width + x
            &&& i / 4 / width == y
            &&& i / 4 % width == x
        }),
{
    assert(y * width >= 0) by (nonlinear_arith)
        requires
            y >= 0,
            width > 0,
    ;
    lemma_fundamental_div_mod_converse(y * width + x, width, y, x);
}

/// Every position is that of some channel of some pixel.
pub proof fn lemma_parts_of(width: int, height: int, i: int)
    requires
        width > 0,
        0 <= i < width * height * 4,
    ensures
        0 <= i / 4 / width < height,
        0 <= i / 4 % width < width,
        0 <= i % 4 < 4,
        i == channel_at(width, i / 4 % width, i / 4 / width, i % 4),
{
    let p = i / 4;
    lemma_fundamental_div_mod(p, width);
    let q = p / width;
    assert(width * q == q * width) by (nonlinear_arith);
    assert(0 <= q < height) by (nonlinear_arith)
        requires
            p == width * q + p % width,
            0 <= p % width,
            p % width < width,
            0 <= p,
            p < width * height,
            width > 0,
    {
        if q >= height {
            assert(width * q >= width * height);
        }
        if q < 0 {
            assert(width * q <= width * (-1));
        }
    }
}

/// The positions of a buffer lie below its length.
pub proof fn lemma_channel_bound(width: int, height: int, x: int, y: int, c: int)
    requires
        0 <= x < width,
        0 <= y < height,
        0 <= c < 4,
    ensures
        0 <= channel_at(width, x, y, c) < width * height * 4,
{
    assert((y + 1) * width <= height * width && y * width >= 0) by (nonlinear_arith)
        requires
            0 <= y < height,
            width > 0,
    ;
    assert((y + 1) * width == y * width + width && height * width == width * height)
        by (nonlinear_arith);
}

/// A blur along the columns reads the samples of the pixels only.
pub proof fn lemma_columns_of_overlaid(
    base: Seq<u8>,
    head: Seq<u8>,
    width: nat,
    height: nat,
    radius: nat,
)
    requires
        width > 0,
        head.len() == width * height * 4,
    ensures
        blurred_columns(overlaid(base, head), width, height, radius) == blurred_columns(
            head,
            width,
            height,
            radius,
        ),
{
    let whole = overlaid(base, head);
    let left = blurred_columns(whole, width, height, radius);
    let right = blurred_columns(head, width, height, radius);
    assert forall|i: int| 0 <= i < left.len() implies left[i] == right[i] by {
        lemma_parts_of(width as int, height as int, i);
        let x = i / 4 % (width as int);
        let c = i % 4;
        let a = column(whole, width, height, x, c);
        let b = column(head, width, height, x, c);
        assert forall|k: int| 0 <= k < height implies a[k] == b[k] by {
            lemma_channel_bound(width as int, height as int, x, k, c);
            assert(channel_at(width as int, x, 0, c) + k * (width * 4) == channel_at(
                width as int,
                x,
                k,
                c,
            )) by (nonlinear_arith);
        }
        assert(a =~= b);
    }
    assert(left =~= right);
}

/// Blurs one line of `count` samples: those of `src` from `start` on,
/// `stride` apart, into the same places of `dst`.
fn blur_line(
    src: &[u8],
    dst: &mut [u8],
    start: usize,
    stride: usize,
    count: usize,
    radius: usize,
)
    requires
        count > 0,
        stride >= 4,
        start + (count - 1) * stride < src@.len(),
        start + (count - 1) * stride < old(dst)@.len(),
    ensures
        final(dst)@.len() == old(dst)@.len(),
        forall|k: int|
            0 <= k < count ==> #[trigger] final(dst)@[start + k * stride] == box_mean(
                strided(src@, start as int, stride as int, count as nat),
                k,
                radius as nat,
            ),
        forall|i: int|
            0 <= i < old(dst)@.len() && (forall|k: int|
                0 <= k < count ==> #[trigger] (start + k * stride) != i) ==> final(dst)@[i]
                == old(dst)@[i],
{
    let len: usize = src.len();
    let r: usize = if radius < count { radius } else { count - 1 };
    let ghost line = strided(src@, start as int, stride as int, count as nat);
    assert((count - 1) * 4 <= (count - 1) * stride) by (nonlinear_arith)
        requires
            count >= 1,
            stride >= 4,
    ;
    let window = Single::from_usize(2 * r + 1);
    let mut total = Single::from_bits(ZERO);
    let mut k: usize = 0;
    while k <= r
        invariant
            r < count,
            k <= r + 1,
            r + 1 <= usize::MAX,
            stride >= 4,
            line == strided(src@, start as int, stride as int, count as nat),
            len == src@.len(),
            start + (count - 1) * stride < len,
            total == first_sum(line, k as nat),
        decreases r + 1 - k,
    {
        proof {
            lemma_line_index(start as int, stride as int, count as int, k as int);
        }
        total = total.plus(Single::from_u32(src[start + k * stride] as u32));
        k = k + 1;
    }
    assert(start + 0 * stride == start);
    total = total.plus(Single::from_u32(src[start] as u32).times(Single::from_usize(r)));
    let mut k: usize = 0;
    while k < count
        invariant
            r == effective_radius(radius as nat, count as nat),
            r < count,
            k <= count,
            stride >= 4,
            window == whole(2 * r as nat + 1),
            line == strided(src@, start as int, stride as int, count as nat),
            dst@.len() == old(dst)@.len(),
            len == src@.len(),
            start + (count - 1) * stride < len,
            start + (count - 1) * stride < dst@.len(),
            (count - 1) * 4 <= (count - 1) * stride,
            total == window_sum(line, r as nat, k as nat),
            forall|j: int|
                0 <= j < k ==> #[trigger] dst@[start + j * stride] == box_mean(
                    line,
                    j,
                    radius as nat,
                ),
            forall|i: int|
                0 <= i < old(dst)@.len() && (forall|j: int|
                    0 <= j < count ==> #[trigger] (start + j * stride) != i) ==> dst@[i] == old(
                    dst,
                )@[i],
        decreases count - k,
    {
        proof {
            lemma_line_index(start as int, stride as int, count as int, k as int);
        }
        let ghost before = dst@;
        dst[start + k * stride] = to_byte_within(total.over(window));
        proof {
            reveal(box_mean);
            assert forall|j: int| 0 <= j < k + 1 implies #[trigger] dst@[start + j * stride]
                == box_mean(line, j, radius as nat) by {
                lemma_line_index(start as int, stride as int, count as int, j);
                if j < k {
                    assert(start + j * stride != start + k * stride) by (nonlinear_arith)
                        requires
                            j < k,
                            stride > 0,
                    ;
                    assert(before[start + j * stride] == box_mean(line, j, radius as nat));
                }
            }
            assert forall|i: int|
                0 <= i < old(dst)@.len() && (forall|j: int|
                    0 <= j < count ==> #[trigger] (start + j * stride) != i) implies dst@[i]
                == old(dst)@[i] by {
                assert(start + (k as int) * stride != i);
                assert(before[i] == old(dst)@[i]);
            }
        }
        let left: usize = if k < r { 0 } else { k - r };
        let right: usize = if r + 1 < count - k { k + r + 1 } else { count - 1 };
        proof {
            lemma_line_index(start as int, stride as int, count as int, left as int);
            lemma_line_index(start as int, stride as int, count as int, right as int);
            assert(left == edge(k - r, count as nat));
            assert(right == edge(k + 1 + r, count as nat));
        }
        let next = Single::from_u32(src[start + right * stride] as u32);
        let last = Single::from_u32(src[start + left * stride] as u32);
        total = total.plus(next.minus(last));
        k = k + 1;
    }
}

/// Blurs along the rows of `src`, a buffer of `width * height` pixels of four
/// bytes, into `dst`. What follows the last pixel in `dst` stays.
///
/// Each sample becomes the mean of those within `radius` of it in its row;
/// beyond an end of the row the sample at that end counts again, so edges are
/// not darkened. A radius past the length of the row is taken as one less than
/// that length.
pub fn box_blur_horizontal(
    src: &[u8],
    dst: &mut [u8],
    width: usize,
    height: usize,
    radius: usize,
)
    requires
        width >= 1,
        src@.len() >= width * height * 4,
        old(dst)@.len() >= width * height * 4,
    ensures
        final(dst)@ == overlaid(
            old(dst)@,
            blurred_rows(src@, width as nat, height as nat, radius as nat),
        ),
{
    let ghost len = width * height * 4;
    let ghost w = width as nat;
    assert(src.len() == src@.len());
    let ghost goal = blurred_rows(src@, width as nat, height as nat, radius as nat);
    let mut y: usize = 0;
    while y < height
        invariant
            width >= 1,
            w == width,
            y <= height,
            len == width * height * 4,
            len <= src@.len() <= usize::MAX,
            len <= dst@.len(),
            dst@.len() == old(dst)@.len(),
            forall|i: int| len <= i < dst@.len() ==> #[trigger] dst@[i] == old(dst)@[i],
            goal == blurred_rows(src@, width as nat, height as nat, radius as nat),
            forall|i: int| 0 <= i < len && i / 4 / (w as int) < y ==> #[trigger] dst@[i] == goal[i],
        decreases height - y,
    {
        let mut c: usize = 0;
        while c < 4
            invariant
                width >= 1,
                w == width,
                y < height,
                c <= 4,
                len == width * height * 4,
                len <= src@.len() <= usize::MAX,
                len <= dst@.len(),
                dst@.len() == old(dst)@.len(),
                forall|i: int| len <= i < dst@.len() ==> #[trigger] dst@[i] == old(dst)@[i],
                goal == blurred_rows(src@, width as nat, height as nat, radius as nat),
                forall|i: int|
                    0 <= i < len && (i / 4 / (w as int) < y || (i / 4 / (w as int) == y && i % 4
                        < c)) ==> #[trigger] dst@[i] == goal[i],
            decreases 4 - c,
        {
            let ghost before = dst@;
            proof {
                lemma_channel_bound(width as int, height as int, 0, y as int, c as int);
                lemma_channel_bound(width as int, height as int, width - 1, y as int, c as int);
                assert(0 <= y * width && y * width <= len) by (nonlinear_arith)
                    requires
                        channel_at(width as int, 0, y as int, c as int) == (y * width + 0) * 4 + c,
                        channel_at(width as int, 0, y as int, c as int) < len,
                        width >= 1,
                        y >= 0,
                ;
            }
            let start: usize = y * width * 4 + c;
            blur_line(src, dst, start, 4, width, radius);
            proof {
                assert forall|i: int|
                    0 <= i < len && (i / 4 / (w as int) < y || (i / 4 / (w as int) == y && i % 4 < c
                        + 1)) implies #[trigger] dst@[i] == goal[i] by {
                    lemma_parts_of(width as int, height as int, i);
                    let k = i / 4 % (w as int);
                    if i / 4 / (w as int) == y && i % 4 == c {
                        assert(i == start + k * 4);
                        assert(dst@[start + k * 4] == box_mean(
                            strided(src@, start as int, 4, width as nat),
                            k,
                            radius as nat,
                        ));
                    } else {
                        assert forall|j: int| 0 <= j < width implies #[trigger] (start + j * 4)
                            != i by {
                            lemma_channel_parts(width as int, j, y as int, c as int);
                        }
                        assert(dst@[i] == before[i]);
                    }
                }
                assert forall|i: int| len <= i < dst@.len() implies #[trigger] dst@[i] == old(
                    dst,
                )@[i] by {
                    assert forall|j: int| 0 <= j < width implies #[trigger] (start + j * 4)
                        != i by {
                        lemma_channel_bound(width as int, height as int, j, y as int, c as int);
                    }
                    assert(dst@[i] == before[i]);
                }
            }
            c = c + 1;
        }
        proof {
            assert forall|i: int|
                0 <= i < len && i / 4 / (w as int) < y + 1 implies #[trigger] dst@[i]
                == goal[i] by {}
        }
        y = y + 1;
    }
    proof {
        assert forall|i: int| 0 <= i < len implies #[trigger] dst@[i] == goal[i] by {
            lemma_parts_of(width as int, height as int, i);
        }
        assert(dst@ =~= overlaid(old(dst)@, goal));
    }
}

/// Blurs along the columns: as [`box_blur_horizontal`] does along the rows.
pub fn box_blur_vertical(
    src: &[u8],
    dst: &mut [u8],
    width: usize,
    height: usize,
    radius: usize,
)
    requires
        height >= 1,
        src@.len() >= width * height * 4,
        old(dst)@.len() >= width * height * 4,
    ensures
        final(dst)@ == overlaid(
            old(dst)@,
            blurred_columns(src@, width as nat, height as nat, radius as nat),
        ),
{
    let ghost len = width * height * 4;
    let ghost w = width as nat;
    assert(src.len() == src@.len());
    let ghost goal = blurred_columns(src@, width as nat, height as nat, radius as nat);
    let mut x: usize = 0;
    while x < width
        invariant
            height >= 1,
            w == width,
            x <= width,
            len == width * height * 4,
            len <= src@.len() <= usize::MAX,
            len <= dst@.len(),
            dst@.len() == old(dst)@.len(),
            forall|i: int| len <= i < dst@.len() ==> #[trigger] dst@[i] == old(dst)@[i],
            goal == blurred_columns(src@, width as nat, height as nat, radius as nat),
            forall|i: int| 0 <= i < len && i / 4 % (w as int) < x ==> #[trigger] dst@[i] == goal[i],
        decreases width - x,
    {
        let mut c: usize = 0;
        while c < 4
            invariant
                height >= 1,
                w == width,
                x < width,
                c <= 4,
                len == width * height * 4,
                len <= src@.len() <= usize::MAX,
                len <= dst@.len(),
                dst@.len() == old(dst)@.len(),
                forall|i: int| len <= i < dst@.len() ==> #[trigger] dst@[i] == old(dst)@[i],
                goal == blurred_columns(src@, width as nat, height as nat, radius as nat),
                forall|i: int|
                    0 <= i < len && (i / 4 % (w as int) < x || (i / 4 % (w as int) == x && i % 4
                        < c)) ==> #[trigger] dst@[i] == goal[i],
            decreases 4 - c,
        {
            let ghost before = dst@;
            proof {
                lemma_channel_bound(width as int, height as int, x as int, 0, c as int);
                lemma_channel_bound(width as int, height as int, x as int, height - 1, c as int);
                assert(width * 4 <= len) by (nonlinear_arith)
                    requires
                        len == width * height * 4,
                        height >= 1,
                ;
            }
            let start: usize = x * 4 + c;
            let stride: usize = width * 4;
            assert forall|j: int| #[trigger] (start + j * stride) == channel_at(
                width as int,
                x as int,
                j,
                c as int,
            ) by {
                assert(start + j * stride == (j * width + x) * 4 + c) by (nonlinear_arith)
                    requires
                        start == x * 4 + c,
                        stride == width * 4,
                ;
            }
            assert(start + (height - 1) * stride < len);
            blur_line(src, dst, start, stride, height, radius);
            proof {
                assert forall|i: int|
                    0 <= i < len && (i / 4 % (w as int) < x || (i / 4 % (w as int) == x && i % 4 < c
                        + 1)) implies #[trigger] dst@[i] == goal[i] by {
                    lemma_parts_of(width as int, height as int, i);
                    let k = i / 4 / (w as int);
                    if i / 4 % (w as int) == x && i % 4 == c {
                        assert(i == start + k * stride);
                        assert(dst@[start + k * stride] == box_mean(
                            strided(src@, start as int, stride as int, height as nat),
                            k,
                            radius as nat,
                        ));
                    } else {
                        assert forall|j: int| 0 <= j < height implies #[trigger] (start + j
                            * stride) != i by {
                            lemma_channel_parts(width as int, x as int, j, c as int);
                        }
                        assert(dst@[i] == before[i]);
                    }
                }
                assert forall|i: int| len <= i < dst@.len() implies #[trigger] dst@[i] == old(
                    dst,
                )@[i] by {
                    assert forall|j: int| 0 <= j < height implies #[trigger] (start + j * stride)
                        != i by {
                        lemma_channel_bound(width as int, height as int, x as int, j, c as int);
                    }
                    assert(dst@[i] == before[i]);
                }
            }
            c = c + 1;
        }
        proof {
            assert forall|i: int|
                0 <= i < len && i / 4 % (w as int) < x + 1 implies #[trigger] dst@[i]
                == goal[i] by {}
        }
        x = x + 1;
    }
    proof {
        assert forall|i: int| 0 <= i < len implies #[trigger] dst@[i] == goal[i] by {
            if width > 0 {
                lemma_parts_of(width as int, height as int, i);
            }
        }
        assert(dst@ =~= overlaid(old(dst)@, goal));
    }
}

proof fn lemma_line_index(start: int, stride: int, count: int, k: int)
    requires
        stride > 0,
        start >= 0,
        0 <= k < count,
    ensures
        0 <= k * stride <= (count - 1) * stride,
        start <= start + k * stride <= start + (count - 1) * stride,
{
    assert(0 <= k * stride <= (count - 1) * stride) by (nonlinear_arith)
        requires
            stride > 0,
            0 <= k < count,
    ;
}

} // verus!
