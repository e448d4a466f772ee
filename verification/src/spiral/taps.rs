//! What the taps of a spiral promise: they lie in the disk, an average of parts
//! is a part, and a seed's direction is one of the circle's.

use vstd::prelude::*;

use super::laws::lemma_tap_is_answer;
use super::{blurs, directs, spiral_of, tap_average, tap_distance, tap_sums, AQUA_BLUR_TAPS};
use crate::single::arith::{absolute, opposite, product, quotient, sum};
use crate::single::convert::{one_unit, whole};
use crate::single::laws::{
    law_integers_are_exact, law_rounding_is_monotone, lemma_constants, lemma_part,
    lemma_product_rank, lemma_quotient_rank, lemma_rank_between, lemma_sum_rank,
};
use crate::single::order::law_order_is_by_value;
use crate::single::root::laws::law_root_of_part_is_part;
use crate::single::root::square_root;
use crate::single::{Single, HALF, ONE, ZERO};

verus! {

/// The part of the radius at which a tap lies.
pub proof fn lemma_tap_part(k: nat)
    requires
        k < AQUA_BLUR_TAPS,
    ensures
        ({
            let part = square_root(
                quotient(sum(whole(k), Single { bits: HALF }), whole(AQUA_BLUR_TAPS as nat)),
            );
            part.finite() && 0 <= part.units() <= one_unit()
        }),
{
    let zero = Single { bits: ZERO };
    let one = Single { bits: ONE };
    let half = Single { bits: HALF };
    let w = one_unit();
    lemma_constants();
    law_integers_are_exact(k);
    law_integers_are_exact(AQUA_BLUR_TAPS as nat);
    let count = whole(AQUA_BLUR_TAPS as nat);
    let place = sum(whole(k), half);
    lemma_sum_rank(whole(k), half);
    assert(k * w <= 47 * w) by (nonlinear_arith)
        requires
            k <= 47,
    ;
    lemma_rank_between(place, k * w + half.units(), 1, zero, count);
    let part = quotient(place, count);
    lemma_quotient_rank(place, count);
    let den = count.units() as nat;
    assert(0 * den <= place.units() * w && place.units() * w <= w * den) by (nonlinear_arith)
        requires
            0 <= place.units() <= den,
    ;
    lemma_rank_between(part, place.units() * w, den, zero, one);
    law_root_of_part_is_part(part);
}

/// Every tap lies in the disk: its distance is at most the blur, and so is its
/// way along either axis, where sine and cosine lie in `-1..=1`.
pub proof fn law_taps_lie_in_the_disk(blur: Single, direction: Single, k: nat)
    requires
        k < AQUA_BLUR_TAPS,
        blur.finite(),
        0 <= blur.units(),
        direction.finite(),
        absolute(direction.units()) <= one_unit(),
    ensures
        tap_distance(blur, k).finite(),
        0 <= tap_distance(blur, k).units() <= blur.units(),
        product(direction, tap_distance(blur, k)).finite(),
        absolute(product(direction, tap_distance(blur, k)).units()) <= blur.units(),
{
    let w = one_unit();
    let d = tap_distance(blur, k);
    lemma_constants();
    lemma_tap_part(k);
    lemma_part(
        blur,
        square_root(
            quotient(sum(whole(k), Single { bits: HALF }), whole(AQUA_BLUR_TAPS as nat)),
        ),
    );
    let p = product(direction, d);
    lemma_product_rank(direction, d);
    let u = direction.units();
    let v = d.units();
    assert((-v) * w <= u * v && u * v <= v * w) by (nonlinear_arith)
        requires
            -w <= u <= w,
            0 <= v,
    {
        assert(u * v <= w * v && (-w) * v <= u * v);
    }
    lemma_rank_between(p, u * v, w, opposite(d), d);
}

/// Alpha and scale of a tap lie in `0..=1`.
pub open spec fn is_part(tap: (Single, Single)) -> bool {
    &&& tap.0.finite() && 0 <= tap.0.units() <= one_unit()
    &&& tap.1.finite() && 0 <= tap.1.units() <= one_unit()
}

proof fn lemma_part_sums(taps: Seq<(Single, Single)>)
    requires
        taps.len() <= AQUA_BLUR_TAPS,
        forall|k: int| 0 <= k < taps.len() ==> is_part(#[trigger] taps[k]),
    ensures
        tap_sums(taps).0.finite(),
        tap_sums(taps).1.finite(),
        0 <= tap_sums(taps).1.units() <= tap_sums(taps).0.units() <= taps.len() * one_unit(),
    decreases taps.len(),
{
    let zero = Single { bits: ZERO };
    let w = one_unit();
    lemma_constants();
    if taps.len() == 0 {
        assert(0 * w == 0);
    } else {
        let rest = taps.drop_last();
        let n = taps.len();
        assert forall|k: int| 0 <= k < rest.len() implies is_part(#[trigger] rest[k]) by {
            assert(is_part(taps[k]));
        }
        lemma_part_sums(rest);
        let (a, s) = taps.last();
        assert(is_part(taps[n - 1]));
        let before = tap_sums(rest);
        let after = tap_sums(taps);
        law_integers_are_exact(n);
        assert((n - 1) * w + w == n * w) by (nonlinear_arith);
        lemma_sum_rank(before.0, a);
        lemma_rank_between(after.0, before.0.units() + a.units(), 1, zero, whole(n));
        let p = product(a, s);
        lemma_part(a, s);
        lemma_sum_rank(before.1, p);
        lemma_rank_between(after.1, before.1.units() + p.units(), 1, zero, whole(n));
        law_rounding_is_monotone(
            before.1.units() + p.units(),
            1,
            before.0.units() + a.units(),
            1,
        );
        law_order_is_by_value(after.1, after.0);
    }
}

/// The average of a full set of taps in `0..=1` lies there too, alpha and scale.
pub proof fn law_average_of_parts_is_a_part(taps: Seq<(Single, Single)>)
    requires
        taps.len() == AQUA_BLUR_TAPS,
        forall|k: int| 0 <= k < taps.len() ==> is_part(#[trigger] taps[k]),
    ensures
        is_part(tap_average(taps)),
{
    let zero = Single { bits: ZERO };
    let one = Single { bits: ONE };
    let w = one_unit();
    lemma_constants();
    lemma_part_sums(taps);
    law_integers_are_exact(AQUA_BLUR_TAPS as nat);
    let (alphas, scaled) = tap_sums(taps);
    let count = whole(AQUA_BLUR_TAPS as nat);
    lemma_quotient_rank(alphas, count);
    let den = count.units() as nat;
    assert(0 * den <= alphas.units() * w && alphas.units() * w <= w * den) by (nonlinear_arith)
        requires
            0 <= alphas.units() <= den,
    ;
    lemma_rank_between(quotient(alphas, count), alphas.units() * w, den, zero, one);
    law_order_is_by_value(zero, alphas);
    if alphas.units() > 0 {
        let total = alphas.units() as nat;
        lemma_quotient_rank(scaled, alphas);
        assert(0 * total <= scaled.units() * w && scaled.units() * w <= w * total)
            by (nonlinear_arith)
            requires
                0 <= scaled.units() <= total,
        ;
        lemma_rank_between(quotient(scaled, alphas), scaled.units() * w, total, zero, one);
    }
}

/// Coverage that lies in `0..=1` everywhere, alpha and scale, lies there after
/// the blur.
pub proof fn law_blur_of_parts_is_a_part<F, S, C>(
    coverage_at: F,
    sin: S,
    cos: C,
    sample: (Single, Single),
    blur: Single,
    seed: Single,
    bias: (Single, Single),
    out: (Single, Single),
) where
    F: Fn(Single, Single) -> (Single, Single),
    S: Fn(Single) -> Single,
    C: Fn(Single) -> Single,

    requires
        blurs(coverage_at, sin, cos, sample, blur, seed, bias, out),
        forall|x: Single, y: Single, r: (Single, Single)|
            #[trigger] call_ensures(coverage_at, (x, y), r) ==> is_part(r),
    ensures
        is_part(out),
{
    let (hash, taps) = choose|hash: Single, taps: Seq<(Single, Single)>|
        #[trigger] spiral_of(coverage_at, sin, cos, sample, blur, seed, bias, hash, taps) && out
            == tap_average(taps);
    assert forall|k: int| 0 <= k < taps.len() implies is_part(#[trigger] taps[k]) by {
        let r = lemma_tap_is_answer(
            coverage_at,
            sin,
            cos,
            sample,
            blur,
            seed,
            bias,
            hash,
            taps,
            k,
        );
    }
    law_average_of_parts_is_a_part(taps);
}

/// `(x, y)` has a length of one, its square within one part in `slack`.
pub open spec fn is_unit(x: Single, y: Single, slack: nat) -> bool {
    let w = one_unit();
    &&& x.finite() && y.finite()
    &&& slack * absolute(x.units() * x.units() + y.units() * y.units() - w * w) <= w * w
}

/// The direction of a seed is a unit vector, as near as sine and cosine of any
/// one angle are.
pub proof fn law_seed_direction_is_unit<S, C>(
    sin: S,
    cos: C,
    seed: Single,
    slack: nat,
    out: (Single, Single),
) where S: Fn(Single) -> Single, C: Fn(Single) -> Single
    requires
        forall|a: Single, c: Single, s: Single|
            #[trigger] call_ensures(cos, (a,), c) && #[trigger] call_ensures(sin, (a,), s)
                ==> is_unit(c, s, slack),
        directs(sin, cos, seed, out),
    ensures
        is_unit(out.0, out.1, slack),
{
}

} // verus!
