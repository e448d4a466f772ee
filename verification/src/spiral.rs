//! The spiral bleed: a spatial blur of a primitive's coverage over a disk of
//! taps laid out by the golden angle, and the color character that follows it.
//!
//! Sine and cosine are handed in by the caller, as is the coverage that is
//! blurred.

use vstd::prelude::*;

pub mod average;
pub mod character;
pub mod hashing;
pub mod laws;
pub mod shades;
pub mod taps;
pub mod values;

use crate::color::{clamp_unit, unit_interval};
use crate::single::arith::{difference, product, quotient, sum};
use crate::single::convert::{floored, whole};
use crate::single::order::{below, same};
use crate::single::root::square_root;
use crate::single::{Single, HALF, ONE, THREE, TWO, ZERO};

verus! {

/// The number of taps of the spiral.
pub const AQUA_BLUR_TAPS: u32 = 48;

/// The bits of 2.39996323, the golden angle in radians.
pub const AQUA_GOLDEN_ANGLE: u32 = 0x4019_98FF;

/// The bits of 0.45, the greatest part of the way that bloom moves a color
/// towards white.
pub const BLOOM_MAX: u32 = 0x3EE6_6666;

/// The bits of 0.6, the gain of saturation at full halo.
pub const HALO_SAT_GAIN: u32 = 0x3F19_999A;

/// The bits of 0.6, the part of the disk's radius that a full offset moves
/// its origin by.
pub const AQUA_OFFSET_BIAS: u32 = 0x3F19_999A;

/// The bits of a full turn in radians.
pub const AQUA_TAU: u32 = 0x40C9_0FDB;

/// The bits of 7, the number of golden angles per seed.
pub const SEED_TURNS: u32 = 0x40E0_0000;

/// The bits of 127.1, the weight of x in the phase of the hash.
pub const PHASE_X: u32 = 0x42FE_3333;

/// The bits of 311.7, the weight of y in the phase of the hash.
pub const PHASE_Y: u32 = 0x439B_D99A;

/// The bits of 43758.5453123, the amplitude whose fraction is the hash.
pub const AMPLITUDE: u32 = 0x472A_EE8C;

/// The bits of 12.9898, the step along x per seed.
pub const SEED_X: u32 = 0x414F_D639;

/// The bits of 78.233, the step along y per seed.
pub const SEED_Y: u32 = 0x429C_774C;

/// The bits of 4.1, where the steps along y start.
pub const SEED_Y_START: u32 = 0x4083_3333;

/// The bits of 0.299, the part of red in the luma.
pub const LUMA_RED: u32 = 0x3E99_1687;

/// The bits of 0.587, the part of green in the luma.
pub const LUMA_GREEN: u32 = 0x3F16_45A2;

/// The bits of 0.114, the part of blue in the luma.
pub const LUMA_BLUE: u32 = 0x3DE9_78D5;

/// The bits of 0.45, the coverage from which on nothing counts as edge.
pub const EDGE_INNER: u32 = 0x3EE6_6666;

/// The bits of 0.05, the coverage up to which all counts as edge.
pub const EDGE_OUTER: u32 = 0x3D4C_CCCD;

/// The bits of 0.18, the coverage up to which nothing counts as center.
pub const CENTER_OUTER: u32 = 0x3E38_51EC;

/// The parameters of the spiral bleed, each in `0..=1`.
///
/// The amounts of a button with three steps are about a third, two thirds and
/// one.
#[derive(Debug, Clone, Copy)]
pub struct SpiralBleedParams {
    /// How far the coverage spreads. Zero keeps the plain shape.
    pub bleed: Single,
    /// A soft bright core in the center. Counts where `bleed` is above zero.
    pub bloom: Single,
    /// A saturation boost towards the edge. Counts where `bleed` is above
    /// zero.
    pub halo: Single,
    /// How far the disk's origin moves in the seed's direction. Counts where
    /// `bleed` is above zero.
    pub offset: Single,
}

impl Default for SpiralBleedParams {
    /// No bleed: every axis at zero.
    fn default() -> (r: Self)
        ensures
            r.bleed.bits == ZERO,
            r.bloom.bits == ZERO,
            r.halo.bits == ZERO,
            r.offset.bits == ZERO,
    {
        SpiralBleedParams {
            bleed: Single::from_bits(ZERO),
            bloom: Single::from_bits(ZERO),
            halo: Single::from_bits(ZERO),
            offset: Single::from_bits(ZERO),
        }
    }
}

impl PartialEq for SpiralBleedParams {
    fn eq(&self, other: &SpiralBleedParams) -> (r: bool) {
        self.bleed == other.bleed && self.bloom == other.bloom && self.halo == other.halo
            && self.offset == other.offset
    }
}

impl vstd::std_specs::cmp::PartialEqSpecImpl for SpiralBleedParams {
    open spec fn obeys_eq_spec() -> bool {
        true
    }

    open spec fn eq_spec(&self, other: &SpiralBleedParams) -> bool {
        same(self.bleed, other.bleed) && same(self.bloom, other.bloom) && same(
            self.halo,
            other.halo,
        ) && same(self.offset, other.offset)
    }
}

/// The smooth step from zero at `edge0` to one at `edge1`.
pub open spec fn smooth_step(edge0: Single, edge1: Single, x: Single) -> Single {
    let t = unit_interval(quotient(difference(x, edge0), difference(edge1, edge0)));
    product(
        product(t, t),
        difference(Single { bits: THREE }, product(Single { bits: TWO }, t)),
    )
}

/// The smooth step from zero at `edge0` to one at `edge1`, which may be the
/// smaller of the two.
pub fn aqua_smoothstep(edge0: Single, edge1: Single, x: Single) -> (r: Single)
    ensures
        r == smooth_step(edge0, edge1, x),
{
    let t = clamp_unit(x.minus(edge0).over(edge1.minus(edge0)));
    t.times(t).times(Single::from_bits(THREE).minus(Single::from_bits(TWO).times(t)))
}

/// The angle whose sine the hash of `(x, y)` is taken from.
pub open spec fn hash_phase(x: Single, y: Single) -> Single {
    sum(product(x, Single { bits: PHASE_X }), product(y, Single { bits: PHASE_Y }))
}

/// The hash that a sine gives: the fraction of a great multiple of it.
pub open spec fn hash_of_sine(sine: Single) -> Single {
    let v = product(sine, Single { bits: AMPLITUDE });
    difference(v, floored(v))
}

/// The angle whose sine the hash of `(x, y)` is taken from.
pub fn aqua_hash_phase(x: Single, y: Single) -> (r: Single)
    ensures
        r == hash_phase(x, y),
{
    x.times(Single::from_bits(PHASE_X)).plus(y.times(Single::from_bits(PHASE_Y)))
}

/// The hash that a sine gives.
pub fn aqua_hash_of_sine(sine: Single) -> (r: Single)
    ensures
        r == hash_of_sine(sine),
{
    let v = sine.times(Single::from_bits(AMPLITUDE));
    v.minus(v.floor())
}

/// A function of an angle takes any number.
pub open spec fn takes_angles<S>(f: S) -> bool where S: Fn(Single) -> Single {
    forall|x: Single| call_requires(f, (x,))
}

/// A function of an angle gives one angle one answer.
pub open spec fn turns_alike<S>(f: S) -> bool where S: Fn(Single) -> Single {
    forall|x: Single, a: Single, b: Single|
        #[trigger] call_ensures(f, (x,), a) && #[trigger] call_ensures(f, (x,), b) ==> a == b
}

/// `h` is the hash of `(x, y)`, by way of some answer of the sine.
pub open spec fn hashes<S>(sin: S, x: Single, y: Single, h: Single) -> bool where
    S: Fn(Single) -> Single,
 {
    exists|s: Single|
        #[trigger] call_ensures(sin, (hash_phase(x, y),), s) && h == hash_of_sine(s)
}

/// The hash of `(x, y)`, a number in `0..=1` that scatters.
pub fn aqua_hash21<S>(x: Single, y: Single, sin: &S) -> (r: Single) where S: Fn(Single) -> Single
    requires
        takes_angles(*sin),
    ensures
        hashes(*sin, x, y, r),
{
    let s = sin(aqua_hash_phase(x, y));
    aqua_hash_of_sine(s)
}

/// The angle of the seed's direction, from the seed's hash.
pub open spec fn seed_angle(hash: Single) -> Single {
    product(hash, Single { bits: AQUA_TAU })
}

/// Where the hash of a seed is taken.
pub open spec fn seed_point(seed: Single) -> (Single, Single) {
    (
        product(seed, Single { bits: SEED_X }),
        sum(product(seed, Single { bits: SEED_Y }), Single { bits: SEED_Y_START }),
    )
}

/// `out` is the direction of a seed, by way of some answers of sine and cosine:
/// those of the angle that its hash gives.
pub open spec fn directs<S, C>(sin: S, cos: C, seed: Single, out: (Single, Single)) -> bool where
    S: Fn(Single) -> Single,
    C: Fn(Single) -> Single,
 {
    exists|h: Single|
        #[trigger] hashes(sin, seed_point(seed).0, seed_point(seed).1, h) && call_ensures(
            cos,
            (seed_angle(h),),
            out.0,
        ) && call_ensures(sin, (seed_angle(h),), out.1)
}

/// The direction of a seed: cosine and sine of an angle that its hash gives.
pub fn aqua_seed_dir_cpu<S, C>(seed: Single, sin: &S, cos: &C) -> (r: (Single, Single)) where
    S: Fn(Single) -> Single,
    C: Fn(Single) -> Single,

    requires
        takes_angles(*sin),
        takes_angles(*cos),
    ensures
        directs(*sin, *cos, seed, r),
{
    let x = seed.times(Single::from_bits(SEED_X));
    let y = seed.times(Single::from_bits(SEED_Y)).plus(Single::from_bits(SEED_Y_START));
    let h = aqua_hash21(x, y, sin);
    assert(hashes(*sin, seed_point(seed).0, seed_point(seed).1, h));
    let a = h.times(Single::from_bits(AQUA_TAU));
    (cos(a), sin(a))
}

/// The angle at which the spiral around a pixel starts.
pub open spec fn spiral_start(seed: Single, hash: Single) -> Single {
    sum(
        product(
            product(seed, Single { bits: AQUA_GOLDEN_ANGLE }),
            Single { bits: SEED_TURNS },
        ),
        product(hash, Single { bits: AQUA_TAU }),
    )
}

/// The angle of tap `k`.
pub open spec fn tap_angle(start: Single, k: nat) -> Single {
    sum(start, product(whole(k), Single { bits: AQUA_GOLDEN_ANGLE }))
}

/// The distance of tap `k` from the disk's origin.
pub open spec fn tap_distance(blur: Single, k: nat) -> Single {
    product(
        blur,
        square_root(
            quotient(sum(whole(k), Single { bits: HALF }), whole(AQUA_BLUR_TAPS as nat)),
        ),
    )
}

/// The disk's origin along one axis, moved in a direction by a distance.
pub open spec fn tap_coordinate(
    sample: Single,
    bias: Single,
    direction: Single,
    distance: Single,
) -> Single {
    sum(sum(sample, bias), product(direction, distance))
}

/// The running sums over taps of coverage: of the alphas, and of the scales
/// weighted by alpha.
pub open spec fn tap_sums(taps: Seq<(Single, Single)>) -> (Single, Single)
    decreases taps.len(),
{
    if taps.len() == 0 {
        (Single { bits: ZERO }, Single { bits: ZERO })
    } else {
        let before = tap_sums(taps.drop_last());
        let (a, s) = taps.last();
        (sum(before.0, a), sum(before.1, product(a, s)))
    }
}

/// The mean alpha of a full set of taps, and the mean scale weighted by alpha;
/// a scale of one where nothing is covered.
pub open spec fn tap_average(taps: Seq<(Single, Single)>) -> (Single, Single) {
    let (alphas, scaled) = tap_sums(taps);
    (
        quotient(alphas, whole(AQUA_BLUR_TAPS as nat)),
        if below(Single { bits: ZERO }, alphas) {
            quotient(scaled, alphas)
        } else {
            Single { bits: ONE }
        },
    )
}

/// The mean alpha of a full set of taps of coverage, and the mean scale
/// weighted by alpha.
pub fn aqua_average_taps(taps: &Vec<(Single, Single)>) -> (r: (Single, Single))
    ensures
        r == tap_average(taps@),
{
    let mut alphas = Single::from_bits(ZERO);
    let mut scaled = Single::from_bits(ZERO);
    let mut k: usize = 0;
    assert(taps@.take(0) =~= Seq::<(Single, Single)>::empty());
    while k < taps.len()
        invariant
            k <= taps@.len(),
            (alphas, scaled) == tap_sums(taps@.take(k as int)),
        decreases taps@.len() - k,
    {
        let (a, s) = taps[k];
        alphas = alphas.plus(a);
        scaled = scaled.plus(a.times(s));
        proof {
            assert(taps@.take(k + 1).drop_last() =~= taps@.take(k as int));
        }
        k = k + 1;
    }
    assert(taps@.take(k as int) =~= taps@);
    let count = Single::from_u32(AQUA_BLUR_TAPS);
    let scale = if Single::from_bits(ZERO).less_than(alphas) {
        scaled.over(alphas)
    } else {
        Single::from_bits(ONE)
    };
    (alphas.over(count), scale)
}

/// The coverage can be asked for at any point.
pub open spec fn covers<F>(coverage_at: F) -> bool where
    F: Fn(Single, Single) -> (Single, Single),
 {
    forall|x: Single, y: Single| call_requires(coverage_at, (x, y))
}

/// `tap` is the coverage at tap `k` of the spiral that starts at `start`, by
/// way of some answers of sine and cosine.
pub open spec fn taps_at<F, S, C>(
    coverage_at: F,
    sin: S,
    cos: C,
    sample: (Single, Single),
    blur: Single,
    bias: (Single, Single),
    start: Single,
    k: nat,
    tap: (Single, Single),
) -> bool where
    F: Fn(Single, Single) -> (Single, Single),
    S: Fn(Single) -> Single,
    C: Fn(Single) -> Single,
 {
    exists|c: Single, s: Single|
        #[trigger] call_ensures(cos, (tap_angle(start, k),), c) && #[trigger] call_ensures(
            sin,
            (tap_angle(start, k),),
            s,
        ) && call_ensures(
            coverage_at,
            (
                tap_coordinate(sample.0, bias.0, c, tap_distance(blur, k)),
                tap_coordinate(sample.1, bias.1, s, tap_distance(blur, k)),
            ),
            tap,
        )
}

/// `taps` are the coverages along a whole spiral around `sample`.
pub open spec fn spiral_of<F, S, C>(
    coverage_at: F,
    sin: S,
    cos: C,
    sample: (Single, Single),
    blur: Single,
    seed: Single,
    bias: (Single, Single),
    hash: Single,
    taps: Seq<(Single, Single)>,
) -> bool where
    F: Fn(Single, Single) -> (Single, Single),
    S: Fn(Single) -> Single,
    C: Fn(Single) -> Single,
 {
    &&& hashes(sin, sample.0, sample.1, hash)
    &&& taps.len() == AQUA_BLUR_TAPS
    &&& forall|k: int|
        0 <= k < AQUA_BLUR_TAPS ==> taps_at(
            coverage_at,
            sin,
            cos,
            sample,
            blur,
            bias,
            spiral_start(seed, hash),
            k as nat,
            #[trigger] taps[k],
        )
}

/// `out` is the coverage averaged along some whole spiral around `sample`.
pub open spec fn blurs<F, S, C>(
    coverage_at: F,
    sin: S,
    cos: C,
    sample: (Single, Single),
    blur: Single,
    seed: Single,
    bias: (Single, Single),
    out: (Single, Single),
) -> bool where
    F: Fn(Single, Single) -> (Single, Single),
    S: Fn(Single) -> Single,
    C: Fn(Single) -> Single,
 {
    exists|hash: Single, taps: Seq<(Single, Single)>|
        #[trigger] spiral_of(coverage_at, sin, cos, sample, blur, seed, bias, hash, taps) && out
            == tap_average(taps)
}

/// The coverage around `sample_px`, averaged over the taps of a spiral of
/// radius `blur_px` whose origin is moved by `bias_px`.
///
/// `coverage_at` gives the straight alpha and the color scale at a point.
pub fn aqua_blurred_coverage_cpu<F, S, C>(
    coverage_at: F,
    sample_px: (Single, Single),
    blur_px: Single,
    seed: Single,
    bias_px: (Single, Single),
    sin: &S,
    cos: &C,
) -> (r: (Single, Single)) where
    F: Fn(Single, Single) -> (Single, Single),
    S: Fn(Single) -> Single,
    C: Fn(Single) -> Single,

    requires
        covers(coverage_at),
        takes_angles(*sin),
        takes_angles(*cos),
    ensures
        blurs(coverage_at, *sin, *cos, sample_px, blur_px, seed, bias_px, r),
{
    let hash = aqua_hash21(sample_px.0, sample_px.1, sin);
    let golden = Single::from_bits(AQUA_GOLDEN_ANGLE);
    let start = seed.times(golden).times(Single::from_bits(SEED_TURNS)).plus(
        hash.times(Single::from_bits(AQUA_TAU)),
    );
    let cx = sample_px.0.plus(bias_px.0);
    let cy = sample_px.1.plus(bias_px.1);
    let count = Single::from_u32(AQUA_BLUR_TAPS);
    let mut taps: Vec<(Single, Single)> = Vec::new();
    let mut k: u32 = 0;
    while k < AQUA_BLUR_TAPS
        invariant
            k <= AQUA_BLUR_TAPS,
            covers(coverage_at),
            takes_angles(*sin),
            takes_angles(*cos),
            golden.bits == AQUA_GOLDEN_ANGLE,
            start == spiral_start(seed, hash),
            cx == sum(sample_px.0, bias_px.0),
            cy == sum(sample_px.1, bias_px.1),
            count == whole(AQUA_BLUR_TAPS as nat),
            taps@.len() == k,
            forall|j: int|
                0 <= j < k ==> taps_at(
                    coverage_at,
                    *sin,
                    *cos,
                    sample_px,
                    blur_px,
                    bias_px,
                    start,
                    j as nat,
                    #[trigger] taps@[j],
                ),
        decreases AQUA_BLUR_TAPS - k,
    {
        let kf = Single::from_u32(k);
        let distance = blur_px.times(kf.plus(Single::from_bits(HALF)).over(count).sqrt());
        let angle = start.plus(kf.times(golden));
        let c = cos(angle);
        let s = sin(angle);
        let tap = coverage_at(cx.plus(c.times(distance)), cy.plus(s.times(distance)));
        assert(call_ensures(*cos, (tap_angle(start, k as nat),), c));
        assert(call_ensures(*sin, (tap_angle(start, k as nat),), s));
        assert(taps_at(
            coverage_at,
            *sin,
            *cos,
            sample_px,
            blur_px,
            bias_px,
            start,
            k as nat,
            tap,
        ));
        taps.push(tap);
        k = k + 1;
    }
    let r = aqua_average_taps(&taps);
    assert(spiral_of(
        coverage_at,
        *sin,
        *cos,
        sample_px,
        blur_px,
        seed,
        bias_px,
        hash,
        taps@,
    ));
    r
}

/// The luma of a color.
pub open spec fn luma_of(rgb: [Single; 3]) -> Single {
    sum(
        sum(
            product(rgb[0], Single { bits: LUMA_RED }),
            product(rgb[1], Single { bits: LUMA_GREEN }),
        ),
        product(rgb[2], Single { bits: LUMA_BLUE }),
    )
}

/// By how much the halo multiplies the distance of a color from its luma.
pub open spec fn halo_gain(cov: Single, halo: Single) -> Single {
    sum(
        Single { bits: ONE },
        product(
            product(halo, Single { bits: HALO_SAT_GAIN }),
            smooth_step(Single { bits: EDGE_INNER }, Single { bits: EDGE_OUTER }, cov),
        ),
    )
}

/// A channel moved away from the luma, within `0..=1`.
pub open spec fn spread(c: Single, luma: Single, gain: Single) -> Single {
    unit_interval(sum(luma, product(difference(c, luma), gain)))
}

/// The part of the way that bloom moves a color towards white.
pub open spec fn bloom_amount(cov: Single, bloom: Single) -> Single {
    product(
        product(bloom, Single { bits: BLOOM_MAX }),
        smooth_step(Single { bits: CENTER_OUTER }, Single { bits: HALF }, cov),
    )
}

/// A channel moved towards white.
pub open spec fn bloomed(c: Single, t: Single) -> Single {
    sum(product(c, difference(Single { bits: ONE }, t)), t)
}

/// The color after the halo.
pub open spec fn with_halo(rgb: [Single; 3], cov: Single, halo: Single) -> [Single; 3] {
    if below(Single { bits: ZERO }, halo) {
        let luma = luma_of(rgb);
        let gain = halo_gain(cov, halo);
        [spread(rgb[0], luma, gain), spread(rgb[1], luma, gain), spread(rgb[2], luma, gain)]
    } else {
        rgb
    }
}

/// The color after the bloom.
pub open spec fn with_bloom(rgb: [Single; 3], cov: Single, bloom: Single) -> [Single; 3] {
    if below(Single { bits: ZERO }, bloom) {
        let t = bloom_amount(cov, bloom);
        [bloomed(rgb[0], t), bloomed(rgb[1], t), bloomed(rgb[2], t)]
    } else {
        rgb
    }
}

fn spread_channel(c: Single, luma: Single, gain: Single) -> (r: Single)
    ensures
        r == spread(c, luma, gain),
{
    clamp_unit(luma.plus(c.minus(luma).times(gain)))
}

fn bloom_channel(c: Single, t: Single) -> (r: Single)
    ensures
        r == bloomed(c, t),
{
    c.times(Single::from_bits(ONE).minus(t)).plus(t)
}

/// The color character of a blurred primitive: `color`, a straight RGB color,
/// with its saturation raised towards the edge of the coverage by `halo`, then
/// moved towards white in the interior by `bloom`. An axis at zero does
/// nothing.
pub fn aqua_character_cpu(
    color: [Single; 3],
    cov_a: Single,
    bloom: Single,
    halo: Single,
) -> (r: [Single; 3])
    ensures
        r == with_bloom(with_halo(color, cov_a, halo), cov_a, bloom),
{
    let mut rgb = color;
    if Single::from_bits(ZERO).less_than(halo) {
        let edgeness = aqua_smoothstep(
            Single::from_bits(EDGE_INNER),
            Single::from_bits(EDGE_OUTER),
            cov_a,
        );
        let luma = rgb[0].times(Single::from_bits(LUMA_RED)).plus(
            rgb[1].times(Single::from_bits(LUMA_GREEN)),
        ).plus(rgb[2].times(Single::from_bits(LUMA_BLUE)));
        let gain = Single::from_bits(ONE).plus(
            halo.times(Single::from_bits(HALO_SAT_GAIN)).times(edgeness),
        );
        rgb = [
            spread_channel(rgb[0], luma, gain),
            spread_channel(rgb[1], luma, gain),
            spread_channel(rgb[2], luma, gain),
        ];
    }
    if Single::from_bits(ZERO).less_than(bloom) {
        let centerness = aqua_smoothstep(
            Single::from_bits(CENTER_OUTER),
            Single::from_bits(HALF),
            cov_a,
        );
        let t = bloom.times(Single::from_bits(BLOOM_MAX)).times(centerness);
        rgb = [bloom_channel(rgb[0], t), bloom_channel(rgb[1], t), bloom_channel(rgb[2], t)];
    }
    rgb
}

} // verus!
