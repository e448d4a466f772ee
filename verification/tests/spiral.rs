use aquarelle::shader::AQUA_BLEED_WGSL;
use aquarelle::single::Single;
use aquarelle::spiral::{
    aqua_average_taps, aqua_blurred_coverage_cpu, aqua_character_cpu, aqua_hash21,
    aqua_hash_of_sine, aqua_hash_phase, aqua_seed_dir_cpu, aqua_smoothstep, SpiralBleedParams,
    AMPLITUDE, AQUA_BLUR_TAPS, AQUA_GOLDEN_ANGLE, AQUA_OFFSET_BIAS, AQUA_TAU, BLOOM_MAX,
    CENTER_OUTER, EDGE_INNER, EDGE_OUTER, HALO_SAT_GAIN, LUMA_BLUE, LUMA_GREEN, LUMA_RED, PHASE_X,
    PHASE_Y, SEED_TURNS, SEED_X, SEED_Y, SEED_Y_START,
};

fn s(x: f32) -> Single {
    Single::from_bits(x.to_bits())
}

fn f(x: Single) -> f32 {
    f32::from_bits(x.to_bits())
}

fn sin(x: Single) -> Single {
    s(f(x).sin())
}

fn cos(x: Single) -> Single {
    s(f(x).cos())
}

fn blurred(
    coverage_at: impl Fn(f32, f32) -> (f32, f32),
    sample_px: (f32, f32),
    blur_px: f32,
    seed: f32,
    bias_px: (f32, f32),
) -> (f32, f32) {
    let (a, scale) = aqua_blurred_coverage_cpu(
        |x: Single, y: Single| {
            let (a, scale) = coverage_at(f(x), f(y));
            (s(a), s(scale))
        },
        (s(sample_px.0), s(sample_px.1)),
        s(blur_px),
        s(seed),
        (s(bias_px.0), s(bias_px.1)),
        &sin,
        &cos,
    );
    (f(a), f(scale))
}

fn character(color: [f32; 3], cov_a: f32, bloom: f32, halo: f32) -> [f32; 3] {
    aqua_character_cpu(color.map(s), s(cov_a), s(bloom), s(halo)).map(f)
}

#[test]
fn wgsl_fragment_exposes_expected_symbols() {
    assert!(AQUA_BLEED_WGSL.contains("fn blurred_coverage"));
    assert!(AQUA_BLEED_WGSL.contains("fn aqua_character"));
    assert!(AQUA_BLEED_WGSL.contains("fn aqua_seed_dir"));
    assert!(AQUA_BLEED_WGSL.contains("AQUA_BLUR_TAPS"));
}

#[test]
fn wgsl_fragment_has_the_constants() {
    for text in [
        "AQUA_BLUR_TAPS: u32 = 48u",
        "AQUA_GOLDEN_ANGLE: f32 = 2.39996323",
        "BLOOM_MAX: f32 = 0.45",
        "HALO_SAT_GAIN: f32 = 0.6",
        "AQUA_OFFSET_BIAS: f32 = 0.6",
    ] {
        assert!(AQUA_BLEED_WGSL.contains(text), "{}", text);
    }
}

#[test]
fn wgsl_fragment_opens_with_what_it_needs() {
    let head: Vec<&str> =
        AQUA_BLEED_WGSL.lines().take_while(|line| line.starts_with("//")).collect();
    let head = head.join("\n");
    for text in [
        "const TAU: f32 = 6.28318530718;",
        "fn hash21(p: vec2<f32>) -> f32",
        "fn clampf(x: f32, low: f32, high: f32) -> f32",
        "fn coverage_at(p: vec2<f32>) -> vec2<f32>",
    ] {
        assert!(head.contains(text), "{}", text);
    }
    let code: String = AQUA_BLEED_WGSL.lines().skip(head.lines().count()).collect();
    for name in ["TAU", "hash21(", "clampf(", "coverage_at("] {
        assert!(code.contains(name), "{}", name);
    }
}

#[test]
fn cpu_consts_match_documented_values() {
    assert_eq!(AQUA_BLUR_TAPS, 48);
    assert_eq!(f32::from_bits(BLOOM_MAX), 0.45);
    assert_eq!(f32::from_bits(HALO_SAT_GAIN), 0.6);
    assert_eq!(f32::from_bits(AQUA_OFFSET_BIAS), 0.6);
    let golden = std::f32::consts::PI * (3.0 - 5.0_f32.sqrt());
    assert!(
        (f32::from_bits(AQUA_GOLDEN_ANGLE) - golden).abs() < 1e-5,
        "golden angle {} vs {}",
        f32::from_bits(AQUA_GOLDEN_ANGLE),
        golden
    );
    assert_eq!(f32::from_bits(AQUA_TAU), std::f32::consts::TAU);
}

#[test]
fn blur_zero_is_single_tap_identity() {
    let sampler = |x: f32, y: f32| ((x * 0.01 + y * 0.02).rem_euclid(1.0), 0.7);
    let expected = sampler(10.0, 20.0);
    let got = blurred(sampler, (10.0, 20.0), 0.0, 3.0, (0.0, 0.0));
    assert!((got.0 - expected.0).abs() < 1e-6, "alpha {} vs {}", got.0, expected.0);
    assert!((got.1 - expected.1).abs() < 1e-6, "scale {} vs {}", got.1, expected.1);
}

#[test]
fn constant_coverage_averages_to_constant() {
    let got = blurred(|_, _| (0.4, 0.6), (5.0, 5.0), 8.0, 1.0, (0.0, 0.0));
    assert!((got.0 - 0.4).abs() < 1e-6, "alpha {}", got.0);
    assert!((got.1 - 0.6).abs() < 1e-6, "scale {}", got.1);
}

#[test]
fn zero_alpha_coverage_keeps_unit_scale() {
    let got = blurred(|_, _| (0.0, 0.5), (5.0, 5.0), 8.0, 1.0, (0.0, 0.0));
    assert_eq!(got.0, 0.0);
    assert_eq!(got.1, 1.0);
}

#[test]
fn character_identity_when_axes_off() {
    let c = [0.2, 0.6, 0.9];
    assert_eq!(character(c, 0.3, 0.0, 0.0), c);
}

#[test]
fn halo_increases_saturation_at_edge() {
    let c = [0.8, 0.2, 0.2];
    let cov_a = 0.2;
    let luma = c[0] * 0.299 + c[1] * 0.587 + c[2] * 0.114;
    let sat = |v: [f32; 3]| (v[0] - luma).abs() + (v[1] - luma).abs() + (v[2] - luma).abs();
    let base = character(c, cov_a, 0.0, 0.0);
    let haloed = character(c, cov_a, 0.0, 1.0);
    assert!(
        sat(haloed) > sat(base),
        "halo should boost saturation: {} vs {}",
        sat(haloed),
        sat(base)
    );
}

#[test]
fn bloom_moves_toward_white_in_interior() {
    let c = [0.2, 0.3, 0.4];
    let cov_a = 0.5;
    let base = character(c, cov_a, 0.0, 0.0);
    let bloomed = character(c, cov_a, 1.0, 0.0);
    for i in 0..3 {
        assert!(
            bloomed[i] > base[i],
            "bloom channel {} should rise toward white: {} vs {}",
            i,
            bloomed[i],
            base[i]
        );
    }
}

#[test]
fn seed_dir_is_unit_vector() {
    for &seed in &[0.0f32, 0.3, 1.0, 7.5, 42.0] {
        let (dx, dy) = aqua_seed_dir_cpu(s(seed), &sin, &cos);
        let (dx, dy) = (f(dx), f(dy));
        let len = (dx * dx + dy * dy).sqrt();
        assert!((len - 1.0).abs() < 1e-5, "seed {} → len {}", seed, len);
    }
}

#[test]
fn spiral_constants_have_their_values() {
    assert_eq!(AQUA_GOLDEN_ANGLE, 2.39996323f32.to_bits());
    assert_eq!(f32::from_bits(SEED_TURNS), 7.0);
    assert_eq!(f32::from_bits(PHASE_X), 127.1);
    assert_eq!(f32::from_bits(PHASE_Y), 311.7);
    assert_eq!(AMPLITUDE, 43758.5453123f32.to_bits());
    assert_eq!(f32::from_bits(SEED_X), 12.9898);
    assert_eq!(f32::from_bits(SEED_Y), 78.233);
    assert_eq!(f32::from_bits(SEED_Y_START), 4.1);
    assert_eq!(f32::from_bits(LUMA_RED), 0.299);
    assert_eq!(f32::from_bits(LUMA_GREEN), 0.587);
    assert_eq!(f32::from_bits(LUMA_BLUE), 0.114);
    assert_eq!(f32::from_bits(EDGE_INNER), 0.45);
    assert_eq!(f32::from_bits(EDGE_OUTER), 0.05);
    assert_eq!(f32::from_bits(CENTER_OUTER), 0.18);
}

#[test]
fn spiral_params_default_to_no_bleed() {
    let d = SpiralBleedParams::default();
    assert_eq!(f(d.bleed), 0.0);
    assert_eq!(f(d.bloom), 0.0);
    assert_eq!(f(d.halo), 0.0);
    assert_eq!(f(d.offset), 0.0);
}

#[test]
fn spiral_params_are_equal_by_value() {
    let d = SpiralBleedParams::default();
    assert!(d == SpiralBleedParams { bleed: s(-0.0), ..d });
    assert!(d != SpiralBleedParams { bloom: s(0.1), ..d });
    let bad = SpiralBleedParams { halo: s(f32::NAN), ..d };
    assert!(bad != bad);
}

fn step_of_floats(edge0: f32, edge1: f32, x: f32) -> f32 {
    let t = ((x - edge0) / (edge1 - edge0)).clamp(0.0, 1.0);
    t * t * (3.0 - 2.0 * t)
}

#[test]
fn the_smooth_step_has_its_ends() {
    for (a, b) in [(0.45f32, 0.05f32), (0.18, 0.5), (-3.0, 7.0), (2.0, 1.0)] {
        let step = |x: f32| f(aqua_smoothstep(s(a), s(b), s(x)));
        assert_eq!(step(a), 0.0);
        assert_eq!(step(b), 1.0);
        assert_eq!(step(a - (b - a)), 0.0);
        assert_eq!(step(b + (b - a)), 1.0);
        for k in 0..50 {
            let x = a + (b - a) * k as f32 / 49.0;
            assert_eq!(step(x).to_bits(), step_of_floats(a, b, x).to_bits());
        }
    }
}

fn hash_of_floats(x: f32, y: f32) -> f32 {
    let v = (x * 127.1 + y * 311.7).sin() * 43758.5453123;
    v - v.floor()
}

#[test]
fn the_hash_agrees_with_machine_floats() {
    for k in 0..200 {
        let (x, y) = (k as f32 * 1.37 - 90.0, k as f32 * -0.71 + 3.0);
        let h = f(aqua_hash21(s(x), s(y), &sin));
        assert_eq!(h.to_bits(), hash_of_floats(x, y).to_bits());
        assert!((0.0..=1.0).contains(&h));
        assert_eq!(f(aqua_hash_phase(s(x), s(y))), x * 127.1 + y * 311.7);
    }
}

#[test]
fn the_hash_of_any_sine_is_a_part() {
    assert_eq!(f(aqua_hash_of_sine(s(0.0))), 0.0);
    assert_eq!(f(aqua_hash_of_sine(s(-1e-20))), 1.0);
    for k in -500..=500 {
        let h = f(aqua_hash_of_sine(s(k as f32 / 500.0)));
        assert!((0.0..=1.0).contains(&h));
    }
}

#[test]
fn the_seed_direction_agrees_with_machine_floats() {
    for &seed in &[0.0f32, 0.3, 1.0, 7.5, 42.0, -3.25] {
        let a = hash_of_floats(seed * 12.9898, seed * 78.233 + 4.1) * std::f32::consts::TAU;
        let (x, y) = aqua_seed_dir_cpu(s(seed), &sin, &cos);
        assert_eq!(x.to_bits(), a.cos().to_bits());
        assert_eq!(y.to_bits(), a.sin().to_bits());
    }
}

#[test]
fn the_blur_agrees_with_machine_floats() {
    let cover = |x: f32, y: f32| ((x * 0.03 - y * 0.02).sin().abs(), 0.5 + (y * 0.1).cos() * 0.4);
    for k in 0..20 {
        let sample = (k as f32 * 3.3, 40.0 - k as f32);
        let (blur, seed, bias) = (k as f32 * 0.7, k as f32 * 1.1 - 4.0, (0.3, -k as f32));
        let nf = 48.0f32;
        let ang0 = seed * 2.39996323 * 7.0
            + hash_of_floats(sample.0, sample.1) * std::f32::consts::TAU;
        let (cx, cy) = (sample.0 + bias.0, sample.1 + bias.1);
        let (mut sum_a, mut sum_scaled) = (0.0f32, 0.0f32);
        for t in 0..48 {
            let kf = t as f32;
            let rr = blur * ((kf + 0.5) / nf).sqrt();
            let th = ang0 + kf * 2.39996323;
            let (a, scale) = cover(cx + th.cos() * rr, cy + th.sin() * rr);
            sum_a += a;
            sum_scaled += a * scale;
        }
        let want = (sum_a / nf, if sum_a > 0.0 { sum_scaled / sum_a } else { 1.0 });
        let got = blurred(cover, sample, blur, seed, bias);
        assert_eq!(got.0.to_bits(), want.0.to_bits());
        assert_eq!(got.1.to_bits(), want.1.to_bits());
    }
}

#[test]
fn the_character_agrees_with_machine_floats() {
    for k in 0..60 {
        let t = k as f32 / 59.0;
        let color = [t, 1.0 - t, (t * 7.0).fract()];
        let (cov, bloom, halo) = (1.0 - t * 0.9, t, 1.0 - t * 0.5);
        let mut rgb = color;
        if halo > 0.0 {
            let edgeness = step_of_floats(0.45, 0.05, cov);
            let luma = rgb[0] * 0.299 + rgb[1] * 0.587 + rgb[2] * 0.114;
            let gain = 1.0 + halo * 0.6 * edgeness;
            rgb = rgb.map(|c| (luma + (c - luma) * gain).clamp(0.0, 1.0));
        }
        if bloom > 0.0 {
            let t = bloom * 0.45 * step_of_floats(0.18, 0.5, cov);
            rgb = rgb.map(|c| c * (1.0 - t) + t);
        }
        let got = character(color, cov, bloom, halo);
        for i in 0..3 {
            assert_eq!(got[i].to_bits(), rgb[i].to_bits());
        }
    }
}

#[test]
fn full_coverage_stays_full() {
    for alpha in [1.0f32, 0.5, 0.375, 0.0] {
        let got = blurred(|_, _| (alpha, 0.25), (5.0, 5.0), 80.0, 1.0, (3.0, 4.0));
        assert_eq!(got.0, alpha);
    }
}

#[test]
fn uniform_coverage_stays_within_the_bound() {
    for k in 1..400 {
        let (a, scale) = (k as f32 / 399.0, 1.3 - k as f32 / 399.0);
        let got = blurred(|_, _| (a, scale), (1.0, 2.0), 3.0, 4.0, (0.0, 0.0));
        let step = 2.0f64.powi(-24);
        assert!((got.0 as f64 - a as f64).abs() <= 26.0 * step * a as f64);
        assert!((got.1 as f64 - scale as f64).abs() <= 52.0 * step * scale as f64);
    }
}

#[test]
fn no_blur_takes_every_tap_at_the_sample() {
    let cover = |x: f32, y: f32| {
        assert_eq!((x, y), (10.5, -20.25));
        (0.75, 0.5)
    };
    let got = blurred(cover, (10.5, -20.25), 0.0, 3.0, (0.0, 0.0));
    assert_eq!(got, (0.75, 0.5));
}

#[test]
fn taps_without_alpha_keep_a_scale_of_one() {
    let taps: Vec<(Single, Single)> = (0..48).map(|k| (s(0.0), s(k as f32))).collect();
    let (a, scale) = aqua_average_taps(&taps);
    assert_eq!((f(a), f(scale)), (0.0, 1.0));
    let half: Vec<(Single, Single)> =
        (0..48).map(|k| (s(if k % 2 == 0 { 1.0 } else { 0.0 }), s(0.25))).collect();
    let (a, scale) = aqua_average_taps(&half);
    assert_eq!((f(a), f(scale)), (0.5, 0.25));
}

#[test]
fn one_blur_gives_one_answer() {
    let cover = |x: f32, y: f32| ((x * y).sin().abs(), 0.5);
    let a = blurred(cover, (1.5, 2.5), 6.0, 0.4, (0.1, 0.2));
    let b = blurred(cover, (1.5, 2.5), 6.0, 0.4, (0.1, 0.2));
    assert_eq!(a, b);
}

#[test]
fn the_halo_keeps_colors_in_range() {
    for k in 0..=100 {
        let t = k as f32 / 100.0;
        for c in character([t, 1.0 - t, t * t], t * 0.5, 0.0, 1.0) {
            assert!((0.0..=1.0).contains(&c));
        }
    }
}

#[test]
fn a_scale_of_zero_stays_zero() {
    for alpha in [1.0f32, 0.3, 1e-30, 1e-44] {
        let got = blurred(|_, _| (alpha, 0.0), (5.0, 5.0), 8.0, 1.0, (0.0, 0.0));
        assert_eq!(got.1, 0.0);
    }
}

#[test]
fn the_smooth_step_is_flat_beyond_its_edges() {
    for (a, b) in [(0.18f32, 0.5f32), (-3.0, 7.0), (1e-44, 2e-44), (-1e38, 1e38)] {
        let step = |p: f32, q: f32, x: f32| f(aqua_smoothstep(s(p), s(q), s(x)));
        for x in [a, a - 1.0, -f32::MAX] {
            assert_eq!(step(a, b, x), 0.0);
            assert_eq!(step(b, a, x), 1.0);
        }
        for x in [b, b + 1.0, f32::MAX] {
            assert_eq!(step(a, b, x), 1.0);
            assert_eq!(step(b, a, x), 0.0);
        }
    }
}

#[test]
fn the_smooth_step_is_a_part() {
    for k in 0..4000u32 {
        let near_one = f32::from_bits(0x3F80_0000 - k);
        for x in [near_one, k as f32 / 3999.0, f32::from_bits(k * 262_144)] {
            let step = f(aqua_smoothstep(s(0.0), s(1.0), s(x)));
            assert!((0.0..=1.0).contains(&step), "{x} gives {step}");
        }
    }
}

#[test]
fn the_character_of_a_color_is_a_color() {
    for k in 0..=300u32 {
        let t = k as f32 / 300.0;
        for (bloom, halo) in [(1.0f32, 0.0f32), (1.0, 1.0), (t, 1.0 - t)] {
            for cov in [0.0, t, 0.3, 0.5, 1.0, 7.0, -2.0] {
                for c in character([t, 1.0 - t, 1.0], cov, bloom, halo) {
                    assert!((0.0..=1.0).contains(&c), "{c} at {cov}");
                }
            }
        }
    }
}

#[test]
fn the_outskirts_do_not_bloom() {
    for k in 0..=100u32 {
        let cov = 0.18 * k as f32 / 100.0;
        let c = [k as f32 / 100.0, 0.3, 4.5];
        for halo in [0.0f32, -1.0, f32::NAN] {
            assert_eq!(character(c, cov, 1.0, halo), c);
        }
    }
    assert_ne!(character([0.2, 0.3, 0.4], 0.19, 1.0, 0.0), [0.2, 0.3, 0.4]);
}

#[test]
fn hashes_of_opposite_points_add_up_to_one() {
    assert_eq!(f(aqua_hash21(s(0.0), s(0.0), &sin)), 0.0);
    assert_eq!(f(aqua_hash21(s(-0.0), s(0.0), &sin)), 0.0);
    for k in 1..500u32 {
        let (x, y) = (k as f32 * 0.73 - 50.0, k as f32 * -0.19 + 8.0);
        let h = f(aqua_hash21(s(x), s(y), &sin)) as f64;
        let o = f(aqua_hash21(s(-x), s(-y), &sin)) as f64;
        let both_zero = h == 0.0 && o == 0.0;
        assert!(both_zero || (h + o - 1.0).abs() <= 2.0f64.powi(-24), "{h} and {o}");
    }
}

#[test]
fn bloom_mixes_channels_with_white() {
    for k in 0..=200u32 {
        let c = k as f32 / 200.0;
        for bloom in [0.1f32, 0.5, 1.0] {
            let t = (bloom * 0.45) as f64;
            let got = character([c, c, c], 0.9, bloom, 0.0)[0] as f64;
            let mixed = c as f64 * (1.0 - t) + t;
            assert!((got - mixed).abs() <= 1.5 * 2.0f64.powi(-24));
            if c < 0.99 {
                assert!(got > c as f64);
            }
        }
    }
}

#[test]
fn a_stronger_halo_saturates_more() {
    for k in 0..=50u32 {
        let color = [k as f32 / 50.0, 0.4, 1.0 - k as f32 / 70.0];
        let luma = color[0] * 0.299 + color[1] * 0.587 + color[2] * 0.114;
        for cov in [0.05f32, 0.2, 0.44] {
            let mut before = character(color, cov, 0.0, 0.01);
            for step in 2..=100u32 {
                let after = character(color, cov, 0.0, step as f32 / 100.0);
                for i in 0..3 {
                    if color[i] >= luma {
                        assert!(after[i] >= before[i]);
                    } else {
                        assert!(after[i] <= before[i]);
                    }
                }
                before = after;
            }
        }
    }
}

#[test]
fn taps_lie_in_the_disk() {
    for k in 0..20u32 {
        let (sample, blur) = ((k as f32, -3.5), k as f32 * 0.75);
        let cover = |x: f32, y: f32| {
            let (dx, dy) = ((x - sample.0) as f64, (y - sample.1) as f64);
            assert!((dx * dx + dy * dy).sqrt() <= blur as f64 * 1.000001 + 1e-5);
            (0.5, 0.5)
        };
        blurred(cover, sample, blur, k as f32 * 0.3, (0.0, 0.0));
    }
}

#[test]
fn coverage_in_range_stays_in_range() {
    for k in 0..40u32 {
        let cover = |x: f32, y: f32| ((x * 1.7 + y).sin().abs(), (x - y * 2.3).cos().abs());
        let (a, scale) = blurred(cover, (k as f32, 1.0), k as f32, 0.7, (0.1, 0.2));
        assert!((0.0..=1.0).contains(&a) && (0.0..=1.0).contains(&scale));
    }
    let full = blurred(|_, _| (1.0, 1.0), (3.0, 1.0), 5.0, 0.7, (0.0, 0.0));
    assert_eq!(full, (1.0, 1.0));
}
