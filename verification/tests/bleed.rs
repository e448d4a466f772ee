use aquarelle::bleed::{
    apply_grain, blend_layers, blur_three_times, boost_saturation_buffer, box_radius_of,
    draw_grain, premultiply_color, render_aquarelle_bleed_pass, straight_color,
    AquarelleBleedParams, BOX_RATIO, GRAIN_DEPTH, HALO_GAIN, MILD_HALO,
};
use aquarelle::color::boost_saturation;
use aquarelle::single::Single;
use palette::{FromColor, Hsl, IntoColor, Srgb};
use rand::{Rng, SeedableRng};
use rand_chacha::ChaCha8Rng;
use tiny_skia::{Color, FillRule, PathBuilder, Pixmap, PixmapRef, Transform};

fn s(x: f32) -> Single {
    Single::from_bits(x.to_bits())
}

fn f(x: Single) -> f32 {
    f32::from_bits(x.to_bits())
}

fn to_hsl(c: [Single; 3]) -> [Single; 3] {
    let hsl: Hsl = Hsl::from_color(Srgb::new(f(c[0]), f(c[1]), f(c[2])));
    [s(hsl.hue.into_inner()), s(hsl.saturation), s(hsl.lightness)]
}

fn to_srgb(c: [Single; 3]) -> [Single; 3] {
    let hsl: Hsl = Hsl::new(f(c[0]), f(c[1]), f(c[2]));
    let out: Srgb = hsl.into_color();
    [s(out.red), s(out.green), s(out.blue)]
}

fn draw(state: ChaCha8Rng, low: Single, high: Single) -> (ChaCha8Rng, Single) {
    let mut state = state;
    let value: f32 = state.gen_range(f(low)..=f(high));
    (state, s(value))
}

fn params(radius: f32, intensity: f32, halo: f32) -> AquarelleBleedParams {
    AquarelleBleedParams { radius: s(radius), intensity: s(intensity), halo: s(halo) }
}

fn bleed(pixmap: &mut Pixmap, params: AquarelleBleedParams, seed: u64) {
    render_aquarelle_bleed_pass(pixmap, params, seed, &draw, &to_hsl, &to_srgb);
}

fn fresh_white(w: u32, h: u32) -> Pixmap {
    let mut p = Pixmap::new(w, h).expect("pixmap");
    p.fill(Color::from_rgba8(255, 255, 255, 255));
    p
}

fn draw_black_dot(pix: &mut Pixmap, cx: f32, cy: f32, r: f32) {
    let mut paint = tiny_skia::Paint::default();
    paint.set_color_rgba8(0, 0, 0, 255);
    let mut pb = PathBuilder::new();
    pb.push_circle(cx, cy, r);
    let path = pb.finish().expect("path");
    pix.fill_path(&path, &paint, FillRule::Winding, Transform::identity(), None);
}

#[test]
fn bleed_pass_zero_radius_is_noop() {
    let mut pix = fresh_white(32, 32);
    draw_black_dot(&mut pix, 16.0, 16.0, 4.0);
    let snapshot = pix.data().to_vec();
    bleed(
        &mut pix,
        AquarelleBleedParams { radius: s(0.0), ..AquarelleBleedParams::default() },
        42,
    );
    assert_eq!(pix.data(), &snapshot[..]);
}

#[test]
fn bleed_pass_zero_intensity_is_noop() {
    let mut pix = fresh_white(32, 32);
    draw_black_dot(&mut pix, 16.0, 16.0, 4.0);
    let snapshot = pix.data().to_vec();
    bleed(
        &mut pix,
        AquarelleBleedParams { intensity: s(0.0), ..AquarelleBleedParams::default() },
        42,
    );
    assert_eq!(pix.data(), &snapshot[..]);
}

#[test]
fn bleed_pass_changes_surrounding_pixels() {
    let mut pix = fresh_white(64, 64);
    draw_black_dot(&mut pix, 32.0, 32.0, 3.0);
    let before = pix.pixel(32, 38).expect("pixel");
    bleed(&mut pix, AquarelleBleedParams::default(), 42);
    let after = pix.pixel(32, 38).expect("pixel");
    assert!(
        after.red() < before.red(),
        "halo should darken nearby pixel: before={} after={}",
        before.red(),
        after.red()
    );
}

#[test]
fn bleed_pass_is_deterministic() {
    let mut a = fresh_white(48, 48);
    let mut b = fresh_white(48, 48);
    draw_black_dot(&mut a, 24.0, 24.0, 3.0);
    draw_black_dot(&mut b, 24.0, 24.0, 3.0);
    bleed(&mut a, AquarelleBleedParams::default(), 12345);
    bleed(&mut b, AquarelleBleedParams::default(), 12345);
    assert_eq!(a.data(), b.data());
}

#[test]
fn bleed_params_clamped_caps_out_of_range() {
    let p = params(-1.0, 2.0, -0.5).clamped();
    assert_eq!(f(p.radius), 0.0);
    assert_eq!(f(p.intensity), 1.0);
    assert_eq!(f(p.halo), 0.0);
}

#[test]
fn bleed_pass_default_values_match_spec() {
    let d = AquarelleBleedParams::default();
    assert_eq!(f(d.radius), 3.0);
    assert_eq!(f(d.intensity), 0.5);
    assert_eq!(f(d.halo), 0.3);
}

#[test]
fn bleed_pass_uniform_input_is_invariant() {
    let mut pix = Pixmap::new(32, 32).expect("pixmap");
    pix.fill(Color::from_rgba8(128, 64, 32, 255));
    let before = pix.data().to_vec();
    bleed(&mut pix, params(3.0, 1.0, 0.0), 0);
    let after = pix.data();
    for (b, a) in before.chunks_exact(4).zip(after.chunks_exact(4)) {
        for i in 0..4 {
            let diff = (b[i] as i32 - a[i] as i32).abs();
            assert!(
                diff <= 26,
                "uniform input should stay close: channel {i} before={} after={} diff={}",
                b[i],
                a[i],
                diff
            );
        }
    }
}

fn render_at_intensity(intensity: f32) -> u8 {
    let mut pix = fresh_white(64, 64);
    draw_black_dot(&mut pix, 32.0, 32.0, 0.5);
    bleed(&mut pix, params(3.0, intensity, 0.5), 42);
    pix.pixel(34, 32).expect("pixel").red()
}

#[test]
fn bleed_pass_intensity_monotonic() {
    let r0 = render_at_intensity(0.0);
    let r05 = render_at_intensity(0.5);
    let r1 = render_at_intensity(1.0);
    assert!(
        r0 >= r05 && r05 >= r1,
        "red should decrease monotonically: r0={r0} r05={r05} r1={r1}"
    );
}

#[test]
fn bleed_pass_halo_changes_output() {
    let mut a = fresh_white(64, 64);
    draw_black_dot(&mut a, 32.0, 32.0, 3.0);
    let mut paint = tiny_skia::Paint::default();
    paint.set_color_rgba8(200, 50, 50, 255);
    let mut pb = PathBuilder::new();
    pb.push_circle(32.0, 32.0, 3.0);
    let path = pb.finish().expect("path");
    a.fill_path(&path, &paint, FillRule::Winding, Transform::identity(), None);
    let mut b = a.clone();
    bleed(&mut a, params(3.0, 0.5, 0.0), 42);
    bleed(&mut b, params(3.0, 0.5, 1.0), 42);
    assert_ne!(a.data(), b.data(), "halo=0 and halo=1 should produce different output");
}

#[test]
fn bleed_pass_different_seeds_differ() {
    let mut a = fresh_white(64, 64);
    let mut b = fresh_white(64, 64);
    draw_black_dot(&mut a, 32.0, 32.0, 3.0);
    draw_black_dot(&mut b, 32.0, 32.0, 3.0);
    bleed(&mut a, AquarelleBleedParams::default(), 1);
    bleed(&mut b, AquarelleBleedParams::default(), 2);
    assert_ne!(a.data(), b.data(), "different seeds should perturb noise");
}

#[test]
fn bleed_pass_seed_irrelevant_when_intensity_zero() {
    let mut a = fresh_white(48, 48);
    let mut b = fresh_white(48, 48);
    draw_black_dot(&mut a, 24.0, 24.0, 3.0);
    draw_black_dot(&mut b, 24.0, 24.0, 3.0);
    let params = AquarelleBleedParams { intensity: s(0.0), ..AquarelleBleedParams::default() };
    bleed(&mut a, params, 1);
    bleed(&mut b, params, 99999);
    assert_eq!(
        a.data(),
        b.data(),
        "intensity=0 must short-circuit before seed is consumed"
    );
}

#[test]
fn bleed_pass_tall_pixmap_does_not_panic() {
    let mut pix = Pixmap::new(1, 100).expect("pixmap");
    pix.fill(Color::from_rgba8(255, 255, 255, 255));
    bleed(&mut pix, AquarelleBleedParams::default(), 42);
}

#[test]
fn bleed_pass_wide_pixmap_does_not_panic() {
    let mut pix = Pixmap::new(100, 1).expect("pixmap");
    pix.fill(Color::from_rgba8(255, 255, 255, 255));
    bleed(&mut pix, AquarelleBleedParams::default(), 42);
}

#[test]
fn bleed_pass_1x1_pixmap_does_not_panic() {
    let mut pix = Pixmap::new(1, 1).expect("pixmap");
    pix.fill(Color::from_rgba8(255, 255, 255, 255));
    bleed(&mut pix, AquarelleBleedParams::default(), 42);
}

#[test]
fn bleed_pass_huge_radius_does_not_panic() {
    let mut pix = fresh_white(16, 16);
    draw_black_dot(&mut pix, 8.0, 8.0, 2.0);
    bleed(&mut pix, params(1000.0, 1.0, 0.0), 42);
    let data = pix.data();
    let mut max_r = 0u8;
    let mut min_r = 255u8;
    for px in data.chunks_exact(4) {
        max_r = max_r.max(px[0]);
        min_r = min_r.min(px[0]);
    }
    let spread = max_r as i32 - min_r as i32;
    assert!(
        spread <= 30,
        "huge radius should converge to near-uniform color, but red spread={spread}"
    );
}

#[test]
fn bleed_pass_fully_transparent_pixmap_does_not_panic() {
    let mut pix = Pixmap::new(32, 32).expect("pixmap");
    bleed(&mut pix, params(3.0, 0.5, 1.0), 42);
    for px in pix.data().chunks_exact(4) {
        assert_eq!(px[3], 0, "alpha must remain 0 on transparent input");
    }
}

#[test]
fn bleed_pass_repeated_application_is_stable() {
    let mut pix = fresh_white(64, 64);
    draw_black_dot(&mut pix, 32.0, 32.0, 3.0);
    bleed(&mut pix, AquarelleBleedParams::default(), 42);
    bleed(&mut pix, AquarelleBleedParams::default(), 42);
    let corner = pix.pixel(0, 0).expect("pixel");
    assert!(
        corner.red() > 200 && corner.green() > 200 && corner.blue() > 200,
        "far corner should stay near white after 2x bleed: r={} g={} b={}",
        corner.red(),
        corner.green(),
        corner.blue()
    );
}

#[test]
fn bleed_pass_negative_radius_is_noop() {
    let mut pix = fresh_white(32, 32);
    draw_black_dot(&mut pix, 16.0, 16.0, 4.0);
    let snapshot = pix.data().to_vec();
    bleed(&mut pix, params(-5.0, 0.5, 0.3), 42);
    assert_eq!(
        pix.data(),
        &snapshot[..],
        "negative radius should clamp to 0 and short-circuit"
    );
}

#[test]
fn bleed_pass_intensity_one_replaces_with_blurred() {
    let mut pix = fresh_white(64, 64);
    draw_black_dot(&mut pix, 32.0, 32.0, 3.0);
    bleed(&mut pix, params(3.0, 1.0, 0.0), 42);
    let center = pix.pixel(32, 32).expect("pixel");
    assert!(
        center.red() > 0,
        "center red should be lifted off zero by blurred white neighbors, got {}",
        center.red()
    );
}

fn colorful(w: u32, h: u32) -> Pixmap {
    let mut pix = Pixmap::new(w, h).expect("pixmap");
    let mut x: u32 = 99;
    for px in pix.data_mut().chunks_exact_mut(4) {
        x = x.wrapping_mul(1664525).wrapping_add(1013904223);
        let a = (x >> 24) as u8;
        px[3] = if a < 40 { 0 } else { a };
        for c in 0..3 {
            x = x.wrapping_mul(1664525).wrapping_add(1013904223);
            px[c] = ((x >> 24) as u8).min(px[3]);
        }
    }
    pix
}

fn line_means(buf: &mut [u8], start: usize, stride: usize, count: usize, radius: usize) {
    let line: Vec<u8> = (0..count).map(|k| buf[start + k * stride]).collect();
    let radius = radius.min(count - 1) as i64;
    let n = count as i64;
    for k in 0..n {
        let mut total = 0f32;
        for j in k - radius..=k + radius {
            total += line[j.clamp(0, n - 1) as usize] as f32;
        }
        let mean = total / (2 * radius + 1) as f32;
        buf[start + k as usize * stride] = mean.clamp(0.0, 255.0).round() as u8;
    }
}

fn pass_of_floats(pix: &mut Pixmap, radius: f32, intensity: f32, halo: f32, seed: u64) {
    let (w, h) = (pix.width() as usize, pix.height() as usize);
    let original = pix.data().to_vec();
    let mut layer = original.clone();
    let r = (radius * 1.15).round().max(1.0) as usize;
    for _ in 0..3 {
        for y in 0..h {
            for c in 0..4 {
                line_means(&mut layer, y * w * 4 + c, 4, w, r);
            }
        }
        for x in 0..w {
            for c in 0..4 {
                line_means(&mut layer, x * 4 + c, w * 4, h, r);
            }
        }
    }
    if halo > 0.0 {
        for px in layer.chunks_exact_mut(4) {
            if px[3] == 0 {
                continue;
            }
            let a = px[3] as f32 / 255.0;
            let part = |c: u8| ((c as f32 / 255.0) / a).clamp(0.0, 1.0);
            let mut hsl: Hsl = Hsl::from_color(Srgb::new(part(px[0]), part(px[1]), part(px[2])));
            hsl.saturation = (hsl.saturation * (1.0 + 0.6 * halo)).clamp(0.0, 1.0);
            let out: Srgb = hsl.into_color();
            for (c, v) in [out.red, out.green, out.blue].iter().enumerate() {
                px[c] = (v.clamp(0.0, 1.0) * a * 255.0).round() as u8;
            }
        }
    }
    let mut rng = ChaCha8Rng::seed_from_u64(seed);
    let depth = 0.1 * intensity;
    for px in layer.chunks_exact_mut(4) {
        let n = 1.0 + rng.gen_range(-1.0..=1.0_f32) * depth;
        for c in 0..3 {
            px[c] = ((px[c] as f32) * n).clamp(0.0, 255.0).round() as u8;
            px[c] = px[c].min(px[3]);
        }
    }
    for (d, (o, b)) in pix
        .data_mut()
        .chunks_exact_mut(4)
        .zip(original.chunks_exact(4).zip(layer.chunks_exact(4)))
    {
        for i in 0..4 {
            let v = (o[i] as f32) * (1.0 - intensity) + (b[i] as f32) * intensity;
            d[i] = v.clamp(0.0, 255.0).round() as u8;
        }
    }
}

#[test]
fn the_pass_agrees_with_machine_floats() {
    for (radius, intensity, halo) in
        [(3.0f32, 0.5f32, 0.3f32), (1.0, 1.0, 1.0), (0.2, 0.9, 0.0), (40.0, 0.123, 0.77)]
    {
        let mut got = colorful(23, 17);
        let mut want = got.clone();
        bleed(&mut got, params(radius, intensity, halo), 7);
        pass_of_floats(&mut want, radius, intensity, halo, 7);
        assert_eq!(got.data(), want.data(), "radius {radius}");
    }
}

#[test]
fn bytes_past_the_last_pixel_are_not_blurred() {
    let bytes: Vec<u8> = (0..4 * 4 * 4 + 11).map(|k| (k * 37 % 251) as u8).collect();
    let long = PixmapRef::from_bytes(&bytes, 4, 4).expect("pixmap").to_owned();
    assert_eq!(long.data().len(), bytes.len());
    let mut got = long.clone();
    let mut want = long.clone();
    bleed(&mut got, params(1.0, 0.6, 0.4), 13);
    pass_of_floats(&mut want, 1.0, 0.6, 0.4, 13);
    assert_eq!(got.data(), want.data());
    assert_eq!(&got.data()[72..], &bytes[72..]);
}

#[test]
fn bleed_constants_have_their_values() {
    assert_eq!(f32::from_bits(MILD_HALO), 0.3);
    assert_eq!(f32::from_bits(BOX_RATIO), 1.15);
    assert_eq!(f32::from_bits(HALO_GAIN), 0.6);
    assert_eq!(f32::from_bits(GRAIN_DEPTH), 0.1);
}

#[test]
fn the_box_follows_the_radius() {
    for (radius, width) in [
        (0.1f32, 1usize),
        (1.0, 1),
        (1.31, 2),
        (3.0, 3),
        (10.0, 12),
        (1000.0, 1150),
        (f32::NAN, 1),
        (f32::INFINITY, usize::MAX),
    ] {
        assert_eq!(box_radius_of(params(radius, 1.0, 0.0)), width, "radius {radius}");
    }
}

#[test]
fn idle_is_seen_before_the_pass() {
    assert!(params(0.0, 1.0, 0.0).is_idle());
    assert!(params(1.0, 0.0, 0.0).is_idle());
    assert!(params(f32::NAN, 1.0, 0.0).is_idle());
    assert!(!params(1.0, 0.5, 0.0).is_idle());
}

#[test]
fn raw_bleed_parameters_act_as_clamped_ones() {
    let mut a = colorful(9, 9);
    let mut b = a.clone();
    let raw = params(2.0, 7.0, -3.0);
    bleed(&mut a, raw, 3);
    bleed(&mut b, raw.clamped(), 3);
    assert_eq!(a.data(), b.data());
}

#[test]
fn colors_stay_below_alpha() {
    for halo in [0.0, 1.0] {
        let mut pix = colorful(21, 19);
        bleed(&mut pix, params(2.0, 0.7, halo), 11);
        for px in pix.data().chunks_exact(4) {
            assert!(px[0] <= px[3] && px[1] <= px[3] && px[2] <= px[3], "{:?}", px);
        }
    }
}

#[test]
fn an_opaque_picture_stays_opaque() {
    let mut pix = fresh_white(20, 20);
    draw_black_dot(&mut pix, 10.0, 10.0, 4.0);
    bleed(&mut pix, params(3.0, 0.8, 1.0), 5);
    for px in pix.data().chunks_exact(4) {
        assert_eq!(px[3], 255);
    }
}

#[test]
fn full_intensity_gives_the_layer() {
    let mut pix = colorful(12, 10);
    let mut layer = blur_three_times(pix.data(), 12, 10, box_radius_of(params(2.0, 1.0, 0.0)));
    let grain = draw_grain(9, 120, &draw);
    apply_grain(&mut layer, s(0.1), &grain);
    bleed(&mut pix, params(2.0, 1.0, 0.0), 9);
    assert_eq!(pix.data(), &layer[..]);
}

#[test]
fn a_nan_intensity_clears_the_picture() {
    let mut pix = colorful(6, 6);
    bleed(&mut pix, params(2.0, f32::NAN, 0.0), 9);
    assert!(pix.data().iter().all(|v| *v == 0));
}

#[test]
fn far_pixels_do_not_count() {
    let mut src = vec![200u8; 31 * 31 * 4];
    for c in 0..4 {
        src[(15 * 31 + 15) * 4 + c] = 0;
    }
    let blurred = blur_three_times(&src, 31, 31, 2);
    for y in 0..31usize {
        for x in 0..31usize {
            let near = x.abs_diff(15) <= 6 && y.abs_diff(15) <= 6;
            if !near {
                assert_eq!(blurred[(y * 31 + x) * 4], 200);
            }
        }
    }
    assert!(blurred[(15 * 31 + 15) * 4] < 200);
}

#[test]
fn grain_comes_from_the_seed() {
    let got = draw_grain(21, 50, &draw);
    let mut rng = ChaCha8Rng::seed_from_u64(21);
    for g in got.iter() {
        assert_eq!(f(*g), rng.gen_range(-1.0..=1.0_f32));
    }
    assert_eq!(got.len(), 50);
    assert_ne!(f(got[0]), f(draw_grain(22, 1, &draw)[0]));
}

#[test]
fn grain_moves_colors_to_known_values() {
    let mut buf: Vec<u8> = vec![100, 200, 250, 255, 100, 50, 0, 100, 7];
    apply_grain(&mut buf, s(0.1), &[s(1.0), s(-1.0)]);
    assert_eq!(buf, vec![110, 220, 255, 255, 90, 45, 0, 100, 7]);
    let mut low: Vec<u8> = vec![100, 90, 80, 100];
    apply_grain(&mut low, s(0.1), &[s(1.0)]);
    assert_eq!(low, vec![100, 99, 88, 100]);
}

#[test]
fn layers_are_blended_to_known_values() {
    let mut dst = vec![0u8; 4];
    blend_layers(&mut dst, &[0, 100, 255, 7], &[255, 50, 0, 7], s(0.25));
    assert_eq!(dst, vec![64, 88, 191, 7]);
    blend_layers(&mut dst, &[0, 100, 255, 7], &[255, 50, 0, 7], s(0.0));
    assert_eq!(dst, vec![0, 100, 255, 7]);
    blend_layers(&mut dst, &[0, 100, 255, 7], &[255, 50, 0, 7], s(1.0));
    assert_eq!(dst, vec![255, 50, 0, 7]);
}

#[test]
fn a_blend_lies_between_its_bytes() {
    for k in 0..=40u32 {
        let t = k as f32 / 40.0;
        for o in (0..=255u8).step_by(5) {
            for b in (0..=255u8).step_by(3) {
                let mut dst = vec![0u8; 4];
                blend_layers(&mut dst, &[o; 4], &[b; 4], s(t));
                assert!(o.min(b) <= dst[0] && dst[0] <= o.max(b));
            }
        }
    }
}

#[test]
fn alpha_is_divided_out_and_multiplied_back() {
    for a in 1..=255u8 {
        for c in 0..=a {
            let px = [c, a, 0, a];
            assert_eq!(premultiply_color(straight_color(px), a), px);
        }
    }
    assert_eq!(f(straight_color([128, 64, 0, 128])[0]), 1.0);
    assert_eq!(f(straight_color([64, 64, 0, 128])[0]), 0.5);
    assert_eq!(f(straight_color([200, 0, 0, 100])[0]), 1.0);
}

#[test]
fn saturation_skips_transparent_pixels_and_keeps_alpha() {
    let mut buf: Vec<u8> = vec![9, 8, 7, 0, 100, 50, 25, 128, 3, 2];
    boost_saturation_buffer(&mut buf, s(1.6), &to_hsl, &to_srgb);
    assert_eq!(&buf[..4], &[9, 8, 7, 0]);
    assert_eq!(buf[7], 128);
    assert_eq!(&buf[8..], &[3, 2]);
    assert!(buf[4] > 100 && buf[6] < 25);
    let before = buf.clone();
    boost_saturation_buffer(&mut buf, s(1.0), &to_hsl, &to_srgb);
    assert_eq!(buf, before);
}

#[test]
fn the_size_of_a_pixmap_stays() {
    let mut pix = colorful(13, 4);
    bleed(&mut pix, params(1.0, 1.0, 1.0), 1);
    assert_eq!((pix.width(), pix.height(), pix.data().len()), (13, 4, 13 * 4 * 4));
}

#[test]
fn pictures_that_agree_near_a_pixel_blur_alike_there() {
    let (w, h, radius) = (31usize, 29usize, 2usize);
    let a = colorful(w as u32, h as u32).data().to_vec();
    let mut b = a.clone();
    let (x0, y0) = (12usize, 14usize);
    for y in 0..h {
        for x in 0..w {
            if x.abs_diff(x0) > 3 * radius || y.abs_diff(y0) > 3 * radius {
                for c in 0..4 {
                    b[(y * w + x) * 4 + c] = 255 - b[(y * w + x) * 4 + c];
                }
            }
        }
    }
    let (ba, bb) = (blur_three_times(&a, w, h, radius), blur_three_times(&b, w, h, radius));
    let at = (y0 * w + x0) * 4;
    assert_eq!(&ba[at..at + 4], &bb[at..at + 4]);
    assert_ne!(&ba[..4], &bb[..4]);
}

#[test]
fn pictures_that_agree_near_a_pixel_bleed_alike_there() {
    let (w, h) = (31usize, 29usize);
    let p = params(1.31, 0.6, 0.5);
    let reach = 3 * box_radius_of(p);
    let mut a = colorful(w as u32, h as u32);
    let mut b = a.clone();
    let (x0, y0) = (12usize, 14usize);
    for (k, px) in b.data_mut().chunks_exact_mut(4).enumerate() {
        let (x, y) = (k % w, k / w);
        if x.abs_diff(x0) > reach || y.abs_diff(y0) > reach {
            px.copy_from_slice(&[3, 2, 1, 4]);
        }
    }
    bleed(&mut a, p, 17);
    bleed(&mut b, p, 17);
    let at = (y0 * w + x0) * 4;
    assert_eq!(&a.data()[at..at + 4], &b.data()[at..at + 4]);
    assert_ne!(a.data(), b.data());
}

#[test]
fn opaque_pixels_are_saturated_as_their_colors() {
    let mut buf: Vec<u8> = Vec::new();
    for k in 0..300u32 {
        let v = k.wrapping_mul(2654435761);
        buf.extend_from_slice(&[(v >> 24) as u8, (v >> 16) as u8, (v >> 8) as u8, 255]);
        buf.extend_from_slice(&[1, 2, 3, (k % 7) as u8]);
    }
    for factor in [1.0f32, 1.3, 1.6, 0.2] {
        let mut out = buf.clone();
        boost_saturation_buffer(&mut out, s(factor), &to_hsl, &to_srgb);
        for (px, q) in buf.chunks_exact(8).zip(out.chunks_exact(8)) {
            let want = boost_saturation([px[0], px[1], px[2]], s(factor), &to_hsl, &to_srgb);
            assert_eq!([q[0], q[1], q[2]], want);
            assert_eq!(q[3], 255);
        }
    }
}

#[test]
fn grain_is_drawn_from_one_range() {
    let watched = |state: ChaCha8Rng, low: Single, high: Single| {
        assert_eq!((f(low), f(high)), (-1.0, 1.0));
        draw(state, low, high)
    };
    assert_eq!(draw_grain(4, 9, &watched).len(), 9);
}

#[test]
fn colors_stay_below_alpha_under_long_windows() {
    for intensity in [1.0f32, 0.3, 1e-3, 1e-44] {
        let mut pix = colorful(70_001, 1);
        bleed(&mut pix, params(60_000.0, intensity, 0.5), 11);
        for px in pix.data().chunks_exact(4) {
            assert!(px[0] <= px[3] && px[1] <= px[3] && px[2] <= px[3], "{:?}", px);
        }
    }
}

#[test]
fn a_tiny_intensity_leaves_the_pixels() {
    let before = colorful(9, 7);
    for intensity in [1e-45f32, 4e-45, 1e-30, 9e-4] {
        let mut pix = before.clone();
        bleed(&mut pix, params(2.0, intensity, 1.0), 3);
        assert_eq!(pix.data(), before.data());
    }
}

#[test]
fn alpha_is_blended_whatever_halo_and_seed_are() {
    let original = colorful(19, 13);
    let mut full = original.clone();
    bleed(&mut full, params(2.0, 1.0, 0.9), 5);
    for (intensity, halo, seed) in [(0.5f32, 0.0f32, 1u64), (0.37, 1.0, 2), (1.0, 0.2, 3)] {
        let mut pix = original.clone();
        bleed(&mut pix, params(2.0, intensity, halo), seed);
        for p in 0..19 * 13 {
            let (o, b) = (original.data()[4 * p + 3] as f32, full.data()[4 * p + 3] as f32);
            let want = (o * (1.0 - intensity) + b * intensity).round() as u8;
            assert_eq!(pix.data()[4 * p + 3], want);
        }
    }
}

#[test]
fn an_opaque_strip_stays_opaque_under_long_windows() {
    let mut pix = fresh_white(100_000, 1);
    bleed(&mut pix, params(90_000.0, 0.8, 0.0), 5);
    for px in pix.data().chunks_exact(4) {
        assert_eq!(px[3], 255);
    }
}
