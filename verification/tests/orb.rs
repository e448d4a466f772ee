use aquarelle::color::{boost_saturation, color_with_alpha, mix_with_white};
use aquarelle::orb::{
    count_satellites, draw_orb, orb_frame, orb_layers, paint_layers, radial_layer,
    render_aquarelle_orb, seeded_layers, AquarelleParams, RadialLayer, CORE_REACH, CORE_WHITE,
    DISTANCE_MAX, DISTANCE_MIN, FALLOFF_GAIN, OFFSET_REACH, ORB_STOP, PAINT_REACH, SATELLITE_GAIN,
    SIZE_MAX, SIZE_MIN, STOP_MAX, STOP_MIN,
};
use aquarelle::single::Single;
use palette::{FromColor, Hsl, IntoColor, Srgb};
use rand::{Rng, SeedableRng};
use rand_chacha::ChaCha8Rng;
use std::f32::consts::TAU;
use tiny_skia::{
    Color, FillRule, GradientStop, Paint, PathBuilder, Pixmap, Point, RadialGradient, SpreadMode,
    Transform,
};

fn s(x: f32) -> Single {
    Single::from_bits(x.to_bits())
}

fn f(x: Single) -> f32 {
    f32::from_bits(x.to_bits())
}

fn sin(x: Single) -> Single {
    s(f(x).sin())
}

fn cos(x: Single) -> Single {
    s(f(x).cos())
}

fn to_hsl(c: [Single; 3]) -> [Single; 3] {
    let hsl: Hsl = Hsl::from_color(Srgb::new(f(c[0]), f(c[1]), f(c[2])));
    [s(hsl.hue.into_inner()), s(hsl.saturation), s(hsl.lightness)]
}

fn to_srgb(c: [Single; 3]) -> [Single; 3] {
    let hsl: Hsl = Hsl::new(f(c[0]), f(c[1]), f(c[2]));
    let out: Srgb = hsl.into_color();
    [s(out.red), s(out.green), s(out.blue)]
}

fn draw(state: ChaCha8Rng, low: Single, high: Single) -> (ChaCha8Rng, Single) {
    let mut state = state;
    let value: f32 = state.gen_range(f(low)..f(high));
    (state, s(value))
}

fn params(bleed: f32, bloom: f32, offset: f32, halo: f32) -> AquarelleParams {
    AquarelleParams { bleed: s(bleed), bloom: s(bloom), offset: s(offset), halo: s(halo) }
}

fn layers(
    center: (f32, f32),
    radius: f32,
    color: [u8; 3],
    seed: u64,
    params: AquarelleParams,
) -> Vec<RadialLayer> {
    seeded_layers(
        (s(center.0), s(center.1)),
        s(radius),
        color,
        seed,
        params,
        &draw,
        &sin,
        &cos,
        &to_hsl,
        &to_srgb,
    )
}

fn rgba(c: [u8; 4]) -> Color {
    Color::from_rgba8(c[0], c[1], c[2], c[3])
}

fn paint(pixmap: &mut Pixmap, layer: &RadialLayer) {
    let at = Point::from_xy(f(layer.cx), f(layer.cy));
    let stops = vec![
        GradientStop::new(0.0, rgba(layer.inner)),
        GradientStop::new(f(layer.mid_stop), rgba(layer.mid)),
        GradientStop::new(1.0, rgba(layer.edge)),
    ];
    let Some(shader) = RadialGradient::new(
        at,
        at,
        f(layer.radius),
        stops,
        SpreadMode::Pad,
        Transform::identity(),
    ) else {
        return;
    };
    let paint = Paint { shader, anti_alias: true, ..Default::default() };
    let mut pb = PathBuilder::new();
    pb.push_circle(f(layer.cx), f(layer.cy), f(layer.reach));
    if let Some(path) = pb.finish() {
        pixmap.fill_path(&path, &paint, FillRule::Winding, Transform::identity(), None);
    }
}

fn painted(pixmap: &Pixmap, layer: RadialLayer) -> Pixmap {
    let mut out = pixmap.clone();
    paint(&mut out, &layer);
    out
}

fn render(
    pixmap: &mut Pixmap,
    center: (f32, f32),
    radius: f32,
    color: [u8; 3],
    seed: u64,
    params: AquarelleParams,
) {
    render_aquarelle_orb(
        pixmap,
        (s(center.0), s(center.1)),
        s(radius),
        color,
        seed,
        params,
        &draw,
        &sin,
        &cos,
        &to_hsl,
        &to_srgb,
        &painted,
    );
}

fn fresh_pixmap(w: u32, h: u32) -> Pixmap {
    let mut p = Pixmap::new(w, h).expect("pixmap");
    p.fill(Color::from_rgba8(0, 0, 0, 255));
    p
}

fn count_non_black(pix: &Pixmap) -> u64 {
    pix.data()
        .chunks_exact(4)
        .filter(|px| px[0] > 0 || px[1] > 0 || px[2] > 0)
        .count() as u64
}

#[test]
fn aquarelle_renders_visible_orb() {
    let mut pix = fresh_pixmap(64, 64);
    render(&mut pix, (32.0, 32.0), 16.0, [200, 100, 50], 42, AquarelleParams::default());
    assert!(count_non_black(&pix) > 0, "aquarelle orb should produce visible pixels");
}

#[test]
fn aquarelle_zero_radius_is_noop() {
    let mut pix = fresh_pixmap(32, 32);
    render(&mut pix, (16.0, 16.0), 0.0, [200, 100, 50], 1, AquarelleParams::default());
    assert_eq!(count_non_black(&pix), 0);
}

#[test]
fn bloom_brightens_center() {
    let mut a = fresh_pixmap(64, 64);
    let mut b = fresh_pixmap(64, 64);
    let zero_bloom = params(0.0, 0.0, 0.0, 0.0);
    let full_bloom = params(0.0, 1.0, 0.0, 0.0);
    render(&mut a, (32.0, 32.0), 24.0, [200, 100, 50], 1, zero_bloom);
    render(&mut b, (32.0, 32.0), 24.0, [200, 100, 50], 1, full_bloom);
    let pa = a.pixel(32, 32).expect("center pixel exists");
    let pb = b.pixel(32, 32).expect("center pixel exists");
    assert!(
        pb.blue() > pa.blue(),
        "bloom should raise blue at center: zero={} full={}",
        pa.blue(),
        pb.blue()
    );
}

#[test]
fn params_individually_change_output() {
    let base = params(0.0, 0.0, 0.0, 0.0);
    let mut p_base = fresh_pixmap(64, 64);
    render(&mut p_base, (32.0, 32.0), 20.0, [200, 100, 50], 7, base);
    let base_data: Vec<u8> = p_base.data().to_vec();

    for (name, modified) in [
        ("bleed", AquarelleParams { bleed: s(1.0), ..base }),
        ("bloom", AquarelleParams { bloom: s(1.0), ..base }),
        ("offset", AquarelleParams { offset: s(1.0), ..base }),
        ("halo", AquarelleParams { halo: s(1.0), ..base }),
    ] {
        let mut p = fresh_pixmap(64, 64);
        render(&mut p, (32.0, 32.0), 20.0, [200, 100, 50], 7, modified);
        assert_ne!(p.data(), &base_data[..], "{name}=1.0 should change rendered orb");
    }
}

#[test]
fn deterministic_with_seed() {
    let mut a = fresh_pixmap(64, 64);
    let mut b = fresh_pixmap(64, 64);
    let params = AquarelleParams::default();
    render(&mut a, (32.0, 32.0), 20.0, [200, 100, 50], 12345, params);
    render(&mut b, (32.0, 32.0), 20.0, [200, 100, 50], 12345, params);
    assert_eq!(a.data(), b.data(), "same seed + inputs must produce identical output");
}

#[test]
fn clamped_caps_out_of_range() {
    let p = params(2.0, -0.5, 10.0, -10.0).clamped();
    assert_eq!(f(p.bleed), 1.0);
    assert_eq!(f(p.bloom), 0.0);
    assert_eq!(f(p.offset), 1.0);
    assert_eq!(f(p.halo), 0.0);
}

#[test]
fn orb_defaults_are_one_half() {
    let p = AquarelleParams::default();
    assert_eq!(f(p.bleed), 0.5);
    assert_eq!(f(p.bloom), 0.5);
    assert_eq!(f(p.offset), 0.5);
    assert_eq!(f(p.halo), 0.5);
}

#[test]
fn orb_constants_have_their_values() {
    assert_eq!(f32::from_bits(OFFSET_REACH), 0.25);
    assert_eq!(f32::from_bits(FALLOFF_GAIN), 0.6);
    assert_eq!(f32::from_bits(SATELLITE_GAIN), 0.4);
    assert_eq!(f32::from_bits(CORE_REACH), 0.3);
    assert_eq!(f32::from_bits(CORE_WHITE), 0.7);
    assert_eq!(f32::from_bits(ORB_STOP), 0.55);
    assert_eq!(f32::from_bits(STOP_MIN), 0.05);
    assert_eq!(f32::from_bits(STOP_MAX), 0.95);
    assert_eq!(f32::from_bits(PAINT_REACH), 1.5);
    assert_eq!(f32::from_bits(DISTANCE_MIN), 0.4);
    assert_eq!(f32::from_bits(DISTANCE_MAX), 0.9);
    assert_eq!(f32::from_bits(SIZE_MIN), 0.2);
    assert_eq!(f32::from_bits(SIZE_MAX), 0.4);
}

#[test]
fn clamping_settles_and_bad_numbers_stay() {
    let p = params(f32::NAN, f32::INFINITY, f32::NEG_INFINITY, 0.25).clamped();
    assert!(f(p.bleed).is_nan());
    assert_eq!(f(p.bloom), 1.0);
    assert_eq!(f(p.offset), 0.0);
    assert_eq!(f(p.halo), 0.25);
    let q = p.clamped();
    assert_eq!(q.bleed.to_bits(), p.bleed.to_bits());
    assert_eq!(q.bloom.to_bits(), p.bloom.to_bits());
}

#[test]
fn satellites_follow_bleed() {
    for (bleed, count) in [
        (-1.0f32, 0u32),
        (0.0, 0),
        (0.16, 0),
        (0.17, 1),
        (0.5, 2),
        (0.84, 3),
        (1.0, 3),
        (9.0, 3),
        (f32::NAN, 0),
    ] {
        assert_eq!(count_satellites(params(bleed, 0.0, 0.0, 0.0)), count, "bleed {bleed}");
    }
}

#[test]
fn a_radius_that_is_not_positive_has_no_layers() {
    for radius in [0.0, -0.0, -3.0, f32::NEG_INFINITY] {
        assert_eq!(layers((1.0, 2.0), radius, [1, 2, 3], 4, AquarelleParams::default()).len(), 0);
    }
}

#[test]
fn layers_stand_in_order() {
    let full = layers((10.0, 20.0), 8.0, [200, 100, 50], 3, params(1.0, 1.0, 1.0, 1.0));
    assert_eq!(full.len(), 5);
    assert_eq!(full[0].inner, [200, 100, 50, 255]);
    for k in 1..4 {
        assert_eq!(full[k].inner[3], 100);
        assert_eq!(full[k].mid[3], 50);
        assert_eq!(full[k].edge[3], 0);
        assert_eq!(f(full[k].mid_stop), 0.5);
    }
    assert_eq!(full[4].cx.to_bits(), full[0].cx.to_bits());
    assert_eq!(full[4].cy.to_bits(), full[0].cy.to_bits());
    assert_eq!(f(full[4].radius), 8.0 * 0.3 * 1.0);
    let plain = layers((10.0, 20.0), 8.0, [200, 100, 50], 3, params(0.0, 0.0, 0.0, 0.0));
    assert_eq!(plain.len(), 1);
}

#[test]
fn no_offset_is_concentric() {
    let plain = layers((10.25, -20.5), 8.0, [200, 100, 50], 3, params(0.0, 0.0, 0.0, 0.0));
    assert_eq!(f(plain[0].cx), 10.25);
    assert_eq!(f(plain[0].cy), -20.5);
}

#[test]
fn the_offset_reaches_a_quarter_of_the_radius() {
    for seed in 0..20u64 {
        let l = layers((0.0, 0.0), 8.0, [9, 9, 9], seed, params(0.0, 0.0, 1.0, 0.0));
        let (x, y) = (f(l[0].cx), f(l[0].cy));
        let d = (x * x + y * y).sqrt();
        assert!((d - 2.0).abs() < 1e-5, "seed {seed} lies {d} off");
    }
}

#[test]
fn the_core_fills_three_tenths_of_the_radius() {
    let l = layers((0.0, 0.0), 10.0, [9, 9, 9], 1, params(0.0, 0.5, 0.0, 0.0));
    assert_eq!(l.len(), 2);
    assert_eq!(f(l[1].radius), 10.0 * 0.3 * 0.5);
    assert_eq!(f(l[1].reach), 10.0 * 0.3 * 0.5 * 1.5);
    assert_eq!(l[1].inner, [181, 181, 181, 255]);
}

#[test]
fn no_halo_keeps_the_color() {
    let l = layers((0.0, 0.0), 10.0, [31, 41, 59], 1, params(1.0, 0.0, 0.0, -2.0));
    assert_eq!(l[0].mid, [31, 41, 59, 128]);
    assert_eq!(l[0].edge, [31, 41, 59, 0]);
    assert_eq!(l[1].inner, [31, 41, 59, 100]);
}

#[test]
fn raw_parameters_give_the_layers_of_clamped_ones() {
    let raw = params(3.0, 0.7, -1.0, 2.0);
    let a = layers((5.0, 6.0), 7.0, [10, 200, 30], 8, raw);
    let b = layers((5.0, 6.0), 7.0, [10, 200, 30], 8, raw.clamped());
    assert_eq!(format!("{:?}", a), format!("{:?}", b));
}

#[test]
fn knobs_do_not_touch_each_other() {
    let base = params(0.7, 0.5, 0.6, 0.4);
    let at = |p: AquarelleParams| layers((5.0, 6.0), 7.0, [10, 200, 30], 8, p);
    let show = |l: &RadialLayer| format!("{:?}", l);
    let a = at(base);
    assert_eq!(a.len(), 4);
    let b = at(AquarelleParams { bleed: s(1.0), ..base });
    assert_eq!(show(&a[0]), show(&b[0]));
    assert_eq!(show(&a[3]), show(&b[4]));
    assert_eq!(a[1].cx.to_bits(), b[1].cx.to_bits());
    assert_eq!(a[2].cy.to_bits(), b[2].cy.to_bits());
    let c = at(AquarelleParams { bloom: s(0.0), ..base });
    assert_eq!(c.len(), 3);
    for k in 0..3 {
        assert_eq!(show(&a[k]), show(&c[k]));
    }
    let d = at(AquarelleParams { offset: s(0.0), ..base });
    assert_eq!(show(&a[1]), show(&d[1]));
    assert_eq!(show(&a[2]), show(&d[2]));
    let e = at(AquarelleParams { halo: s(0.0), ..base });
    assert_eq!(show(&a[3]), show(&e[3]));
    assert_eq!(a[0].inner, e[0].inner);
}

#[test]
fn satellites_have_their_full_size_at_full_bleed() {
    let p = params(1.0, 0.0, 0.0, 0.0);
    let draws = draw_orb(4, p, &draw);
    let l = layers((0.0, 0.0), 10.0, [1, 2, 3], 4, p);
    for k in 0..3 {
        assert_eq!(f(l[k + 1].radius), 10.0 * f(draws.satellites[k].size));
    }
}

#[test]
fn the_middle_color_is_kept_off_both_ends() {
    let at = |stop: f32| {
        f(radial_layer(s(0.0), s(0.0), s(2.0), [0; 4], [0; 4], [0; 4], s(stop)).mid_stop)
    };
    assert_eq!(at(0.0), 0.05);
    assert_eq!(at(0.5), 0.5);
    assert_eq!(at(1.0), 0.95);
}

#[test]
fn draws_come_from_the_seed_in_order() {
    let got = draw_orb(77, params(1.0, 0.0, 0.0, 0.0), &draw);
    let mut rng = ChaCha8Rng::seed_from_u64(77);
    let angle: f32 = rng.gen_range(0.0..TAU);
    assert_eq!(f(got.angle), angle);
    assert_eq!(got.satellites.len(), 3);
    for satellite in got.satellites.iter() {
        let angle: f32 = rng.gen_range(0.0..TAU);
        let distance: f32 = rng.gen_range(0.4..0.9);
        let size: f32 = rng.gen_range(0.2..0.4);
        assert_eq!(f(satellite.angle), angle);
        assert_eq!(f(satellite.distance), distance);
        assert_eq!(f(satellite.size), size);
    }
}

fn boosted(rgb: [u8; 3], factor: f32) -> [u8; 3] {
    if (factor - 1.0).abs() < f32::EPSILON {
        return rgb;
    }
    let srgb = Srgb::new(rgb[0] as f32 / 255.0, rgb[1] as f32 / 255.0, rgb[2] as f32 / 255.0);
    let mut hsl: Hsl = Hsl::from_color(srgb);
    hsl.saturation = (hsl.saturation * factor).clamp(0.0, 1.0);
    let out: Srgb = hsl.into_color();
    [out.red, out.green, out.blue].map(|c| (c.clamp(0.0, 1.0) * 255.0).round() as u8)
}

#[test]
fn layers_agree_with_machine_floats() {
    let (center, radius, color) = ((40.5f32, 17.25f32), 13.7f32, [210u8, 90, 140]);
    for seed in 0..12u64 {
        let t = seed as f32 / 11.0;
        let (bleed, bloom, offset, halo) = (t, 1.0 - t, t * 0.9, t);
        let got = layers(center, radius, color, seed, params(bleed, bloom, offset, halo));
        let mut want: Vec<(f32, f32, f32, [u8; 4], [u8; 4], f32)> = Vec::new();
        let mut rng = ChaCha8Rng::seed_from_u64(seed);
        let away = radius * 0.25 * offset;
        let theta: f32 = rng.gen_range(0.0..TAU);
        let cx = center.0 + away * theta.cos();
        let cy = center.1 + away * theta.sin();
        let halo_color = boosted(color, 1.0 + 0.6 * halo);
        let with = |c: [u8; 3], a: u8| [c[0], c[1], c[2], a];
        want.push((cx, cy, radius, with(color, 255), with(halo_color, 128), 0.55));
        for _ in 0..(3.0 * bleed).round() as u32 {
            let theta: f32 = rng.gen_range(0.0..TAU);
            let away = radius * rng.gen_range(0.4..0.9);
            let bx = center.0 + away * theta.cos();
            let by = center.1 + away * theta.sin();
            let size = radius * rng.gen_range(0.2..0.4) * (0.5 + 0.5 * bleed);
            let c = boosted(color, 1.0 + 0.4 * halo);
            want.push((bx, by, size, with(c, 100), with(c, 50), 0.5));
        }
        if bloom > 0.0 && radius * 0.3 * bloom > 0.0 {
            let white = |c: u8| (c as f32 * (1.0 - 0.7) + 255.0 * 0.7).round() as u8;
            let c = color.map(white);
            want.push((cx, cy, radius * 0.3 * bloom, with(c, 255), with(c, 128), 0.55));
        }
        assert_eq!(got.len(), want.len(), "seed {seed}");
        for (l, w) in got.iter().zip(want.iter()) {
            assert_eq!(l.cx.to_bits(), w.0.to_bits());
            assert_eq!(l.cy.to_bits(), w.1.to_bits());
            assert_eq!(l.radius.to_bits(), w.2.to_bits());
            assert_eq!(l.inner, w.3);
            assert_eq!(l.mid, w.4);
            assert_eq!(l.edge, [w.4[0], w.4[1], w.4[2], 0]);
            assert_eq!(l.mid_stop.to_bits(), w.5.to_bits());
            assert_eq!(l.reach.to_bits(), (w.2 * 1.5).to_bits());
        }
    }
}

#[test]
fn the_frame_and_the_layers_make_the_orb() {
    let p = params(0.6, 0.4, 0.8, 0.3);
    let draws = draw_orb(5, p, &draw);
    let frame = orb_frame([9, 99, 199], p, &draws, &sin, &cos, &to_hsl, &to_srgb);
    assert_eq!(frame.satellites.len(), 2);
    assert_eq!(frame.halo_color, boosted([9, 99, 199], 1.0 + 0.6 * 0.3));
    let parts = orb_layers((s(3.0), s(4.0)), s(5.0), [9, 99, 199], p, &frame);
    let whole = layers((3.0, 4.0), 5.0, [9, 99, 199], 5, p);
    assert_eq!(format!("{:?}", parts), format!("{:?}", whole));
}

#[test]
fn alpha_stands_behind_the_color() {
    assert_eq!(color_with_alpha([1, 2, 3], 4), [1, 2, 3, 4]);
}

#[test]
fn white_brightens() {
    assert_eq!(mix_with_white([200, 100, 50], s(0.0)), [200, 100, 50]);
    assert_eq!(mix_with_white([200, 100, 50], s(1.0)), [255, 255, 255]);
    assert_eq!(mix_with_white([200, 100, 50], s(0.7)), [239, 209, 194]);
    assert_eq!(mix_with_white([200, 100, 50], s(7.0)), [255, 255, 255]);
    assert_eq!(mix_with_white([200, 100, 50], s(-7.0)), [200, 100, 50]);
    for c in 0..=255u8 {
        for k in 0..=100u32 {
            let t = k as f32 / 100.0;
            let got = mix_with_white([c, 0, 255], s(t));
            let want = (c as f32 * (1.0 - t) + 255.0 * t).round() as u8;
            assert_eq!(got[0], want);
            assert!(got[0] >= c);
            assert_eq!(got[2], 255);
        }
    }
}

#[test]
fn saturation_is_boosted_as_floats_do() {
    for rgb in [[200, 100, 50], [0, 0, 0], [255, 255, 255], [7, 8, 9], [12, 250, 33]] {
        for factor in [1.0f32, 1.3, 1.6, 0.5, 0.0, 3.0] {
            let got = boost_saturation(rgb, s(factor), &to_hsl, &to_srgb);
            assert_eq!(got, boosted(rgb, factor), "{:?} by {}", rgb, factor);
        }
    }
    assert_eq!(boost_saturation([200, 100, 50], s(1.0), &to_hsl, &to_srgb), [200, 100, 50]);
    assert_ne!(boost_saturation([200, 100, 50], s(1.6), &to_hsl, &to_srgb), [200, 100, 50]);
}

#[test]
fn the_orb_is_its_layers_painted_in_order() {
    let p = params(1.0, 0.8, 0.6, 0.4);
    let mut whole = fresh_pixmap(64, 64);
    render(&mut whole, (30.0, 34.0), 12.0, [20, 180, 240], 6, p);
    let list = layers((30.0, 34.0), 12.0, [20, 180, 240], 6, p);
    assert_eq!(list.len(), 5);
    let mut one_by_one = fresh_pixmap(64, 64);
    for layer in list.iter() {
        paint(&mut one_by_one, layer);
    }
    assert_eq!(whole.data(), one_by_one.data());
    let mut at_once = fresh_pixmap(64, 64);
    paint_layers(&mut at_once, &list, &painted);
    assert_eq!(whole.data(), at_once.data());
    let mut turned = fresh_pixmap(64, 64);
    let back: Vec<RadialLayer> = list.iter().rev().map(|l| *l).collect();
    paint_layers(&mut turned, &back, &painted);
    assert_ne!(whole.data(), turned.data());
}

#[test]
fn raw_parameters_paint_the_orb_of_clamped_ones() {
    let raw = params(3.0, 0.7, -1.0, 2.0);
    let mut a = fresh_pixmap(48, 48);
    let mut b = fresh_pixmap(48, 48);
    render(&mut a, (25.0, 26.0), 11.0, [10, 200, 30], 8, raw);
    render(&mut b, (25.0, 26.0), 11.0, [10, 200, 30], 8, raw.clamped());
    assert_eq!(a.data(), b.data());
}

#[test]
fn the_seed_does_not_show_without_offset_and_bleed() {
    for (bleed, offset) in [(0.0f32, 0.0f32), (-0.0, -2.0), (-1.0, 0.0)] {
        let p = params(bleed, 0.5, offset, 0.8);
        let mut a = fresh_pixmap(48, 48);
        let mut b = fresh_pixmap(48, 48);
        render(&mut a, (24.0, 23.0), 10.0, [200, 100, 50], 1, p);
        render(&mut b, (24.0, 23.0), 10.0, [200, 100, 50], 99999, p);
        assert!(count_non_black(&a) > 0);
        assert_eq!(a.data(), b.data());
    }
    let p = params(0.0, 0.5, 1.0, 0.8);
    let mut a = fresh_pixmap(48, 48);
    let mut b = fresh_pixmap(48, 48);
    render(&mut a, (24.0, 23.0), 10.0, [200, 100, 50], 1, p);
    render(&mut b, (24.0, 23.0), 10.0, [200, 100, 50], 99999, p);
    assert_ne!(a.data(), b.data());
}

#[test]
fn numbers_are_drawn_from_known_ranges() {
    let watched = |state: ChaCha8Rng, low: Single, high: Single| {
        let range = (f(low), f(high));
        assert!(range == (0.0, TAU) || range == (0.4, 0.9) || range == (0.2, 0.4), "{:?}", range);
        draw(state, low, high)
    };
    for bleed in [0.0, 0.4, 1.0] {
        draw_orb(3, params(bleed, 1.0, 1.0, 1.0), &watched);
    }
}

#[test]
fn satellites_lie_around_the_orb() {
    for seed in 0..50u64 {
        let p = params(1.0, 0.0, 0.0, 0.0);
        let l = layers((0.0, 0.0), 10.0, [1, 2, 3], seed, p);
        for k in 1..4 {
            let (x, y) = (f(l[k].cx), f(l[k].cy));
            let away = (x * x + y * y).sqrt();
            assert!((3.9999..=9.0001).contains(&away), "seed {seed} lies {away} away");
            assert!((2.0..=4.0).contains(&f(l[k].radius)));
        }
    }
}
