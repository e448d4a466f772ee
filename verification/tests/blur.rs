use aquarelle::blur::{box_blur_horizontal, box_blur_vertical};

fn means(line: &[u8], radius: usize) -> Vec<u8> {
    let n = line.len() as i64;
    let r = (radius as i64).min(n - 1);
    (0..n)
        .map(|k| {
            let mut total = 0i64;
            for j in k - r..=k + r {
                total += line[j.clamp(0, n - 1) as usize] as i64;
            }
            (total as f32 / (2 * r + 1) as f32).round() as u8
        })
        .collect()
}

fn picture(width: usize, height: usize) -> Vec<u8> {
    let mut x: u32 = 12345;
    (0..width * height * 4)
        .map(|_| {
            x = x.wrapping_mul(1664525).wrapping_add(1013904223);
            (x >> 24) as u8
        })
        .collect()
}

fn transposed(src: &[u8], width: usize, height: usize) -> Vec<u8> {
    let mut out = vec![0u8; src.len()];
    for y in 0..height {
        for x in 0..width {
            for c in 0..4 {
                out[(x * height + y) * 4 + c] = src[(y * width + x) * 4 + c];
            }
        }
    }
    out
}

#[test]
fn rows_are_blurred_to_known_values() {
    let src: Vec<u8> = vec![0, 10, 20, 255, 90, 10, 40, 255, 30, 10, 61, 255];
    let mut dst = vec![0u8; 12];
    box_blur_horizontal(&src, &mut dst, 3, 1, 1);
    assert_eq!(dst, vec![30, 10, 27, 255, 40, 10, 40, 255, 50, 10, 54, 255]);
}

#[test]
fn columns_are_blurred_to_known_values() {
    let src: Vec<u8> = vec![0, 10, 20, 255, 90, 10, 40, 255, 30, 10, 61, 255];
    let mut dst = vec![0u8; 12];
    box_blur_vertical(&src, &mut dst, 1, 3, 1);
    assert_eq!(dst, vec![30, 10, 27, 255, 40, 10, 40, 255, 50, 10, 54, 255]);
}

#[test]
fn every_sample_is_the_mean_of_its_row() {
    let (w, h) = (7, 5);
    let src = picture(w, h);
    for radius in [0, 1, 2, 3, 6, 7, 100] {
        let mut dst = vec![0u8; src.len()];
        box_blur_horizontal(&src, &mut dst, w, h, radius);
        for y in 0..h {
            for c in 0..4 {
                let line: Vec<u8> = (0..w).map(|x| src[(y * w + x) * 4 + c]).collect();
                let want = means(&line, radius);
                for x in 0..w {
                    assert_eq!(dst[(y * w + x) * 4 + c], want[x]);
                }
            }
        }
    }
}

#[test]
fn columns_mirror_rows() {
    let (w, h) = (6, 9);
    let src = picture(w, h);
    for radius in [0, 1, 4, 20] {
        let mut down = vec![0u8; src.len()];
        box_blur_vertical(&src, &mut down, w, h, radius);
        let mut across = vec![0u8; src.len()];
        box_blur_horizontal(&transposed(&src, w, h), &mut across, h, w, radius);
        assert_eq!(down, transposed(&across, h, w));
    }
}

#[test]
fn a_radius_of_zero_copies() {
    let src = picture(4, 3);
    let mut dst = vec![0u8; src.len()];
    box_blur_horizontal(&src, &mut dst, 4, 3, 0);
    assert_eq!(dst, src);
    box_blur_vertical(&src, &mut dst, 4, 3, 0);
    assert_eq!(dst, src);
}

#[test]
fn one_color_stays_under_blur() {
    let src: Vec<u8> = (0..5 * 4).flat_map(|_| [11u8, 22, 33, 44]).collect();
    let mut dst = vec![0u8; src.len()];
    box_blur_horizontal(&src, &mut dst, 5, 4, 3);
    assert_eq!(dst, src);
    box_blur_vertical(&src, &mut dst, 5, 4, 3);
    assert_eq!(dst, src);
}

#[test]
fn colors_stay_below_alpha_under_blur() {
    let mut src = picture(9, 8);
    for px in src.chunks_exact_mut(4) {
        for c in 0..3 {
            px[c] = px[c].min(px[3]);
        }
    }
    let mut dst = vec![0u8; src.len()];
    box_blur_horizontal(&src, &mut dst, 9, 8, 2);
    for px in dst.chunks_exact(4) {
        assert!(px[0] <= px[3] && px[1] <= px[3] && px[2] <= px[3]);
    }
}

#[test]
fn long_windows_agree_with_division_of_floats() {
    let w = 4000;
    let src = picture(w, 1);
    let mut dst = vec![0u8; src.len()];
    box_blur_horizontal(&src, &mut dst, w, 1, 3000);
    for c in 0..4 {
        let line: Vec<u8> = (0..w).map(|x| src[x * 4 + c]).collect();
        let mut total: f32 = line[..=3000].iter().map(|v| *v as f32).sum();
        total += line[0] as f32 * 3000.0;
        for x in 0..w {
            assert_eq!(dst[x * 4 + c], (total / 6001.0).round() as u8);
            let left = x.saturating_sub(3000);
            let right = (x + 3001).min(w - 1);
            total += line[right] as f32 - line[left] as f32;
        }
    }
}

fn running_means(line: &[u8], radius: usize) -> Vec<u8> {
    let n = line.len();
    let radius = radius.min(n - 1);
    let window = (radius * 2 + 1) as f32;
    let mut sum = 0f32;
    for k in 0..=radius {
        sum += line[k] as f32;
    }
    sum += line[0] as f32 * radius as f32;
    let mut out = Vec::new();
    for k in 0..n {
        out.push((sum / window).clamp(0.0, 255.0).round() as u8);
        let next = line[(k + radius + 1).min(n - 1)];
        sum += next as f32 - line[k.saturating_sub(radius)] as f32;
    }
    out
}

#[test]
fn sums_past_the_exact_integers_run_as_floats_do() {
    let n = 45_000;
    let mut src = picture(n, 1);
    for (k, px) in src.chunks_exact_mut(4).enumerate() {
        px[1] = 255 - (k % 3) as u8;
        px[2] = 254 | (px[2] & 1);
        px[3] = 255;
    }
    for radius in [32_767, 32_768, 44_000, 1_000_000] {
        let mut across = vec![0u8; src.len()];
        box_blur_horizontal(&src, &mut across, n, 1, radius);
        let mut down = vec![0u8; src.len()];
        box_blur_vertical(&src, &mut down, 1, n, radius);
        assert_eq!(across, down);
        for c in 0..4 {
            let line: Vec<u8> = (0..n).map(|x| src[x * 4 + c]).collect();
            let want = running_means(&line, radius);
            for x in 0..n {
                assert_eq!(across[x * 4 + c], want[x], "radius {radius} at {x}");
            }
        }
    }
}

#[test]
fn a_very_long_even_line_fades_as_floats_do() {
    let n = 540_000;
    let src = vec![250u8; n * 4];
    let mut dst = vec![0u8; n * 4];
    box_blur_horizontal(&src, &mut dst, n, 1, n);
    let want = running_means(&vec![250u8; n], n);
    assert_eq!(want[0], 249);
    for x in 0..n {
        assert_eq!(dst[x * 4], want[x]);
    }
}

#[test]
fn the_longest_exact_window_keeps_an_even_line() {
    let n = 40_000;
    let src = vec![255u8; n * 4];
    let mut dst = vec![0u8; n * 4];
    box_blur_horizontal(&src, &mut dst, n, 1, 32_767);
    assert_eq!(dst, src);
}

#[test]
fn full_samples_stay_under_long_windows() {
    let n = 500_000;
    let src = vec![255u8; n * 4];
    let mut dst = vec![0u8; n * 4];
    box_blur_horizontal(&src, &mut dst, n, 1, n);
    assert_eq!(dst, src);
    box_blur_vertical(&src, &mut dst, 1, n, 66_000);
    assert_eq!(dst, src);
}
