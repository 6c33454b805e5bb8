use color_reflection::buffer::{Pixel, PixelBuffer, TransformError};
use color_reflection::luma::{luma, GrayscaleMode};
use color_reflection::processor::ImageProcessor;
use color_reflection::quantize::{quantize_average, quantize_partial, sort_anchors};

fn buffer_from_pixels(width: usize, height: usize, pixels: &[(u8, u8, u8, u8)]) -> PixelBuffer {
    assert_eq!(pixels.len(), width * height);
    let mut data = Vec::new();
    for &(r, g, b, a) in pixels {
        data.push(r);
        data.push(g);
        data.push(b);
        data.push(a);
    }
    PixelBuffer { width, height, data }
}

fn pixel_of(buf: &PixelBuffer, x: usize, y: usize) -> (u8, u8, u8, u8) {
    let i = (y * buf.width + x) * 4;
    (buf.data[i], buf.data[i + 1], buf.data[i + 2], buf.data[i + 3])
}

#[test]
fn luma_bt601_exact_values() {
    let p = |r, g, b| Pixel { r, g, b, a: 255 };
    assert_eq!(luma(p(255, 0, 0), GrayscaleMode::Default), 76);
    assert_eq!(luma(p(0, 255, 0), GrayscaleMode::Default), 149);
    assert_eq!(luma(p(0, 0, 255), GrayscaleMode::Default), 29);
    assert_eq!(luma(p(255, 255, 255), GrayscaleMode::Default), 255);
    assert_eq!(luma(p(0, 0, 0), GrayscaleMode::Default), 0);
    let expected: u32 = (299 * 12 + 587 * 34 + 114 * 56) / 1000;
    assert_eq!(luma(p(12, 34, 56), GrayscaleMode::Default) as u32, expected);
}

#[test]
fn luma_max_min_exact_values() {
    let p = |r, g, b| Pixel { r, g, b, a: 255 };
    assert_eq!(luma(p(10, 200, 30), GrayscaleMode::Max), 200);
    assert_eq!(luma(p(10, 200, 30), GrayscaleMode::Min), 10);
    assert_eq!(luma(p(7, 7, 7), GrayscaleMode::Max), 7);
    assert_eq!(luma(p(7, 7, 7), GrayscaleMode::Min), 7);
}

#[test]
fn luma_total_over_sampled_colors() {
    // totality over a stride grid of the color cube, every policy
    for r in (0..=255u16).step_by(17) {
        for g in (0..=255u16).step_by(17) {
            for b in (0..=255u16).step_by(17) {
                let p = Pixel { r: r as u8, g: g as u8, b: b as u8, a: 255 };
                let _ = luma(p, GrayscaleMode::Default);
                let _ = luma(p, GrayscaleMode::Max);
                let _ = luma(p, GrayscaleMode::Min);
            }
        }
    }
}

#[test]
fn grayscale_transparency_rule() {
    let buf = buffer_from_pixels(2, 1, &[(50, 60, 70, 0), (50, 60, 70, 128)]);
    for out in [
        ImageProcessor::convert_to_grayscale_custom(&buf).unwrap(),
        ImageProcessor::convert_to_grayscale_max(&buf).unwrap(),
        ImageProcessor::convert_to_grayscale_min(&buf).unwrap(),
    ] {
        assert_eq!(pixel_of(&out, 0, 0), (0, 0, 0, 0));
        assert_eq!(pixel_of(&out, 1, 0).3, 255);
    }
}

#[test]
fn reflection_transparency_rule() {
    let buf = buffer_from_pixels(2, 1, &[(50, 60, 70, 0), (50, 60, 70, 77)]);
    let anchors = vec![128u8];
    let avg =
        ImageProcessor::apply_color_reflection_with_mode(&buf, &anchors, GrayscaleMode::Default)
            .unwrap();
    assert_eq!(pixel_of(&avg, 0, 0), (0, 0, 0, 0));
    assert_eq!(pixel_of(&avg, 1, 0).3, 255);
    let par = ImageProcessor::apply_color_reflection_partial_with_mode(
        &buf,
        &anchors,
        GrayscaleMode::Default,
    )
    .unwrap();
    assert_eq!(pixel_of(&par, 0, 0), (0, 0, 0, 0));
    assert_eq!(pixel_of(&par, 1, 0).3, 255);
}

#[test]
fn grayscale_exact_pixels() {
    let buf = buffer_from_pixels(1, 1, &[(255, 0, 0, 255)]);
    let out = ImageProcessor::convert_to_grayscale_custom(&buf).unwrap();
    assert_eq!(pixel_of(&out, 0, 0), (76, 76, 76, 255));
    let out = ImageProcessor::convert_to_grayscale_max(&buf).unwrap();
    assert_eq!(pixel_of(&out, 0, 0), (255, 255, 255, 255));
    let out = ImageProcessor::convert_to_grayscale_min(&buf).unwrap();
    assert_eq!(pixel_of(&out, 0, 0), (0, 0, 0, 255));
}

#[test]
fn quantize_accepts_all_anchor_counts() {
    // anchor counts 1..=10, every intensity, output always defined (u8 range)
    for n in 1..=10usize {
        let mut anchors = Vec::new();
        for k in 0..n {
            anchors.push(((k * 255) / n) as u8);
        }
        let anchors = sort_anchors(&anchors);
        for v in 0..=255u16 {
            let _ = quantize_average(v as u8, &anchors);
            let _ = quantize_partial(v as u8, &anchors);
        }
    }
}

#[test]
fn quantize_average_single_anchor_edges() {
    let anchors = vec![128u8];
    assert_eq!(quantize_average(0, &anchors), 64);
    assert_eq!(quantize_average(255, &anchors), 191);
    assert_eq!(quantize_average(127, &anchors), 64);
    assert_eq!(quantize_average(128, &anchors), 191);
}

#[test]
fn quantize_average_interior_and_quirks() {
    let anchors = vec![64u8, 128, 192];
    // interior segments: floor of the anchor midpoints
    assert_eq!(quantize_average(100, &anchors), 96);
    assert_eq!(quantize_average(150, &anchors), 160);
    // boundary values belong to the lower-indexed segment (first match wins)
    assert_eq!(quantize_average(128, &anchors), 96);
    // below the first anchor the second anchor's half is reused
    assert_eq!(quantize_average(10, &anchors), 64);
    // above the last anchor the second-to-last anchor is averaged with 255
    assert_eq!(quantize_average(240, &anchors), 191);
}

#[test]
fn quantize_partial_ladder_colors() {
    let anchors = vec![64u8, 128, 192];
    let n = 3usize;
    // below the first anchor: pure black; above the last: pure white
    assert_eq!(quantize_partial(10, &anchors), 0);
    assert_eq!(quantize_partial(250, &anchors), 255);
    // interior segments: the fixed ladder color of segment k, boundaries
    // 255/(n+2)-spaced
    let color = |k: usize| ((255 * (2 * k + 1)) / (2 * (n + 2))) as u8;
    assert_eq!(quantize_partial(100, &anchors), color(1));
    assert_eq!(quantize_partial(150, &anchors), color(2));
}

#[test]
fn quantize_partial_single_anchor() {
    let anchors = vec![128u8];
    assert_eq!(quantize_partial(0, &anchors), 0);
    assert_eq!(quantize_partial(127, &anchors), 0);
    assert_eq!(quantize_partial(128, &anchors), 255);
    assert_eq!(quantize_partial(255, &anchors), 255);
}

#[test]
fn quantize_partial_repeated_calls_agree() {
    let anchors = vec![30u8, 100, 220];
    for v in 0..=255u16 {
        let a = quantize_partial(v as u8, &anchors);
        let b = quantize_partial(v as u8, &anchors);
        assert_eq!(a, b);
    }
}

#[test]
fn reflection_sorts_unsorted_anchors() {
    let buf = buffer_from_pixels(1, 1, &[(100, 100, 100, 255)]);
    let unsorted = vec![192u8, 64, 128];
    let sorted = vec![64u8, 128, 192];
    let a = ImageProcessor::apply_color_reflection_with_mode(&buf, &unsorted, GrayscaleMode::Max)
        .unwrap();
    let b = ImageProcessor::apply_color_reflection_with_mode(&buf, &sorted, GrayscaleMode::Max)
        .unwrap();
    assert_eq!(a.data, b.data);
}

#[test]
fn reflection_rejects_bad_anchor_counts() {
    let buf = buffer_from_pixels(1, 1, &[(1, 2, 3, 255)]);
    let empty: Vec<u8> = vec![];
    let eleven: Vec<u8> = vec![10; 11];
    assert_eq!(
        ImageProcessor::apply_color_reflection_with_mode(&buf, &empty, GrayscaleMode::Default),
        Err(TransformError::InvalidAnchorCount)
    );
    assert_eq!(
        ImageProcessor::apply_color_reflection_partial_with_mode(
            &buf,
            &eleven,
            GrayscaleMode::Default
        ),
        Err(TransformError::InvalidAnchorCount)
    );
}

#[test]
fn transforms_reject_malformed_buffer() {
    // data length does not match width * height * 4
    let bad = PixelBuffer { width: 2, height: 2, data: vec![0u8; 7] };
    let anchors = vec![128u8];
    assert_eq!(
        ImageProcessor::convert_to_grayscale_custom(&bad),
        Err(TransformError::MalformedBuffer)
    );
    assert_eq!(
        ImageProcessor::apply_color_reflection_with_mode(&bad, &anchors, GrayscaleMode::Max),
        Err(TransformError::MalformedBuffer)
    );
    assert_eq!(
        ImageProcessor::apply_color_reflection_partial_with_mode(
            &bad,
            &anchors,
            GrayscaleMode::Min
        ),
        Err(TransformError::MalformedBuffer)
    );
    assert_eq!(ImageProcessor::clean_image(&bad), Err(TransformError::MalformedBuffer));
}

#[test]
fn denoise_majority_vote_center() {
    // 3x3 all opaque, border color A, center color B: the center takes A
    let a = (10u8, 10u8, 10u8, 255u8);
    let b = (200u8, 200u8, 200u8, 255u8);
    let buf = buffer_from_pixels(3, 3, &[a, a, a, a, b, a, a, a, a]);
    let out = ImageProcessor::clean_image(&buf).unwrap();
    assert_eq!(pixel_of(&out, 1, 1), a);
    for (x, y) in [(0, 0), (1, 0), (2, 0), (0, 1), (2, 1), (0, 2), (1, 2), (2, 2)] {
        assert_eq!(pixel_of(&out, x, y), a);
    }
}

#[test]
fn denoise_twice_on_uniform_buffer_is_identity() {
    // 3x3 opaque buffer of uniform color: both passes change nothing
    let c = (42u8, 43u8, 44u8, 255u8);
    let buf = buffer_from_pixels(3, 3, &[c; 9]);
    let once = ImageProcessor::clean_image(&buf).unwrap();
    assert_eq!(once.data, buf.data);
    let twice = ImageProcessor::clean_image(&once).unwrap();
    assert_eq!(twice.data, once.data);
}

#[test]
fn denoise_keeps_alpha_and_transparent_pixels() {
    let buf = buffer_from_pixels(
        2,
        1,
        &[(5, 6, 7, 0), (9, 9, 9, 77)],
    );
    let out = ImageProcessor::clean_image(&buf).unwrap();
    assert_eq!(pixel_of(&out, 0, 0), (5, 6, 7, 0));
    assert_eq!(pixel_of(&out, 1, 0).3, 77);
}

#[test]
fn denoise_ties_prefer_larger_red() {
    // 1x3 row: the middle pixel is isolated between two different colors
    // occurring once each; the one with the larger red channel wins
    let left = (200u8, 0u8, 0u8, 255u8);
    let mid = (1u8, 1u8, 1u8, 255u8);
    let right = (100u8, 0u8, 0u8, 255u8);
    let buf = buffer_from_pixels(3, 1, &[left, mid, right]);
    let out = ImageProcessor::clean_image(&buf).unwrap();
    assert_eq!(pixel_of(&out, 1, 0), (200, 0, 0, 255));
}

#[test]
fn denoise_pixel_matching_some_neighbor_is_kept() {
    let a = (10u8, 10u8, 10u8, 255u8);
    let b = (200u8, 200u8, 200u8, 255u8);
    // center shares its color with one neighbor: untouched
    let buf = buffer_from_pixels(3, 3, &[a, b, a, a, b, a, a, a, a]);
    let out = ImageProcessor::clean_image(&buf).unwrap();
    assert_eq!(pixel_of(&out, 1, 1), b);
}

#[test]
fn reflection_applies_quantizer_per_pixel() {
    // 2x1 buffer: gray levels 100 and 240 under anchors [64,128,192]
    let buf = buffer_from_pixels(2, 1, &[(100, 100, 100, 255), (240, 240, 240, 255)]);
    let anchors = vec![64u8, 128, 192];
    let out =
        ImageProcessor::apply_color_reflection_with_mode(&buf, &anchors, GrayscaleMode::Max)
            .unwrap();
    assert_eq!(pixel_of(&out, 0, 0), (96, 96, 96, 255));
    assert_eq!(pixel_of(&out, 1, 0), (191, 191, 191, 255));
    let out = ImageProcessor::apply_color_reflection_partial_with_mode(
        &buf,
        &anchors,
        GrayscaleMode::Max,
    )
    .unwrap();
    // ladder colors for n = 3: segment 1 -> 76, above last anchor -> 255
    assert_eq!(pixel_of(&out, 0, 0), (76, 76, 76, 255));
    assert_eq!(pixel_of(&out, 1, 0), (255, 255, 255, 255));
}
