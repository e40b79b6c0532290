use colorquant::diffusion::{DitherError, ErrorComponent, Kernel};
use colorquant::ditherer;
use colorquant::encoder::{self, dither, KernelKind};
use colorquant::kernel::{atkinson, jjn, sierra_lite, stucki};
use colorquant::options::{repeat_count, speed_in_range, transparent_index};

const KINDS: [KernelKind; 4] = [KernelKind::Atkinson, KernelKind::Jjn, KernelKind::SierraLite, KernelKind::Stucki];

fn checkerboard() -> Vec<[u8; 4]> {
    let mut v = Vec::new();
    for y in 0..4 {
        for x in 0..4 {
            v.push(if (x + y) % 2 == 0 { [0, 0, 0, 255] } else { [255, 255, 255, 255] });
        }
    }
    v
}

fn share(k: &Kernel) -> f64 {
    k.taps.iter().map(|t| t.weight as f64 / k.divisor as f64).sum()
}

#[test]
fn checkerboard_dithers_to_itself() {
    let img = checkerboard();
    let palette = [[0, 0, 0], [255, 255, 255]];
    for kind in KINDS {
        assert_eq!(dither(&img, 4, 4, &palette, kind).unwrap(), img, "{:?}", kind);
    }
}

#[test]
fn single_color_image_dithers_to_itself() {
    let img = vec![[12, 200, 77, 3]; 64];
    let palette = [[12, 200, 77]];
    for kind in KINDS {
        assert_eq!(dither(&img, 8, 8, &palette, kind).unwrap(), img);
    }
}

#[test]
fn palette_image_keeps_every_pixel() {
    let palette = [[10, 20, 30], [200, 100, 0], [0, 0, 0]];
    let mut img = Vec::new();
    for i in 0..35 {
        let c = palette[(i * 7 + i / 3) % 3];
        img.push([c[0], c[1], c[2], i as u8]);
    }
    for kind in KINDS {
        assert_eq!(dither(&img, 7, 5, &palette, kind).unwrap(), img);
    }
}

#[test]
fn error_spreads_to_the_right() {
    let img = [[100, 100, 100, 255], [0, 0, 0, 255]];
    let out = encoder::sierra_lite_ditherer(&img, 2, 1, &[[0, 0, 0], [255, 255, 255]]).unwrap();
    assert_eq!(out, vec![[100, 100, 100, 255], [50, 50, 50, 255]]);
}

#[test]
fn negative_error_rounds_down() {
    let img = [[200, 200, 200, 7], [250, 250, 250, 9]];
    let out = encoder::sierra_lite_ditherer(&img, 2, 1, &[[255, 255, 255], [0, 0, 0]]).unwrap();
    assert_eq!(out, vec![[200, 200, 200, 7], [222, 222, 222, 9]]);
}

#[test]
fn channels_are_clamped() {
    let img = [[127, 127, 127, 0], [250, 10, 250, 0]];
    let out = encoder::sierra_lite_ditherer(&img, 2, 1, &[[0, 0, 0], [255, 255, 255]]).unwrap();
    assert_eq!(out, vec![[127, 127, 127, 0], [255, 73, 255, 0]]);
    let img = [[128, 128, 128, 0], [5, 200, 5, 0]];
    let out = encoder::sierra_lite_ditherer(&img, 2, 1, &[[0, 0, 0], [255, 255, 255]]).unwrap();
    assert_eq!(out, vec![[128, 128, 128, 0], [0, 136, 0, 0]]);
}

#[test]
fn errors_accumulate_in_the_output() {
    let img = [[40, 40, 40, 1], [40, 40, 40, 1], [0, 0, 0, 1]];
    let out = encoder::sierra_lite_ditherer(&img, 3, 1, &[[0, 0, 0]]).unwrap();
    assert_eq!(out, vec![[40, 40, 40, 1], [60, 60, 60, 1], [20, 20, 20, 1]]);
}

#[test]
fn argb_skips_last_row_and_column() {
    let img = vec![[255, 100, 100, 100]; 4];
    let palette = [[255, 0, 0, 0], [255, 255, 255, 255]];
    let out = ditherer::atkinson_ditherer(&img, 2, 2, &palette).unwrap();
    assert_eq!(out, vec![[255, 100, 100, 100], [255, 112, 112, 112], [255, 112, 112, 112], [255, 112, 112, 112]]);
}

#[test]
fn argb_alpha_plays_no_part() {
    let img = vec![[0, 100, 100, 100]; 4];
    let palette = [[0, 255, 255, 255], [255, 0, 0, 0]];
    let out = ditherer::sierra_lite_ditherer(&img, 2, 2, &palette).unwrap();
    assert_eq!(out, vec![[0, 100, 100, 100], [0, 150, 150, 150], [0, 125, 125, 125], [0, 100, 100, 100]]);
}

#[test]
fn rgba_visits_every_pixel() {
    let img = vec![[0, 0, 0, 0], [0, 0, 0, 0], [0, 0, 0, 0], [80, 80, 80, 0]];
    let out = encoder::jjn_ditherer(&img, 2, 2, &[[0, 0, 0]]).unwrap();
    assert_eq!(out, img);
    let img = vec![[96, 96, 96, 0], [0, 0, 0, 0], [0, 0, 0, 0], [0, 0, 0, 0]];
    let out = encoder::jjn_ditherer(&img, 2, 2, &[[0, 0, 0]]).unwrap();
    assert_eq!(out, vec![[96, 96, 96, 0], [14, 14, 14, 0], [14, 14, 14, 0], [10, 10, 10, 0]]);
    let out = encoder::stucki_ditherer(&img, 2, 2, &[[0, 0, 0]]).unwrap();
    assert_eq!(out, vec![[96, 96, 96, 0], [16, 16, 16, 0], [16, 16, 16, 0], [8, 8, 8, 0]]);
}

#[test]
fn size_mismatch_is_refused() {
    let img = vec![[0, 0, 0, 0]; 3];
    assert_eq!(dither(&img, 2, 2, &[[0, 0, 0]], KernelKind::Atkinson), Err(DitherError::InvalidDimensions));
    assert_eq!(dither(&img, -1, 3, &[[0, 0, 0]], KernelKind::Jjn), Err(DitherError::InvalidDimensions));
    assert_eq!(
        ditherer::stucki_ditherer(&img, 1, 2, &[[0, 0, 0, 0]]),
        Err(DitherError::InvalidDimensions)
    );
}

#[test]
fn empty_palette_is_refused() {
    let img = vec![[0, 0, 0, 0]; 4];
    assert_eq!(dither(&img, 2, 2, &[], KernelKind::SierraLite), Err(DitherError::EmptyPalette));
    assert_eq!(ditherer::jjn_ditherer(&img, 4, 1, &[]), Err(DitherError::EmptyPalette));
}

#[test]
fn empty_image_is_accepted() {
    assert_eq!(dither(&[], 0, 5, &[[1, 2, 3]], KernelKind::Stucki), Ok(vec![]));
}

#[test]
fn kernel_shares() {
    assert!((share(&jjn()) - 1.0).abs() < 1e-9);
    assert!((share(&sierra_lite()) - 1.0).abs() < 1e-9);
    assert!((share(&atkinson()) - 0.75).abs() < 1e-9);
    assert!((share(&stucki()) - 42.0 / 48.0).abs() < 1e-9);
    assert_eq!(atkinson().taps.len(), 6);
    assert_eq!(jjn().taps.len(), 12);
    assert_eq!(sierra_lite().taps.len(), 3);
    assert_eq!(stucki().taps.len(), 12);
}

#[test]
fn custom_kernel() {
    let k = Kernel { taps: vec![ErrorComponent { delta_x: 0, delta_y: 1, weight: 1 }], divisor: 1 };
    let img = [[30, 0, 0, 0], [0, 0, 0, 0]];
    let out = encoder::ditherer(&img, 1, 2, &[[0, 0, 0]], &k).unwrap();
    assert_eq!(out, vec![[30, 0, 0, 0], [30, 0, 0, 0]]);
}

#[test]
fn frame_settings() {
    assert!(!speed_in_range(0));
    assert!(speed_in_range(1));
    assert!(speed_in_range(29));
    assert!(!speed_in_range(30));
    assert_eq!(transparent_index(-1), None);
    assert_eq!(transparent_index(0), Some(0));
    assert_eq!(transparent_index(254), Some(254));
    assert_eq!(transparent_index(255), None);
    assert_eq!(repeat_count(0), Some(0));
    assert_eq!(repeat_count(65534), Some(65534));
    assert_eq!(repeat_count(65535), None);
    assert_eq!(repeat_count(-3), None);
}

#[test]
fn negative_sides_with_matching_area_visit_nothing() {
    let img = vec![[90, 10, 200, 7]];
    for kind in KINDS {
        assert_eq!(dither(&img, -1, -1, &[[0, 0, 0]], kind), Ok(img.clone()));
    }
    assert_eq!(ditherer::atkinson_ditherer(&img, -1, -1, &[[0, 0, 0, 0]]), Ok(img.clone()));
    assert_eq!(dither(&img, -1, -1, &[], KernelKind::Stucki), Err(DitherError::EmptyPalette));
    let img3 = vec![[90, 10, 200, 7]; 3];
    assert_eq!(dither(&img3, -3, -1, &[[0, 0, 0]], KernelKind::Atkinson), Ok(img3.clone()));
}
