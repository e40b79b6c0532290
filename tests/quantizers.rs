use colorquant::kmeans::{kmeans_palette, kmeans_quantizer};
use colorquant::median_cut::mediancut_quantizer;
use colorquant::octree::octtree_quantizer;
use colorquant::palette::QuantizeError;
use colorquant::quantizer::{quantize, quantize_with_status, Strategy};

const BLACK: [u8; 4] = [0, 0, 0, 255];
const WHITE: [u8; 4] = [255, 255, 255, 255];

fn checkerboard() -> Vec<[u8; 4]> {
    let mut v = Vec::new();
    for y in 0..4 {
        for x in 0..4 {
            v.push(if (x + y) % 2 == 0 { BLACK } else { WHITE });
        }
    }
    v
}

fn strategies() -> [Strategy; 3] {
    [Strategy::Octree, Strategy::MedianCut, Strategy::KMeans]
}

fn distinct(colors: &[[u8; 4]]) -> usize {
    let mut seen: Vec<[u8; 3]> = Vec::new();
    for c in colors {
        let rgb = [c[0], c[1], c[2]];
        if !seen.contains(&rgb) {
            seen.push(rgb);
        }
    }
    seen.len()
}

fn sample_image() -> Vec<[u8; 4]> {
    let mut v = Vec::new();
    let mut s: u32 = 12345;
    for _ in 0..300 {
        s = s.wrapping_mul(1103515245).wrapping_add(12345);
        let r = (s >> 16) as u8;
        let g = (s >> 8) as u8;
        let b = (s >> 24) as u8;
        v.push([r & 0xf0, g & 0xe0, b, 255]);
    }
    v
}

#[test]
fn checkerboard_gives_black_and_white() {
    let img = checkerboard();
    for strategy in strategies() {
        let mut p = quantize(&img, 2, false, strategy).unwrap();
        p.sort();
        assert_eq!(p, vec![[0, 0, 0], [255, 255, 255]], "{:?}", strategy);
        let sorted = quantize(&img, 2, true, strategy).unwrap();
        assert_eq!(sorted, vec![[0, 0, 0], [255, 255, 255]], "{:?}", strategy);
    }
}

#[test]
fn single_color_image_gives_that_color() {
    let img = vec![[12, 200, 77, 255]; 64];
    for strategy in strategies() {
        for sorted in [false, true] {
            assert_eq!(quantize(&img, 16, sorted, strategy).unwrap(), vec![[12, 200, 77]], "{:?}", strategy);
        }
    }
}

#[test]
fn octree_single_color_many_copies() {
    let img = vec![[1, 2, 3, 0]; 1000];
    assert_eq!(octtree_quantizer(&img, 1, false).unwrap(), vec![[1, 2, 3]]);
    assert_eq!(octtree_quantizer(&img, 256, true).unwrap(), vec![[1, 2, 3]]);
}

#[test]
fn median_cut_single_color_does_not_split() {
    let img = vec![[9, 9, 9, 9]; 10];
    assert_eq!(mediancut_quantizer(&img, 5, false).unwrap(), vec![[9, 9, 9]]);
}

#[test]
fn empty_input_is_refused() {
    for strategy in strategies() {
        assert_eq!(quantize(&[], 4, false, strategy), Err(QuantizeError::InvalidInput));
    }
}

#[test]
fn zero_palette_size_is_refused() {
    let img = checkerboard();
    for strategy in strategies() {
        assert_eq!(quantize(&img, 0, true, strategy), Err(QuantizeError::InvalidInput));
    }
}

#[test]
fn palette_is_bounded_distinct_and_sorted() {
    let img = sample_image();
    let d = distinct(&img);
    for strategy in strategies() {
        for k in [1usize, 2, 3, 7, 16, 64] {
            let p = quantize(&img, k, true, strategy).unwrap();
            assert!(p.len() <= k, "{:?} {}", strategy, k);
            assert!(!p.is_empty());
            for i in 1..p.len() {
                assert!(p[i - 1] < p[i], "{:?} {}", strategy, k);
            }
            if strategy != Strategy::MedianCut {
                assert!(p.len() <= d);
            }
            let u = quantize(&img, k, false, strategy).unwrap();
            let mut s = u.clone();
            s.sort();
            assert_eq!(s, p);
        }
    }
}

#[test]
fn octree_folds_the_deepest_latest_branch() {
    let img = vec![[0, 0, 0, 255], [255, 255, 255, 255], [254, 254, 254, 255]];
    assert_eq!(octtree_quantizer(&img, 2, false).unwrap(), vec![[0, 0, 0], [254, 254, 254]]);
    assert_eq!(octtree_quantizer(&img, 3, false).unwrap(), vec![[0, 0, 0], [255, 255, 255], [254, 254, 254]]);
    assert_eq!(octtree_quantizer(&img, 1, false).unwrap(), vec![[169, 169, 169]]);
}

#[test]
fn median_cut_splits_widest_cluster_at_median() {
    let mut img = vec![[0, 0, 0, 255]; 3];
    img.extend(vec![[3, 0, 0, 255]; 7]);
    assert_eq!(mediancut_quantizer(&img, 3, false).unwrap(), vec![[3, 0, 0], [0, 0, 0], [2, 0, 0]]);
    assert_eq!(mediancut_quantizer(&img, 2, true).unwrap(), vec![[1, 0, 0], [3, 0, 0]]);
}

#[test]
fn median_cut_counts_duplicates_in_the_mean() {
    let img = vec![[10, 0, 0, 0], [10, 0, 0, 0], [10, 0, 0, 0], [40, 0, 0, 0]];
    assert_eq!(mediancut_quantizer(&img, 1, false).unwrap(), vec![[17, 0, 0]]);
}

#[test]
fn kmeans_fast_path_returns_distinct_colors() {
    let img = vec![[5, 5, 5, 1], [1, 1, 1, 1], [5, 5, 5, 2], [3, 3, 3, 3]];
    assert_eq!(kmeans_quantizer(&img, 3, false).unwrap(), vec![[5, 5, 5], [1, 1, 1], [3, 3, 3]]);
    assert_eq!(kmeans_quantizer(&img, 8, true).unwrap(), vec![[1, 1, 1], [3, 3, 3], [5, 5, 5]]);
}

#[test]
fn kmeans_converges_to_cluster_means() {
    let img = vec![[0, 0, 0, 255], [10, 0, 0, 255], [200, 0, 0, 255], [210, 0, 0, 255]];
    let p = kmeans_palette(&img, 2, false).unwrap();
    assert_eq!(p.palette, vec![[5, 0, 0], [205, 0, 0]]);
    assert!(p.converged);
}

#[test]
fn kmeans_weights_colors_by_frequency() {
    let img = vec![[0, 0, 0, 0], [0, 0, 0, 0], [0, 0, 0, 0], [4, 0, 0, 0], [100, 0, 0, 0]];
    assert_eq!(kmeans_quantizer(&img, 2, false).unwrap(), vec![[1, 0, 0], [100, 0, 0]]);
}

#[test]
fn kmeans_palette_matches_quantizer() {
    let img = sample_image();
    let p = kmeans_palette(&img, 8, true).unwrap();
    assert_eq!(p.palette, kmeans_quantizer(&img, 8, true).unwrap());
    assert!(p.palette.len() <= 8);
}

#[test]
fn quantize_reports_whether_it_settled() {
    let img = vec![[0, 0, 0, 255], [10, 0, 0, 255], [200, 0, 0, 255], [210, 0, 0, 255]];
    let o = quantize_with_status(&img, 2, false, Strategy::KMeans).unwrap();
    assert_eq!(o.palette, vec![[5, 0, 0], [205, 0, 0]]);
    assert!(o.converged);
    let sample = sample_image();
    for strategy in strategies() {
        let o = quantize_with_status(&sample, 8, true, strategy).unwrap();
        assert_eq!(o.palette, quantize(&sample, 8, true, strategy).unwrap());
        if strategy != Strategy::KMeans {
            assert!(o.converged);
        }
    }
    assert_eq!(quantize_with_status(&[], 3, true, Strategy::KMeans).err(), Some(QuantizeError::InvalidInput));
}
