use mandelbrot::raster::assemble;
use mandelbrot::raster::render_counts;
use mandelbrot::raster::render_in_bands;
use mandelbrot::raster::shade;
use mandelbrot::tiling::band_partition;
use mandelbrot::tiling::rows_per_band;

/// Deterministic stand-in for the escape-time kernel: an integer
/// pattern with both bounded and escaping pixels.
fn mock_counts(width: usize, height: usize) -> Vec<Option<u32>> {
    let mut counts = Vec::with_capacity(width * height);
    for row in 0..height {
        for column in 0..width {
            let k = (row * 31 + column * 7) % 256;
            if k == 255 {
                counts.push(None);
            } else {
                counts.push(Some(k as u32));
            }
        }
    }
    counts
}

fn check_tiling(height: usize, workers: usize) {
    let rpb = rows_per_band(height, workers);
    let bands = band_partition(height, workers);
    if height == 0 {
        assert!(bands.is_empty());
        return;
    }
    assert_eq!(bands[0].0, 0);
    for i in 0..bands.len() {
        let (top, h) = bands[i];
        assert!(h > 0);
        assert!(h <= rpb);
        if i + 1 < bands.len() {
            assert_eq!(top + h, bands[i + 1].0);
            assert_eq!(h, rpb);
        } else {
            assert_eq!(top + h, height);
        }
    }
}

#[test]
fn tiling_covers_without_gaps_or_overlaps() {
    check_tiling(750, 7);
    check_tiling(750, 5);
    check_tiling(750, 1);
    check_tiling(1, 7);
    check_tiling(7, 7);
    check_tiling(8, 7);
    check_tiling(0, 3);
    check_tiling(3000, 8);
}

#[test]
fn rows_per_band_rounds_up() {
    assert_eq!(rows_per_band(750, 7), 108);
    assert_eq!(rows_per_band(750, 5), 150);
    assert_eq!(rows_per_band(1, 1), 1);
    assert_eq!(rows_per_band(3, 8), 1);
    assert_eq!(rows_per_band(0, 4), 0);
}

#[test]
fn shade_maps_counts_to_gray_bytes() {
    assert_eq!(shade(None), 0);
    assert_eq!(shade(Some(0)), 255);
    assert_eq!(shade(Some(100)), 155);
    assert_eq!(shade(Some(254)), 1);
}

#[test]
fn render_counts_shades_pointwise() {
    let counts = vec![None, Some(0), Some(100), Some(254)];
    assert_eq!(render_counts(&counts), vec![0u8, 255, 155, 1]);
}

#[test]
fn assemble_concatenates_in_order() {
    let parts = vec![vec![1u8, 2], vec![], vec![3u8, 4, 5]];
    assert_eq!(assemble(&parts), vec![1u8, 2, 3, 4, 5]);
}

#[test]
fn render_equivalence_across_band_splits() {
    let width = 8;
    let height = 6;
    let counts = mock_counts(width, height);
    let whole = render_counts(&counts);
    for workers in 1..=(height + 2) {
        let bands = band_partition(height, workers);
        let mut parts: Vec<Vec<u8>> = Vec::new();
        for (top, h) in bands {
            let segment = counts[top * width..(top + h) * width].to_vec();
            parts.push(render_counts(&segment));
        }
        assert_eq!(assemble(&parts), whole);
    }
}

#[test]
fn render_in_bands_matches_whole_image() {
    let width = 10;
    let height = 7;
    let counts = mock_counts(width, height);
    let whole = render_counts(&counts);
    for workers in 1..=9 {
        assert_eq!(render_in_bands(&counts, width, height, workers), whole);
    }
}

#[test]
fn rendering_is_deterministic() {
    let counts = mock_counts(100, 100);
    let first = render_counts(&counts);
    let second = render_counts(&counts);
    assert_eq!(first, second);
}
