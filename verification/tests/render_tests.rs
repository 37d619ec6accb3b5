use mandelbrot::render::{intensity, render, render_banded};
use mandelbrot::tiles::{band_ranges, rows_per_band, vec_2d_to_1d};

#[test]
fn test_vec_2d_to_1d() {
    assert_eq!(
        vec_2d_to_1d(vec![vec![3, 51, 35, 45, 11, 3], vec![2, 12, 34, 66, 74, 45]]),
        vec![3, 51, 35, 45, 11, 3, 2, 12, 34, 66, 74, 45]
    );
    assert_eq!(
        vec_2d_to_1d(vec![vec![1, 2, 3, 4], vec![2, 12]]),
        vec![1, 2, 3, 4, 2, 12]
    );
    assert_ne!(
        vec_2d_to_1d(vec![vec![1, 2, 3, 4], vec![2, 3, 12]]),
        vec![1, 2, 3, 4, 2, 12]
    );
}

#[test]
fn test_intensity() {
    assert_eq!(intensity(None), 0);
    assert_eq!(intensity(Some(0)), 255);
    assert_eq!(intensity(Some(1)), 254);
    assert_eq!(intensity(Some(254)), 1);
    assert_eq!(intensity(Some(255)), 0);
    assert_eq!(intensity(Some(300)), 0);
}

#[test]
fn test_render_maps_counts() {
    let counts = vec![None, Some(0), Some(1), Some(254), Some(255), Some(300)];
    assert_eq!(render(&counts, 3, 2), vec![0, 255, 254, 1, 0, 0]);
}

#[test]
fn test_rows_per_band() {
    assert_eq!(rows_per_band(1000, 8), 125);
    assert_eq!(rows_per_band(10, 3), 4);
    assert_eq!(rows_per_band(7, 8), 1);
    assert_eq!(rows_per_band(8, 8), 1);
    assert_eq!(rows_per_band(9, 8), 2);
    assert_eq!(rows_per_band(1, 1), 1);
}

#[test]
fn test_band_ranges() {
    assert_eq!(band_ranges(10, 3), vec![(0, 3), (3, 3), (6, 3), (9, 1)]);
    assert_eq!(band_ranges(10, 5), vec![(0, 5), (5, 5)]);
    assert_eq!(band_ranges(3, 10), vec![(0, 3)]);
    assert_eq!(band_ranges(1, 1), vec![(0, 1)]);
}

#[test]
fn test_band_ranges_cover_all_rows() {
    for height in 1..40usize {
        for rpb in 1..12usize {
            let ranges = band_ranges(height, rpb);
            let total: usize = ranges.iter().map(|&(_, h)| h).sum();
            assert_eq!(total, height);
            let mut next = 0;
            for &(top, h) in &ranges {
                assert_eq!(top, next);
                assert!(h >= 1 && h <= rpb);
                next = top + h;
            }
            assert_eq!(next, height);
        }
    }
}

#[test]
fn test_bands_reassemble_raster() {
    // A 5-row, 4-column raster split into bands of 2 rows: concatenating
    // the band buffers in order reproduces the full flat buffer.
    let width = 4usize;
    let height = 5usize;
    let full: Vec<u8> = (0..(width * height) as u8).collect();
    let ranges = band_ranges(height, 2);
    let mut bands: Vec<Vec<u8>> = Vec::new();
    for &(top, h) in &ranges {
        bands.push(full[top * width..(top + h) * width].to_vec());
    }
    assert_eq!(vec_2d_to_1d(bands), full);
}

#[test]
fn test_banded_render_matches_single() {
    // The same escape counts rendered in one piece and band by band give
    // byte-identical buffers, whatever the band size.
    let width = 5usize;
    let height = 4usize;
    let mut counts: Vec<Option<u32>> = Vec::new();
    for k in 0..(width * height) as u32 {
        counts.push(match k % 4 {
            0 => None,
            1 => Some(k),
            2 => Some(255 + k),
            _ => Some(254),
        });
    }
    let single = render(&counts, width, height);
    for rpb in 1..7usize {
        assert_eq!(render_banded(&counts, width, height, rpb), single);
    }
}
