use fractal_render::band::{partition, rows_per_band, Band};
use fractal_render::workers::{default_workers, workers_for};

fn covers_rows(bands: &[Band], height: usize) -> bool {
    let mut next = 0;
    for band in bands {
        if band.top != next || band.rows == 0 {
            return false;
        }
        next += band.rows;
    }
    next == height
}

#[test]
fn rows_per_band_rounds_up() {
    assert_eq!(rows_per_band(750, 8), 94);
    assert_eq!(rows_per_band(75, 4), 19);
    assert_eq!(rows_per_band(8, 8), 1);
    assert_eq!(rows_per_band(9, 8), 2);
    assert_eq!(rows_per_band(3, 8), 1);
    assert_eq!(rows_per_band(600, 1), 600);
    assert_eq!(rows_per_band(0, 4), 0);
    assert_eq!(rows_per_band(usize::MAX, 1), usize::MAX);
    assert_eq!(rows_per_band(usize::MAX, usize::MAX), 1);
}

#[test]
fn partition_of_750_rows_for_8_workers() {
    let bands = partition(750, 8);
    assert_eq!(bands.len(), 8);
    for i in 0..7 {
        assert_eq!(bands[i], Band { top: 94 * i, rows: 94 });
    }
    assert_eq!(bands[7], Band { top: 658, rows: 92 });
    assert!(covers_rows(&bands, 750));
}

#[test]
fn partition_of_fewer_rows_than_workers() {
    let bands = partition(3, 8);
    assert_eq!(
        bands,
        vec![Band { top: 0, rows: 1 }, Band { top: 1, rows: 1 }, Band { top: 2, rows: 1 }]
    );
    assert!(covers_rows(&bands, 3));
}

#[test]
fn partition_drops_the_bands_that_would_be_empty() {
    let bands = partition(9, 8);
    assert_eq!(bands.len(), 5);
    assert_eq!(bands[4], Band { top: 8, rows: 1 });
    assert!(covers_rows(&bands, 9));
}

#[test]
fn partition_for_one_worker_is_the_whole_image() {
    assert_eq!(partition(75, 1), vec![Band { top: 0, rows: 75 }]);
}

#[test]
fn partition_of_no_rows_has_no_band() {
    assert_eq!(partition(0, 1), vec![]);
    assert_eq!(partition(0, 8), vec![]);
}

#[test]
fn partition_tiles_every_small_image() {
    for height in 0..60 {
        for workers in 1..20 {
            let bands = partition(height, workers);
            assert!(bands.len() <= workers);
            assert!(covers_rows(&bands, height));
            let per = rows_per_band(height, workers);
            for band in bands.iter().rev().skip(1) {
                assert_eq!(band.rows, per);
            }
        }
    }
}

#[test]
fn corners_are_the_ends_of_the_band_in_the_image() {
    let band = Band { top: 19, rows: 19 };
    assert_eq!(band.corners(100), ((0, 19), (100, 38)));
    let whole = Band { top: 0, rows: 75 };
    assert_eq!(whole.corners(100), ((0, 0), (100, 75)));
}

#[test]
fn workers_for_counts_at_least_one() {
    assert_eq!(workers_for(0), 1);
    assert_eq!(workers_for(1), 1);
    assert_eq!(workers_for(8), 8);
}

#[test]
fn default_workers_is_at_least_one() {
    assert!(default_workers() >= 1);
}
