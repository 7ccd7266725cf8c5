use fractal_render::band::{partition, Band};
use fractal_render::render::{intensity, render, render_bands};
use num::Complex;

fn escape_time(c: Complex<f64>, limit: u32) -> Option<u32> {
    let mut z = Complex { re: 0.0, im: 0.0 };
    for i in 0..limit {
        z = z * z + c;
        if z.norm_sqr() > 4.0 {
            return Some(i);
        }
    }
    None
}

fn pixel_to_point(
    bounds: (usize, usize),
    pixel: (usize, usize),
    upper_left: Complex<f64>,
    lower_right: Complex<f64>,
) -> Complex<f64> {
    let (width, height) = (lower_right.re - upper_left.re, upper_left.im - lower_right.im);
    Complex {
        re: upper_left.re + pixel.0 as f64 * width / bounds.0 as f64,
        im: upper_left.im - pixel.1 as f64 * height / bounds.1 as f64,
    }
}

fn mandelbrot(
    bounds: (usize, usize),
    upper_left: Complex<f64>,
    lower_right: Complex<f64>,
) -> impl Fn(Band, usize, usize) -> Option<u32> + Sync {
    move |band: Band, col: usize, row: usize| {
        let (first, last) = band.corners(bounds.0);
        let band_upper_left = pixel_to_point(bounds, first, upper_left, lower_right);
        let band_lower_right = pixel_to_point(bounds, last, upper_left, lower_right);
        let point =
            pixel_to_point((bounds.0, band.rows), (col, row), band_upper_left, band_lower_right);
        escape_time(point, 255)
    }
}

fn steps(width: usize) -> impl Fn(Band, usize, usize) -> Option<u32> + Sync {
    move |band: Band, col: usize, row: usize| {
        let n = ((band.top + row) * width + col) as u32;
        if n % 7 == 0 {
            None
        } else {
            Some(n % 300)
        }
    }
}

#[test]
fn intensity_of_the_escape_steps() {
    assert_eq!(intensity(Some(0)), 255);
    assert_eq!(intensity(None), 0);
    assert_eq!(intensity(Some(254)), 1);
    assert_eq!(intensity(Some(1)), 254);
    assert_eq!(intensity(Some(100)), 155);
    assert_eq!(intensity(Some(255)), 0);
}

#[test]
fn intensity_counts_the_low_eight_bits_of_the_step() {
    assert_eq!(intensity(Some(256)), 255);
    assert_eq!(intensity(Some(257)), 254);
    assert_eq!(intensity(Some(u32::MAX)), 0);
}

#[test]
fn render_writes_each_pixel_once_in_row_major_order() {
    let mut pixels = vec![7u8; 6];
    let band = Band { top: 0, rows: 2 };
    render(&mut pixels, band, 3, 1, &|_band: Band, col: usize, row: usize| {
        Some((row * 3 + col) as u32)
    });
    assert_eq!(pixels, vec![255, 254, 253, 252, 251, 250]);
}

#[test]
fn render_writes_black_for_bounded_pixels() {
    let mut pixels = vec![9u8; 4];
    let band = Band { top: 0, rows: 2 };
    render(&mut pixels, band, 2, 1, &|_band: Band, col: usize, _row: usize| {
        if col == 0 {
            None
        } else {
            Some(254)
        }
    });
    assert_eq!(pixels, vec![0, 1, 0, 1]);
}

#[test]
fn render_repeats_the_level_in_every_channel() {
    let mut pixels = vec![0u8; 12];
    let band = Band { top: 0, rows: 2 };
    render(&mut pixels, band, 2, 3, &|_band: Band, col: usize, row: usize| {
        Some((10 * row + col) as u32)
    });
    assert_eq!(pixels, vec![255, 255, 255, 254, 254, 254, 245, 245, 245, 244, 244, 244]);
}

#[test]
fn render_hands_the_band_to_the_kernel() {
    let mut pixels = vec![0u8; 4];
    let band = Band { top: 5, rows: 2 };
    render(&mut pixels, band, 2, 1, &|band: Band, _col: usize, row: usize| {
        Some((band.top + row) as u32)
    });
    assert_eq!(pixels, vec![250, 250, 249, 249]);
}

#[test]
fn render_of_an_empty_band_writes_nothing() {
    let mut pixels: Vec<u8> = vec![];
    render(&mut pixels, Band { top: 0, rows: 0 }, 5, 3, &steps(5));
    assert_eq!(pixels, Vec::<u8>::new());
    render(&mut pixels, Band { top: 0, rows: 4 }, 0, 3, &steps(0));
    assert_eq!(pixels, Vec::<u8>::new());
}

#[test]
fn render_bands_puts_each_band_at_its_rows() {
    let mut pixels = vec![0u8; 2 * 5];
    render_bands(&mut pixels, (2, 5), 1, 3, &|band: Band, col: usize, row: usize| {
        Some((100 * band.top + 10 * row + col) as u32 % 256)
    });
    // Three workers give bands of two, two and one rows.
    assert_eq!(pixels, vec![255, 254, 245, 244, 55, 54, 45, 44, 111, 110]);
}

#[test]
fn render_bands_is_the_same_for_every_worker_count() {
    let (width, height) = (13, 17);
    for channels in [1, 3] {
        let mut whole = vec![0u8; width * height * channels];
        render_bands(&mut whole, (width, height), channels, 1, &steps(width));
        for workers in 2..25 {
            let mut banded = vec![1u8; width * height * channels];
            render_bands(&mut banded, (width, height), channels, workers, &steps(width));
            assert_eq!(banded, whole);
        }
    }
}

#[test]
fn render_bands_with_one_worker_is_render_of_the_whole_image() {
    let (width, height) = (13, 17);
    let mut whole = vec![0u8; width * height * 3];
    render(&mut whole, Band { top: 0, rows: height }, width, 3, &steps(width));
    let mut banded = vec![0u8; width * height * 3];
    render_bands(&mut banded, (width, height), 3, 1, &steps(width));
    assert_eq!(banded, whole);
}

#[test]
fn render_bands_of_an_image_without_rows() {
    let mut pixels: Vec<u8> = vec![];
    render_bands(&mut pixels, (10, 0), 1, 4, &steps(10));
    assert_eq!(pixels, Vec::<u8>::new());
}

#[test]
fn mandelbrot_in_one_band_and_in_four() {
    let bounds = (100, 75);
    let upper_left = Complex { re: -1.25, im: 0.32 };
    let lower_right = Complex { re: -1.0, im: 0.20 };
    let kernel = mandelbrot(bounds, upper_left, lower_right);

    let mut single = vec![0u8; bounds.0 * bounds.1];
    render_bands(&mut single, bounds, 1, 1, &kernel);
    let mut four = vec![0u8; bounds.0 * bounds.1];
    render_bands(&mut four, bounds, 1, 4, &kernel);

    assert_eq!(single, four);
    assert!(single.iter().any(|&level| level == 0));
    assert!(single.iter().any(|&level| level != 0));
}

#[test]
fn mandelbrot_on_four_threads_is_the_banded_image() {
    let bounds = (100, 75);
    let upper_left = Complex { re: -1.25, im: 0.32 };
    let lower_right = Complex { re: -1.0, im: 0.20 };
    let kernel = mandelbrot(bounds, upper_left, lower_right);

    let mut in_turn = vec![0u8; bounds.0 * bounds.1 * 3];
    render_bands(&mut in_turn, bounds, 3, 4, &kernel);

    let mut at_once = vec![0u8; bounds.0 * bounds.1 * 3];
    {
        let kernel = &kernel;
        let mut rest: &mut [u8] = &mut at_once;
        crossbeam::scope(|scope| {
            for band in partition(bounds.1, 4) {
                let (head, tail) = rest.split_at_mut(bounds.0 * band.rows * 3);
                rest = tail;
                scope.spawn(move |_| render(head, band, bounds.0, 3, kernel));
            }
        })
        .unwrap();
    }
    assert_eq!(at_once, in_turn);
}

#[test]
fn mandelbrot_origin_is_black_and_far_points_are_white() {
    let bounds = (4, 4);
    let mut pixels = vec![9u8; 16];
    let inside = mandelbrot(bounds, Complex { re: -0.1, im: 0.1 }, Complex { re: 0.1, im: -0.1 });
    render_bands(&mut pixels, bounds, 1, 2, &inside);
    assert_eq!(pixels, vec![0u8; 16]);
    let outside = mandelbrot(bounds, Complex { re: 5.0, im: 6.0 }, Complex { re: 6.0, im: 5.0 });
    render_bands(&mut pixels, bounds, 1, 2, &outside);
    assert_eq!(pixels, vec![255u8; 16]);
}

#[test]
fn test_pixel_to_point() {
    assert_eq!(pixel_to_point((100, 100), (25, 75),
                              Complex { re: -1.0, im: 1.0 },
                              Complex { re: 1.0, im: -1.0 }),
               Complex { re: -0.5, im: -0.5 });
}

#[test]
fn escape_time_of_the_origin_and_of_a_far_point() {
    for limit in [1, 2, 255, 10_000] {
        assert_eq!(escape_time(Complex { re: 0.0, im: 0.0 }, limit), None);
        assert_eq!(escape_time(Complex { re: 5.0, im: 5.0 }, limit), Some(0));
    }
}
