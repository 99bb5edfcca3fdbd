use drawrs::choices::ImageProcessingMethod;
use drawrs::grid::IntensityGrid;
use drawrs::threshold::ImageProcessor;

fn grid_of(width: usize, height: usize, levels: u32, data: Vec<u16>) -> IntensityGrid {
    IntensityGrid::new(width, height, levels, data).expect("well-formed grid")
}

fn uniform_grid(width: usize, height: usize, levels: u32, value: u16) -> IntensityGrid {
    grid_of(width, height, levels, vec![value; width * height])
}

#[test]
fn otsu_two_level_lands_strictly_between() {
    // Half the pixels at intensity 10, half at 60000, full 16-bit range.
    let mut data = vec![10u16; 32];
    data.extend(vec![60000u16; 32]);
    let grid = grid_of(8, 8, 65536, data);
    let t = ImageProcessor::calculate_otsu_threshold(&grid);
    assert!(t > 10);
    assert!(t < 60000);
}

#[test]
fn otsu_uniform_grid_falls_back_to_zero() {
    let grid = uniform_grid(40, 40, 256, 7);
    assert_eq!(ImageProcessor::calculate_otsu_threshold(&grid), 0);
}

#[test]
fn kapur_uniform_grid_falls_back_to_zero() {
    let grid = uniform_grid(16, 16, 64, 7);
    assert_eq!(ImageProcessor::calculate_kapur_threshold(&grid), 0);
}

#[test]
fn wolf_uniform_grid_falls_back_to_mid_range() {
    let grid = uniform_grid(12, 12, 256, 7);
    assert_eq!(ImageProcessor::calculate_wolf_threshold(&grid), 128);
}

#[test]
fn wolf_contrast_weighted_mean_is_exact() {
    // A 3x3 grid with values 0..=8: every clipped window covers the whole
    // grid, so every pixel has the same contrast and the threshold is half
    // the mean intensity.
    let grid = grid_of(3, 3, 16, vec![0, 1, 2, 3, 4, 5, 6, 7, 8]);
    assert_eq!(ImageProcessor::calculate_wolf_threshold(&grid), 2);
}

#[test]
fn sauvola_uniform_grid_is_half_the_value() {
    // Uniform interior windows have zero deviation, so every per-pixel
    // threshold is half the mean.
    let grid = uniform_grid(40, 40, 256, 7);
    assert_eq!(ImageProcessor::calculate_sauvola_threshold(&grid), 3);
}

#[test]
fn sauvola_without_full_windows_falls_back_to_mid_range() {
    let grid = uniform_grid(10, 10, 256, 7);
    assert_eq!(ImageProcessor::calculate_sauvola_threshold(&grid), 128);
}

#[test]
fn bernsen_uniform_grid_is_the_value() {
    let grid = uniform_grid(40, 40, 256, 7);
    assert_eq!(ImageProcessor::calculate_bernsen_threshold(&grid), 7);
}

#[test]
fn bernsen_without_full_windows_falls_back_to_mid_range() {
    let grid = uniform_grid(20, 20, 256, 9);
    assert_eq!(ImageProcessor::calculate_bernsen_threshold(&grid), 128);
}

#[test]
fn process_image_keeps_the_grid_shape() {
    let mut data = vec![10u16; 50];
    data.extend(vec![200u16; 50]);
    let grid = grid_of(10, 10, 256, data);
    let methods = [
        ImageProcessingMethod::Otsu,
        ImageProcessingMethod::Kapur,
        ImageProcessingMethod::Wolfs,
        ImageProcessingMethod::Bernsens,
        ImageProcessingMethod::Sauvola,
    ];
    for m in methods {
        let mask = ImageProcessor::process_image(&grid, m);
        assert_eq!(mask.width(), 10);
        assert_eq!(mask.height(), 10);
    }
}

#[test]
fn process_image_otsu_marks_bright_pixels_foreground() {
    // Global strategies mark a pixel foreground when it lies above the
    // cutoff.
    let mut data = vec![10u16; 50];
    data.extend(vec![200u16; 50]);
    let grid = grid_of(10, 10, 256, data);
    let mask = ImageProcessor::process_image(&grid, ImageProcessingMethod::Otsu);
    assert!(!mask.get(0, 0));
    assert!(mask.get(9, 9));
}

#[test]
fn threshold_is_idempotent_across_calls() {
    let mut data = Vec::new();
    for i in 0..400u32 {
        data.push(((i * 37) % 256) as u16);
    }
    let methods = [
        ImageProcessingMethod::Otsu,
        ImageProcessingMethod::Kapur,
        ImageProcessingMethod::Wolfs,
        ImageProcessingMethod::Bernsens,
        ImageProcessingMethod::Sauvola,
    ];
    for m in methods {
        let g1 = grid_of(20, 20, 256, data.clone());
        let g2 = grid_of(20, 20, 256, data.clone());
        let m1 = ImageProcessor::process_image(&g1, m);
        let m2 = ImageProcessor::process_image(&g2, m);
        assert_eq!(m1.width(), m2.width());
        assert_eq!(m1.height(), m2.height());
        for y in 0..20 {
            for x in 0..20 {
                assert_eq!(m1.get(x, y), m2.get(x, y));
            }
        }
    }
}

#[test]
fn class_statistics_split_the_histogram() {
    let hist: Vec<u64> = vec![2, 0, 3];
    let (c0, c1, s0, s1) = ImageProcessor::calculate_class_statistics(&hist, 0);
    assert_eq!((c0, c1, s0, s1), (2, 3, 0, 6));
    let (c0, c1, s0, s1) = ImageProcessor::calculate_class_statistics(&hist, 1);
    assert_eq!((c0, c1, s0, s1), (2, 3, 0, 6));
    let (c0, c1, s0, s1) = ImageProcessor::calculate_class_statistics(&hist, 2);
    assert_eq!((c0, c1, s0, s1), (5, 0, 6, 0));
}
