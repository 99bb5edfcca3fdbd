use drawrs::choices::ScalingMode;
use drawrs::grid::BinaryMask;
use drawrs::scale::ImageScaler;

fn mask_of(width: usize, height: usize, data: Vec<bool>) -> BinaryMask {
    BinaryMask::new(width, height, data).expect("well-formed mask")
}

fn checker(width: usize, height: usize) -> BinaryMask {
    let mut data = Vec::new();
    for y in 0..height {
        for x in 0..width {
            data.push((x + y) % 2 == 0);
        }
    }
    mask_of(width, height, data)
}

fn masks_equal(a: &BinaryMask, b: &BinaryMask) -> bool {
    if a.width() != b.width() || a.height() != b.height() {
        return false;
    }
    for y in 0..a.height() {
        for x in 0..a.width() {
            if a.get(x, y) != b.get(x, y) {
                return false;
            }
        }
    }
    true
}

fn all_modes() -> [ScalingMode; 5] {
    [
        ScalingMode::Stretch,
        ScalingMode::Fit,
        ScalingMode::Fill,
        ScalingMode::Center,
        ScalingMode::Tile,
    ]
}

#[test]
fn output_shape_is_the_region_for_every_mode() {
    let src = checker(14, 9);
    for mode in all_modes() {
        let out = ImageScaler::scale_image_to_region(&src, (3, 4), (33, 24), mode);
        assert_eq!(out.width(), 30);
        assert_eq!(out.height(), 20);
    }
}

#[test]
fn region_sides_are_floored_at_ten() {
    let src = checker(14, 9);
    for mode in all_modes() {
        let out = ImageScaler::scale_image_to_region(&src, (5, 5), (8, 9), mode);
        assert_eq!(out.width(), 10);
        assert_eq!(out.height(), 10);
    }
}

#[test]
fn swapping_the_corners_changes_nothing() {
    let src = checker(12, 7);
    for mode in all_modes() {
        let a = ImageScaler::scale_image_to_region(&src, (2, 3), (30, 25), mode);
        let b = ImageScaler::scale_image_to_region(&src, (30, 25), (2, 3), mode);
        assert!(masks_equal(&a, &b));
    }
}

#[test]
fn tile_into_the_native_size_is_the_identity() {
    let src = checker(12, 15);
    let out = ImageScaler::scale_image_to_region(&src, (0, 0), (12, 15), ScalingMode::Tile);
    assert!(masks_equal(&out, &src));
}

#[test]
fn tile_repeats_the_source_pattern() {
    // Foreground only at the source origin.
    let mut data = vec![false; 6];
    data[0] = true;
    let src = mask_of(2, 3, data);
    let out = ImageScaler::scale_image_to_region(&src, (0, 0), (12, 12), ScalingMode::Tile);
    for y in 0..12 {
        for x in 0..12 {
            assert_eq!(out.get(x, y), x % 2 == 0 && y % 3 == 0);
        }
    }
}

#[test]
fn center_pastes_the_source_in_the_middle() {
    let src = mask_of(4, 4, vec![true; 16]);
    let out = ImageScaler::scale_image_to_region(&src, (0, 0), (12, 12), ScalingMode::Center);
    for y in 0..12 {
        for x in 0..12 {
            assert_eq!(out.get(x, y), (4..8).contains(&x) && (4..8).contains(&y));
        }
    }
}

#[test]
fn fit_upscales_a_solid_mask_to_a_solid_mask() {
    // A solid foreground mask resamples to solid foreground; this fails if
    // the resampler were to hand back its input unscaled.
    let src = mask_of(5, 5, vec![true; 25]);
    let out = ImageScaler::scale_image_to_region(&src, (0, 0), (20, 20), ScalingMode::Fit);
    assert_eq!(out.width(), 20);
    assert_eq!(out.height(), 20);
    for y in 0..20 {
        for x in 0..20 {
            assert!(out.get(x, y));
        }
    }
}

#[test]
fn stretch_of_a_solid_mask_stays_solid() {
    let src = mask_of(20, 20, vec![true; 400]);
    let out = ImageScaler::scale_image_to_region(&src, (0, 0), (10, 10), ScalingMode::Stretch);
    for y in 0..10 {
        for x in 0..10 {
            assert!(out.get(x, y));
        }
    }
}

#[test]
fn fill_crops_but_keeps_the_region_shape() {
    let src = checker(8, 4);
    let out = ImageScaler::scale_image_to_region(&src, (0, 0), (10, 20), ScalingMode::Fill);
    assert_eq!(out.width(), 10);
    assert_eq!(out.height(), 20);
}
