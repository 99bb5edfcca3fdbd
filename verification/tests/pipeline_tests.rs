use drawrs::choices::{
    get_speed, get_step, picos_to_secs_nanos, Description, DrawingAccuracy, DrawingSpeed,
    ImageProcessingMethod, LineOrder, RegionPickMode, ScalingMode,
};
use drawrs::drawing::{calc_opac_adj, draw_plan, get_black_pixels_adaptive, interpolate_segment};
use drawrs::geometry::Point;
use drawrs::grid::{BinaryMask, IntensityGrid};

fn pt(x: i32, y: i32) -> Point {
    Point::new(x, y)
}

#[test]
fn draw_plan_traces_the_bright_half() {
    // Left half dark, right half bright; Otsu marks the bright half as
    // foreground, Center keeps the mask in place, and every traced point
    // stays in the right half.
    let mut data = Vec::new();
    for _y in 0..40 {
        for x in 0..40 {
            data.push(if x < 20 { 10u16 } else { 200u16 });
        }
    }
    let grid = IntensityGrid::new(40, 40, 256, data).expect("well-formed grid");
    let lines = draw_plan(
        &grid,
        ImageProcessingMethod::Otsu,
        (0, 0),
        (40, 40),
        ScalingMode::Center,
        1,
        3,
    );
    assert!(!lines.is_empty());
    for line in &lines {
        assert!(line.len() > 2);
        for p in line {
            assert!(p.x >= 20);
            assert!(p.x < 40);
        }
    }
}

#[test]
fn sampling_respects_the_stride_and_the_mask() {
    let mut data = vec![false; 25];
    // Foreground at (0, 0), (2, 0), (1, 1), (0, 2), (4, 4).
    data[0] = true;
    data[2] = true;
    data[6] = true;
    data[10] = true;
    data[24] = true;
    let mask = BinaryMask::new(5, 5, data).expect("well-formed mask");
    let pts = get_black_pixels_adaptive(&mask, 2);
    assert_eq!(pts, vec![pt(0, 0), pt(2, 0), pt(0, 2), pt(4, 4)]);
}

#[test]
fn distance_squared_is_exact() {
    assert_eq!(pt(0, 0).distance_squared(&pt(3, 4)), 25);
    assert_eq!(pt(-3, 7).distance_squared(&pt(1, 4)), 25);
    assert_eq!(pt(5, 5).distance_squared(&pt(5, 5)), 0);
}

#[test]
fn interpolation_walks_whole_units_toward_the_target() {
    let steps = interpolate_segment(pt(0, 0), pt(3, 4));
    assert_eq!(
        steps,
        vec![pt(0, 0), pt(1, 1), pt(1, 2), pt(2, 3), pt(3, 4)]
    );
}

#[test]
fn adjacent_pixels_interpolate_to_a_single_move() {
    assert_eq!(interpolate_segment(pt(0, 0), pt(1, 0)), vec![pt(1, 0)]);
    assert_eq!(interpolate_segment(pt(7, 7), pt(7, 7)), vec![pt(7, 7)]);
}

#[test]
fn opacity_adjustment_bands() {
    assert_eq!(calc_opac_adj(0), 0);
    assert_eq!(calc_opac_adj(4096), 0);
    assert_eq!(calc_opac_adj(4097), -1);
    assert_eq!(calc_opac_adj(8192), -1);
    assert_eq!(calc_opac_adj(8193), 1);
    assert_eq!(calc_opac_adj(65535), 1);
}

#[test]
fn accuracy_chooses_the_sampling_stride() {
    assert_eq!(get_step(DrawingAccuracy::Fast), 3);
    assert_eq!(get_step(DrawingAccuracy::Balanced), 2);
    assert_eq!(get_step(DrawingAccuracy::Accurate), 1);
}

#[test]
fn speeds_map_to_their_delays() {
    assert_eq!(get_speed(DrawingSpeed::UniverseAnnihilating), 1);
    assert_eq!(get_speed(DrawingSpeed::UltraFast), 1_000_000);
    assert_eq!(get_speed(DrawingSpeed::Fast), 10_000_000);
    assert_eq!(get_speed(DrawingSpeed::Medium), 50_000_000);
    assert_eq!(get_speed(DrawingSpeed::Slow), 200_000_000);
}

#[test]
fn picosecond_durations_split_into_seconds_and_nanoseconds() {
    assert_eq!(picos_to_secs_nanos(1), (0, 0));
    assert_eq!(picos_to_secs_nanos(1_000), (0, 1));
    assert_eq!(picos_to_secs_nanos(1_234_567_890_123_456), (1234, 567_890_123));
}

#[test]
fn grid_construction_rejects_bad_shapes() {
    assert!(IntensityGrid::new(2, 2, 256, vec![0, 1, 2]).is_none());
    assert!(IntensityGrid::new(2, 2, 256, vec![0, 1, 2, 300]).is_none());
    assert!(IntensityGrid::new(2, 2, 1, vec![0, 0, 0, 0]).is_none());
    assert!(IntensityGrid::new(2, 2, 256, vec![0, 1, 2, 255]).is_some());
    assert!(BinaryMask::new(3, 2, vec![true; 5]).is_none());
    assert!(BinaryMask::new(3, 2, vec![true; 6]).is_some());
}

#[test]
fn descriptions_name_every_choice() {
    assert!(ImageProcessingMethod::Otsu.description().contains("Otsu"));
    assert!(ImageProcessingMethod::Sauvola.description().contains("Sauvola"));
    assert!(ScalingMode::Tile.description().contains("Tile"));
    assert!(RegionPickMode::Manual.description().contains("Manual"));
    assert!(DrawingAccuracy::Balanced.description().contains("Balanced"));
    assert!(DrawingSpeed::Slow.description().contains("Slow"));
    assert!(LineOrder::Shuffled.description().contains("Shuffle"));
}

#[test]
fn logarithm_and_square_root_helpers_are_exact() {
    assert_eq!(drawrs::fixlog::log2_fixed(1), 0);
    assert_eq!(drawrs::fixlog::log2_fixed(2), 0x10000);
    assert_eq!(drawrs::fixlog::log2_fixed(4), 0x20000);
    assert_eq!(drawrs::fixlog::log2_fixed(1 << 40), 40 * 0x10000);
    let three = drawrs::fixlog::log2_fixed(3);
    assert!(three > 0x10000 && three < 0x20000);
    assert!(three >= 103870 && three <= 103872);
    assert_eq!(drawrs::windows::isqrt(0), 0);
    assert_eq!(drawrs::windows::isqrt(1), 1);
    assert_eq!(drawrs::windows::isqrt(24), 4);
    assert_eq!(drawrs::windows::isqrt(25), 5);
    assert_eq!(drawrs::windows::isqrt(u64::MAX), 0xFFFF_FFFF);
}

#[test]
fn sorting_samples_is_stable_and_ordered() {
    let v: Vec<u16> = vec![5, 1, 4, 1, 3];
    let sorted = drawrs::sorting::sort_u16(&v);
    assert_eq!(sorted, vec![1, 1, 3, 4, 5]);
}
