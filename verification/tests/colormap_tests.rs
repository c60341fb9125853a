use heatmap_processing::colormap::{
    get_color_from_value, ColorMap, HALF, QUARTER, THIRD, THREE_QUARTERS, TWO_THIRDS,
};
use heatmap_processing::ieee::sample_from_single;

const ONE: i32 = 65536;

#[test]
fn red_ramp_ends() {
    assert_eq!(get_color_from_value(0, &ColorMap::Red), (0, 0, 0));
    assert_eq!(get_color_from_value(ONE, &ColorMap::Red), (255, 0, 0));
}

#[test]
fn red_ramp_rounds_down() {
    assert_eq!(get_color_from_value(ONE / 2, &ColorMap::Red), (127, 0, 0));
    assert_eq!(get_color_from_value(ONE - 1, &ColorMap::Red), (254, 0, 0));
}

#[test]
fn values_outside_the_unit_interval_take_the_end_colors() {
    for kind in [ColorMap::Red, ColorMap::Hot, ColorMap::Jet, ColorMap::Viridis, ColorMap::Plasma] {
        assert_eq!(get_color_from_value(-5, &kind), get_color_from_value(0, &kind));
        assert_eq!(get_color_from_value(i32::MIN, &kind), get_color_from_value(0, &kind));
        assert_eq!(get_color_from_value(2 * ONE, &kind), get_color_from_value(ONE, &kind));
        assert_eq!(get_color_from_value(i32::MAX, &kind), get_color_from_value(ONE, &kind));
    }
}

#[test]
fn hot_ramp_goes_from_black_over_red_and_yellow_to_white() {
    assert_eq!(get_color_from_value(0, &ColorMap::Hot), (0, 0, 0));
    assert_eq!(get_color_from_value(ONE / 2, &ColorMap::Hot), (255, 131, 0));
    assert_eq!(get_color_from_value(ONE, &ColorMap::Hot), (255, 255, 255));
}

#[test]
fn breakpoints_are_the_samples_of_the_published_numbers() {
    assert_eq!(THIRD, (0.33f32 * 65536.0) as i32);
    assert_eq!(TWO_THIRDS, (0.66f32 * 65536.0) as i32);
    assert_eq!(sample_from_single(0.33f32.to_bits()), THIRD);
    assert_eq!(sample_from_single(0.66f32.to_bits()), TWO_THIRDS);
    assert_eq!(sample_from_single(0.25f32.to_bits()), QUARTER);
    assert_eq!(sample_from_single(0.5f32.to_bits()), HALF);
    assert_eq!(sample_from_single(0.75f32.to_bits()), THREE_QUARTERS);
}

#[test]
fn hot_ramp_at_its_breakpoints() {
    assert_eq!(get_color_from_value(THIRD - 1, &ColorMap::Hot), (254, 0, 0));
    assert_eq!(get_color_from_value(THIRD, &ColorMap::Hot), (255, 0, 0));
    assert_eq!(get_color_from_value(TWO_THIRDS - 1, &ColorMap::Hot), (255, 254, 0));
    assert_eq!(get_color_from_value(TWO_THIRDS, &ColorMap::Hot), (255, 255, 0));
}

#[test]
fn viridis_ramp_at_its_breakpoints() {
    assert_eq!(get_color_from_value(THIRD, &ColorMap::Viridis), (59, 82, 139));
    assert_eq!(get_color_from_value(TWO_THIRDS, &ColorMap::Viridis), (33, 144, 140));
}

#[test]
fn neighbouring_samples_differ_by_at_most_one_per_channel() {
    for kind in [ColorMap::Red, ColorMap::Hot, ColorMap::Jet, ColorMap::Viridis, ColorMap::Plasma] {
        let mut before = get_color_from_value(0, &kind);
        for v in 1..=ONE {
            let now = get_color_from_value(v, &kind);
            assert!((now.0 as i32 - before.0 as i32).abs() <= 1);
            assert!((now.1 as i32 - before.1 as i32).abs() <= 1);
            assert!((now.2 as i32 - before.2 as i32).abs() <= 1);
            before = now;
        }
    }
}

#[test]
fn jet_ramp_goes_from_blue_over_cyan_and_yellow_to_red() {
    assert_eq!(get_color_from_value(0, &ColorMap::Jet), (0, 0, 255));
    assert_eq!(get_color_from_value(ONE / 4, &ColorMap::Jet), (0, 255, 255));
    assert_eq!(get_color_from_value(ONE / 2, &ColorMap::Jet), (0, 255, 0));
    assert_eq!(get_color_from_value(3 * (ONE / 4), &ColorMap::Jet), (255, 255, 0));
    assert_eq!(get_color_from_value(ONE, &ColorMap::Jet), (255, 0, 0));
    assert_eq!(get_color_from_value(ONE / 8, &ColorMap::Jet), (0, 127, 255));
}

#[test]
fn viridis_ramp_has_its_fixed_end_points() {
    assert_eq!(get_color_from_value(0, &ColorMap::Viridis), (68, 1, 84));
    assert_eq!(get_color_from_value(ONE, &ColorMap::Viridis), (253, 231, 37));
}

#[test]
fn plasma_ramp_has_its_fixed_end_points() {
    assert_eq!(get_color_from_value(0, &ColorMap::Plasma), (13, 8, 135));
    assert_eq!(get_color_from_value(ONE / 2, &ColorMap::Plasma), (190, 84, 160));
    assert_eq!(get_color_from_value(ONE, &ColorMap::Plasma), (240, 249, 33));
}

#[test]
fn colormap_names_are_read_without_regard_to_case() {
    assert_eq!(ColorMap::from_str("red"), Ok(ColorMap::Red));
    assert_eq!(ColorMap::from_str("HOT"), Ok(ColorMap::Hot));
    assert_eq!(ColorMap::from_str("Jet"), Ok(ColorMap::Jet));
    assert_eq!(ColorMap::from_str("viRIDis"), Ok(ColorMap::Viridis));
    assert_eq!(ColorMap::from_str("plasma"), Ok(ColorMap::Plasma));
}

#[test]
fn unknown_colormap_name_is_reported_with_the_accepted_names() {
    assert_eq!(
        ColorMap::from_str("rainbow"),
        Err("Unknown colormap: rainbow. Available: red, hot, jet, viridis, plasma".to_string())
    );
    assert!(ColorMap::from_str("").is_err());
    assert!(ColorMap::from_str("red ").is_err());
    assert!(ColorMap::from_str("r\u{e9}d").is_err());
}

#[test]
fn viridis_and_plasma_ramps_between_their_end_points() {
    assert_eq!(get_color_from_value(ONE / 2, &ColorMap::Viridis), (45, 113, 139));
    assert_eq!(get_color_from_value(ONE / 4, &ColorMap::Plasma), (101, 46, 147));
    assert_eq!(get_color_from_value(3 * (ONE / 4), &ColorMap::Plasma), (215, 166, 96));
}
