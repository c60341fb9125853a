use heatmap_processing::colormap::ColorMap;
use heatmap_processing::compose::{
    apply_colormap, composite, create_demo_heatmap, create_heatmap_with_real_data, demo_base,
    generate_default_heatmap, opacity_alpha,
};
use heatmap_processing::config::OrchestrateConfig;
use heatmap_processing::error::PipelineError;
use heatmap_processing::loader::load_heatmap_data;
use heatmap_processing::matrix::HeatmapMatrix;
use heatmap_processing::normalization::Normalization;
use heatmap_processing::raster::RgbaImage;
use heatmap_processing::settings::{first_step, validate_settings, Step};

const FULL: i32 = 65536;

fn heat_of(rows: usize, cols: usize, values: &[f32]) -> HeatmapMatrix {
    HeatmapMatrix::from_vec(rows, cols, values.iter().map(|v| v.to_bits() as i32).collect())
        .unwrap()
}

fn gray_base(width: u32, height: u32, intensity: u8) -> RgbaImage {
    let mut data = Vec::new();
    for _ in 0..(width * height) {
        data.extend_from_slice(&[intensity, intensity, intensity, 255]);
    }
    RgbaImage::from_raw(width, height, data).unwrap()
}

#[test]
fn end_to_end_csv_minmax_red() {
    let config = validate_settings("red", "minmax", 1.0f32.to_bits()).ok().unwrap();
    let heat = load_heatmap_data(Some("csv"), b"1,2\n3,4\n").ok().unwrap();
    let out = create_heatmap_with_real_data(
        gray_base(2, 2, 90),
        Some(heat),
        &config.colormap,
        &config.normalization,
        config.opacity,
    );
    assert_eq!(out.width(), 2);
    assert_eq!(out.height(), 2);
    assert_eq!(out.get_pixel(0, 0), (0, 0, 0, 255));
    // A third is the sample 21845, a little less than a third.
    assert_eq!(out.get_pixel(1, 0), (84, 0, 0, 255));
    assert_eq!(out.get_pixel(0, 1), (169, 0, 0, 255));
    assert_eq!(out.get_pixel(1, 1), (255, 0, 0, 255));
}

#[test]
fn heat_matrix_of_other_dimensions_is_resampled() {
    let heat = heat_of(1, 2, &[0.0, 1.0]);
    let out = create_heatmap_with_real_data(
        gray_base(4, 2, 10),
        Some(heat),
        &ColorMap::Red,
        &Normalization::MinMax,
        FULL,
    );
    for y in 0..2 {
        assert_eq!(out.get_pixel(0, y), (0, 0, 0, 255));
        assert_eq!(out.get_pixel(1, y), (0, 0, 0, 255));
        assert_eq!(out.get_pixel(2, y), (255, 0, 0, 255));
        assert_eq!(out.get_pixel(3, y), (255, 0, 0, 255));
    }
}

#[test]
fn transparent_heat_layer_leaves_the_base_image() {
    let heat = heat_of(1, 2, &[0.0, 1.0]);
    let out = create_heatmap_with_real_data(
        gray_base(2, 1, 77),
        Some(heat),
        &ColorMap::Jet,
        &Normalization::MinMax,
        0,
    );
    assert_eq!(out.into_raw(), vec![77, 77, 77, 255, 77, 77, 77, 255]);
}

#[test]
fn half_transparent_heat_layer_is_blended_with_the_base_image() {
    let base = gray_base(1, 1, 100);
    let layer = RgbaImage::from_raw(1, 1, vec![255, 0, 0, 128]).unwrap();
    let out = composite(base, &layer);
    assert_eq!(out.get_pixel(0, 0), (177, 49, 49, 254));
}

#[test]
fn missing_heat_matrix_is_replaced_by_the_synthetic_layer() {
    let out = create_heatmap_with_real_data(
        gray_base(2, 2, 0),
        None,
        &ColorMap::Viridis,
        &Normalization::ZScore,
        FULL / 2,
    );
    let expected = composite(gray_base(2, 2, 0), &generate_default_heatmap(2, 2));
    assert_eq!(out.as_raw(), expected.as_raw());
}

#[test]
fn heat_matrix_without_cells_is_replaced_by_the_synthetic_layer() {
    let heat = HeatmapMatrix::from_vec(0, 0, vec![]).unwrap();
    let out = create_heatmap_with_real_data(
        gray_base(2, 2, 0),
        Some(heat),
        &ColorMap::Red,
        &Normalization::MinMax,
        FULL,
    );
    let expected = composite(gray_base(2, 2, 0), &generate_default_heatmap(2, 2));
    assert_eq!(out.as_raw(), expected.as_raw());
}

#[test]
fn synthetic_layer_grows_red_to_the_right_and_alpha_downwards() {
    let layer = generate_default_heatmap(4, 3);
    assert_eq!(layer.width(), 4);
    assert_eq!(layer.height(), 3);
    assert_eq!(layer.get_pixel(0, 0), (0, 0, 0, 50));
    assert_eq!(layer.get_pixel(1, 0), (63, 0, 0, 50));
    assert_eq!(layer.get_pixel(2, 0), (127, 0, 0, 50));
    assert_eq!(layer.get_pixel(3, 0), (191, 0, 0, 50));
    assert_eq!(layer.get_pixel(0, 1), (0, 0, 0, 100));
    assert_eq!(layer.get_pixel(3, 2), (191, 0, 0, 150));
    let layer = generate_default_heatmap(512, 512);
    assert_eq!(layer.get_pixel(511, 511), (254, 0, 0, 199));
}

#[test]
fn demo_base_is_a_gray_gradient() {
    let base = demo_base(2, 3);
    assert_eq!(base.width(), 3);
    assert_eq!(base.height(), 2);
    assert_eq!(base.as_raw(), &vec![0, 51, 102, 51, 102, 153]);
}

#[test]
fn demo_image_is_the_fallback_of_512_by_512() {
    let image = create_demo_heatmap(512, 512);
    assert_eq!(image.width(), 512);
    assert_eq!(image.height(), 512);
    assert_eq!(image.as_raw().len(), 4 * 512 * 512);
    assert_eq!(image.get_pixel(0, 0), (0, 0, 0, 255));
    for y in 0..512 {
        for x in 0..512 {
            assert!(image.get_pixel(x, y).3 >= 254);
        }
    }
    let (r, g, b, _) = image.get_pixel(511, 0);
    assert!(r > g && g == b);
}

#[test]
fn demo_image_without_pixels() {
    let image = create_demo_heatmap(0, 5);
    assert_eq!(image.width(), 5);
    assert_eq!(image.height(), 0);
    assert_eq!(image.as_raw().len(), 0);
}

#[test]
fn heat_layer_has_the_color_of_every_cell_and_one_alpha() {
    let m = HeatmapMatrix::from_vec(1, 3, vec![0, FULL / 2, FULL]).unwrap();
    let layer = apply_colormap(&m, &ColorMap::Hot, 39321);
    assert_eq!(layer.width(), 3);
    assert_eq!(layer.height(), 1);
    assert_eq!(layer.as_raw(), &vec![0, 0, 0, 153, 255, 131, 0, 153, 255, 255, 255, 153]);
}

#[test]
fn alpha_is_the_rounded_opacity() {
    assert_eq!(opacity_alpha(0), 0);
    assert_eq!(opacity_alpha(FULL), 255);
    assert_eq!(opacity_alpha(FULL / 2), 128);
    assert_eq!(opacity_alpha(39321), 153);
    assert_eq!(opacity_alpha(128), 0);
    assert_eq!(opacity_alpha(129), 1);
}

#[test]
fn opacity_above_one_is_a_validation_error() {
    match validate_settings("red", "minmax", 1.5f32.to_bits()) {
        Err(e) => assert_eq!(
            e,
            PipelineError::ValidationError("Opacity must be between 0.0 and 1.0".to_string())
        ),
        Ok(_) => panic!("no error"),
    }
}

#[test]
fn opacity_must_lie_in_the_unit_interval() {
    for opacity in [0.0f32, -0.0, 0.6, 1.0, f32::MIN_POSITIVE] {
        assert!(validate_settings("red", "minmax", opacity.to_bits()).is_ok());
    }
    for opacity in [-0.1f32, 1.0000001, 2.0, f32::INFINITY, f32::NEG_INFINITY, f32::NAN, -1.0e-30] {
        assert!(validate_settings("red", "minmax", opacity.to_bits()).is_err());
    }
}

#[test]
fn settings_are_checked_in_order() {
    let config = validate_settings("Plasma", "ZSCORE", 0.6f32.to_bits()).ok().unwrap();
    assert_eq!(config.colormap, ColorMap::Plasma);
    assert_eq!(config.normalization, Normalization::ZScore);
    assert_eq!(config.opacity, 39321);
    match validate_settings("nope", "nope", 9.0f32.to_bits()) {
        Err(e) => assert_eq!(
            e,
            PipelineError::ValidationError(
                "Unknown colormap: nope. Available: red, hot, jet, viridis, plasma".to_string()
            )
        ),
        Ok(_) => panic!("no error"),
    }
    match validate_settings("red", "nope", 9.0f32.to_bits()) {
        Err(e) => assert_eq!(
            e,
            PipelineError::ValidationError(
                "Unknown normalization: nope. Available: minmax, zscore, percentile".to_string()
            )
        ),
        Ok(_) => panic!("no error"),
    }
}

#[test]
fn service_registry_holds_the_tuberculosis_service() {
    let config = OrchestrateConfig::new(None);
    assert_eq!(config.service_host, "0.0.0.0");
    assert_eq!(config.service_port, 50011);
    assert_eq!(config.service_db_path, "config/service_db_v8.csv");
    assert_eq!(config.config_services.len(), 1);
    let (name, service) = &config.config_services[0];
    assert_eq!(name, "tuberculosis_service");
    assert_eq!(service.service, "tuberculosis_service");
    assert_eq!(
        service.url,
        "http://tuberculosis_service:50001/deep-learning/service/tuberculosis/image_binary"
    );
    assert_eq!(service.data, None);
    assert_eq!(
        service.headers,
        vec![("Content-Type".to_string(), "application/x-image".to_string())]
    );
}

#[test]
fn service_registry_takes_the_address_it_is_given() {
    let config = OrchestrateConfig::new(Some("http://localhost:1/tb".to_string()));
    assert_eq!(config.config_services.len(), 1);
    assert_eq!(config.config_services[0].1.url, "http://localhost:1/tb");
}

#[test]
fn fixed_point_pipeline_stays_close_to_floating_point() {
    let mut seed: u32 = 12345;
    let mut values: Vec<f32> = Vec::new();
    for _ in 0..400 {
        seed = seed.wrapping_mul(1664525).wrapping_add(1013904223);
        values.push((seed >> 8) as f32 / 16777216.0 * 200.0 - 100.0);
    }
    let low = values.iter().cloned().fold(f32::INFINITY, f32::min);
    let high = values.iter().cloned().fold(f32::NEG_INFINITY, f32::max);
    let heat = heat_of(20, 20, &values);
    let layer = apply_colormap(
        &heatmap_processing::normalization::normalize_heatmap(&heat, &Normalization::MinMax),
        &ColorMap::Jet,
        FULL,
    );
    for (i, v) in values.iter().enumerate() {
        let t = (v - low) / (high - low);
        let expected: (f32, f32, f32) = if t < 0.25 {
            (0.0, t / 0.25 * 255.0, 255.0)
        } else if t < 0.5 {
            (0.0, 255.0, 255.0 * (1.0 - (t - 0.25) / 0.25))
        } else if t < 0.75 {
            ((t - 0.5) / 0.25 * 255.0, 255.0, 0.0)
        } else {
            (255.0, 255.0 * (1.0 - (t - 0.75) / 0.25), 0.0)
        };
        let got = layer.get_pixel((i % 20) as u32, (i / 20) as u32);
        assert!((got.0 as f32 - expected.0).abs() < 1.5, "{} {:?} {:?}", i, got, expected);
        assert!((got.1 as f32 - expected.1).abs() < 1.5, "{} {:?} {:?}", i, got, expected);
        assert!((got.2 as f32 - expected.2).abs() < 1.5, "{} {:?} {:?}", i, got, expected);
        assert_eq!(got.3, 255);
    }
}

#[test]
fn a_run_begins_with_the_demo_where_it_is_asked_for_or_the_input_is_missing() {
    assert_eq!(first_step(true, true), Step::Demo { rows: 512, columns: 512 });
    assert_eq!(first_step(true, false), Step::Demo { rows: 512, columns: 512 });
    assert_eq!(first_step(false, false), Step::Demo { rows: 512, columns: 512 });
    assert_eq!(first_step(false, true), Step::Decode);
}
