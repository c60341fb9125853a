use heatmap_processing::error::PipelineError;
use heatmap_processing::loader::{
    heatmap_format, heatmap_from_csv_records, heatmap_from_json_data, load_binary_heatmap,
    load_csv_heatmap, load_heatmap_as, load_heatmap_data, load_json_heatmap, HeatmapFormat,
};
use heatmap_processing::matrix::HeatmapMatrix;

fn binary_file(rows: u32, cols: u32, values: &[f32]) -> Vec<u8> {
    let mut bytes = Vec::new();
    bytes.extend_from_slice(&rows.to_le_bytes());
    bytes.extend_from_slice(&cols.to_le_bytes());
    for v in values {
        bytes.extend_from_slice(&v.to_le_bytes());
    }
    bytes
}

fn numbers(m: &HeatmapMatrix) -> Vec<f32> {
    m.samples().iter().map(|cell| f32::from_bits(*cell as u32)).collect()
}

fn format_error(r: Result<HeatmapMatrix, PipelineError>) -> String {
    match r {
        Err(PipelineError::FormatError(message)) => message,
        Err(other) => panic!("another error: {:?}", other),
        Ok(_) => panic!("no error"),
    }
}

fn records(rows: &[&[&str]]) -> Vec<Vec<String>> {
    rows.iter().map(|row| row.iter().map(|field| field.to_string()).collect()).collect()
}

#[test]
fn binary_heatmap_round_trip() {
    let values = [0.0f32, 0.5, 1.0, 1.5, -2.0, 100.25];
    let m = load_binary_heatmap(&binary_file(2, 3, &values)).unwrap();
    assert_eq!(m.nrows(), 2);
    assert_eq!(m.ncols(), 3);
    for (i, v) in values.iter().enumerate() {
        assert_eq!(m.get(i / 3, i % 3).map(|cell| cell as u32), Some(v.to_bits()));
    }
}

#[test]
fn binary_heatmap_holds_every_number_bit_for_bit() {
    let values = [
        0.1f32, -0.0, 40000.0, 60000.0, 1.0e-30, -3.0e38, f32::MIN_POSITIVE, f32::MAX,
        f32::INFINITY, f32::NEG_INFINITY, 1.0e-45, 0.33,
    ];
    let m = load_binary_heatmap(&binary_file(3, 4, &values)).unwrap();
    let bits: Vec<u32> = m.samples().iter().map(|cell| *cell as u32).collect();
    let written: Vec<u32> = values.iter().map(|v| v.to_bits()).collect();
    assert_eq!(bits, written);
    let nan = load_binary_heatmap(&binary_file(1, 1, &[f32::NAN])).unwrap();
    assert_eq!(nan.get(0, 0).map(|cell| cell as u32), Some(f32::NAN.to_bits()));
}

#[test]
fn binary_heatmap_dimensions_are_little_endian() {
    let values = vec![1.0f32; 258];
    let m = load_binary_heatmap(&binary_file(1, 258, &values)).unwrap();
    assert_eq!(m.nrows(), 1);
    assert_eq!(m.ncols(), 258);
    let m = load_binary_heatmap(&binary_file(258, 1, &values)).unwrap();
    assert_eq!(m.nrows(), 258);
    assert_eq!(m.ncols(), 1);
}

#[test]
fn binary_heatmap_that_ends_in_the_header_is_an_io_error() {
    assert_eq!(
        load_binary_heatmap(&[]).err(),
        Some(PipelineError::IOError { needed: 8, available: 0 })
    );
    assert_eq!(
        load_binary_heatmap(&[2, 0, 0, 0, 3]).err(),
        Some(PipelineError::IOError { needed: 8, available: 5 })
    );
}

#[test]
fn binary_heatmap_that_ends_in_the_samples_is_an_io_error() {
    let mut bytes = binary_file(2, 3, &[0.0, 0.5, 1.0, 1.5, -2.0, 100.25]);
    bytes.pop();
    assert_eq!(
        load_binary_heatmap(&bytes).err(),
        Some(PipelineError::IOError { needed: 32, available: 31 })
    );
    let bytes = binary_file(u32::MAX, u32::MAX, &[1.0]);
    assert_eq!(
        load_binary_heatmap(&bytes).err(),
        Some(PipelineError::IOError {
            needed: 8 + 4 * (u32::MAX as u128) * (u32::MAX as u128),
            available: 12
        })
    );
}

#[test]
fn binary_heatmap_ignores_what_follows_the_last_sample() {
    let mut bytes = binary_file(1, 2, &[1.0, 2.0]);
    bytes.extend_from_slice(&[9, 9, 9]);
    let m = load_binary_heatmap(&bytes).unwrap();
    assert_eq!(numbers(&m), vec![1.0, 2.0]);
}

#[test]
fn binary_heatmap_without_cells() {
    let m = load_binary_heatmap(&binary_file(0, 4, &[])).unwrap();
    assert_eq!(m.nrows(), 0);
    assert_eq!(m.ncols(), 4);
    assert_eq!(m.samples(), Vec::<i32>::new());
}

#[test]
fn json_heatmap_is_read_from_the_data_field() {
    let m = load_json_heatmap(br#"{"data": [[1.0, 2.0], [3.0, 4.5]], "shape": [2, 2]}"#).unwrap();
    assert_eq!(m.nrows(), 2);
    assert_eq!(m.ncols(), 2);
    assert_eq!(numbers(&m), vec![1.0, 2.0, 3.0, 4.5]);
}

#[test]
fn json_heatmap_takes_whole_numbers_too() {
    let m = load_json_heatmap(br#"{"data": [[1, -2, 3]]}"#).unwrap();
    assert_eq!(m.nrows(), 1);
    assert_eq!(m.ncols(), 3);
    assert_eq!(numbers(&m), vec![1.0, -2.0, 3.0]);
}

#[test]
fn json_heatmap_without_data_is_a_format_error() {
    assert_eq!(
        format_error(load_json_heatmap(br#"{"values": [[1.0]]}"#)),
        "JSON must contain 'data' field with array of arrays"
    );
    assert_eq!(
        format_error(load_json_heatmap(br#"{"data": 5}"#)),
        "JSON must contain 'data' field with array of arrays"
    );
    assert_eq!(
        format_error(load_json_heatmap(br#"[[1.0]]"#)),
        "JSON must contain 'data' field with array of arrays"
    );
}

#[test]
fn json_heatmap_with_a_row_that_is_no_array_is_a_format_error() {
    assert_eq!(
        format_error(load_json_heatmap(br#"{"data": [[1.0], 2.0]}"#)),
        "JSON data must be array of arrays"
    );
}

#[test]
fn json_heatmap_with_a_value_that_is_no_number_is_a_format_error() {
    assert_eq!(
        format_error(load_json_heatmap(br#"{"data": [[1.0, "x"]]}"#)),
        "JSON data must contain numeric values"
    );
    assert_eq!(
        format_error(load_json_heatmap(br#"{"data": [[1.0, null]]}"#)),
        "JSON data must contain numeric values"
    );
}

#[test]
fn json_heatmap_reports_the_first_problem() {
    assert_eq!(
        format_error(load_json_heatmap(br#"{"data": [[1.0, "x"], 3]}"#)),
        "JSON data must contain numeric values"
    );
    assert_eq!(
        format_error(load_json_heatmap(br#"{"data": [7, [1.0, "x"]]}"#)),
        "JSON data must be array of arrays"
    );
}

#[test]
fn json_heatmap_that_is_no_json_is_a_format_error() {
    assert_eq!(
        format_error(load_json_heatmap(b"{\"data\": [[1.0, 2.0]")),
        "Heatmap file is not valid JSON"
    );
    assert_eq!(format_error(load_json_heatmap(b"")), "Heatmap file is not valid JSON");
}

#[test]
fn json_heatmap_takes_its_width_from_the_first_row() {
    // Rows of other lengths are accepted as long as all values fill the matrix.
    let m = load_json_heatmap(br#"{"data": [[1, 2], [3, 4, 5], [6]]}"#).unwrap();
    assert_eq!(m.nrows(), 3);
    assert_eq!(m.ncols(), 2);
    assert_eq!(numbers(&m), vec![1.0, 2.0, 3.0, 4.0, 5.0, 6.0]);
    assert_eq!(
        format_error(load_json_heatmap(br#"{"data": [[1, 2, 3], [4]]}"#)),
        "JSON rows do not fill a matrix of the first row's length"
    );
}

#[test]
fn json_heatmap_without_rows_is_empty() {
    let m = load_json_heatmap(br#"{"data": []}"#).unwrap();
    assert_eq!(m.nrows(), 0);
    assert_eq!(m.ncols(), 0);
}

#[test]
fn json_data_is_built_into_a_matrix() {
    let one = 1.0f64.to_bits();
    let two = 2.0f64.to_bits();
    let m = heatmap_from_json_data(Some(vec![Some(vec![Some(one)]), Some(vec![Some(two)])]))
        .unwrap();
    assert_eq!(m.nrows(), 2);
    assert_eq!(m.ncols(), 1);
    assert_eq!(numbers(&m), vec![1.0, 2.0]);
    assert_eq!(
        format_error(heatmap_from_json_data(None)),
        "JSON must contain 'data' field with array of arrays"
    );
    assert_eq!(
        format_error(heatmap_from_json_data(Some(vec![Some(vec![Some(one)]), None]))),
        "JSON data must be array of arrays"
    );
    assert_eq!(
        format_error(heatmap_from_json_data(Some(vec![Some(vec![Some(one), None])]))),
        "JSON data must contain numeric values"
    );
}

#[test]
fn csv_heatmap_has_one_row_for_every_record() {
    let m = load_csv_heatmap(b"1,2,3\n4,5,6.5\n").unwrap();
    assert_eq!(m.nrows(), 2);
    assert_eq!(m.ncols(), 3);
    assert_eq!(numbers(&m), vec![1.0, 2.0, 3.0, 4.0, 5.0, 6.5]);
}

#[test]
fn csv_heatmap_has_no_header_line() {
    let m = load_csv_heatmap(b"1,2\n3,4\n").unwrap();
    assert_eq!(m.nrows(), 2);
    assert_eq!(m.get(0, 0).map(|cell| cell as u32), Some(1.0f32.to_bits()));
    assert_eq!(m.get(1, 1).map(|cell| cell as u32), Some(4.0f32.to_bits()));
}

#[test]
fn csv_heatmap_takes_quoted_fields_and_skips_empty_lines() {
    let m = load_csv_heatmap(b"\"1.5\",2\n\n3,\"4\"\n").unwrap();
    assert_eq!(m.nrows(), 2);
    assert_eq!(numbers(&m), vec![1.5, 2.0, 3.0, 4.0]);
}

#[test]
fn csv_heatmap_names_the_field_that_is_no_number() {
    assert_eq!(
        format_error(load_csv_heatmap(b"1,2\n3,abc\nx,4\n")),
        "Could not parse 'abc' as number"
    );
    assert_eq!(format_error(load_csv_heatmap(b"1, 2\n")), "Could not parse ' 2' as number");
    assert_eq!(format_error(load_csv_heatmap(b"1,\n")), "Could not parse '' as number");
}

#[test]
fn csv_heatmap_without_a_field_is_a_format_error() {
    assert_eq!(format_error(load_csv_heatmap(b"")), "CSV file is empty");
    assert_eq!(format_error(load_csv_heatmap(b"\n\n")), "CSV file is empty");
    assert_eq!(format_error(heatmap_from_csv_records(&Vec::new())), "CSV file is empty");
    assert_eq!(format_error(heatmap_from_csv_records(&vec![Vec::new()])), "CSV file is empty");
}

#[test]
fn csv_file_with_records_of_unequal_length_is_a_format_error() {
    assert_eq!(format_error(load_csv_heatmap(b"1,2\n3\n")), "Heatmap file is not valid CSV");
}

#[test]
fn csv_records_are_built_into_a_matrix() {
    let m = heatmap_from_csv_records(&records(&[&["1", "2.5"], &["-3e0", ".5"]])).unwrap();
    assert_eq!(m.nrows(), 2);
    assert_eq!(m.ncols(), 2);
    assert_eq!(numbers(&m), vec![1.0, 2.5, -3.0, 0.5]);
    assert_eq!(
        format_error(heatmap_from_csv_records(&records(&[&["1", "1"], &["1"]]))),
        "CSV records do not fill a matrix of the first record's length"
    );
    assert_eq!(
        format_error(heatmap_from_csv_records(&records(&[&["1", "1,5"]]))),
        "Could not parse '1,5' as number"
    );
}

#[test]
fn format_is_chosen_by_the_extension() {
    let json = br#"{"data": [[1.0]]}"#;
    assert_eq!(numbers(&load_heatmap_data(Some("json"), json).unwrap()), vec![1.0]);
    assert_eq!(numbers(&load_heatmap_data(Some("JSON"), json).unwrap()), vec![1.0]);
    let binary = binary_file(1, 1, &[2.0]);
    assert_eq!(numbers(&load_heatmap_data(Some("bin"), &binary).unwrap()), vec![2.0]);
    assert_eq!(numbers(&load_heatmap_data(Some("Csv"), b"7,8\n").unwrap()), vec![7.0, 8.0]);
}

#[test]
fn errors_of_a_format_are_passed_on() {
    match load_heatmap_data(Some("bin"), &[1, 2, 3]) {
        Err(e) => assert_eq!(e, PipelineError::IOError { needed: 8, available: 3 }),
        Ok(_) => panic!("no error"),
    }
    match load_heatmap_data(Some("json"), b"{") {
        Err(e) => {
            assert_eq!(e, PipelineError::FormatError("Heatmap file is not valid JSON".to_string()))
        }
        Ok(_) => panic!("no error"),
    }
}

#[test]
fn npy_extension_is_a_format_error_whatever_the_contents() {
    let expected = PipelineError::FormatError(
        "NPY format support coming soon! Please use .json, .csv, or .bin format for now."
            .to_string(),
    );
    for contents in [&b""[..], &br#"{"data": [[1.0]]}"#[..], &b"1,2\n"[..], &[0x93, b'N', b'U'][..]]
    {
        for extension in ["npy", "NPY", "Npy"] {
            match load_heatmap_data(Some(extension), contents) {
                Err(e) => assert_eq!(e, expected),
                Ok(_) => panic!("no error"),
            }
        }
    }
}

#[test]
fn unknown_extension_is_a_format_error() {
    match load_heatmap_data(Some("png"), b"") {
        Err(e) => assert_eq!(
            e,
            PipelineError::FormatError(
                "Unsupported heatmap file format: png. Supported: .json, .csv, .bin".to_string()
            )
        ),
        Ok(_) => panic!("no error"),
    }
    match load_heatmap_data(None, b"") {
        Err(e) => assert_eq!(
            e,
            PipelineError::FormatError("Could not determine file extension".to_string())
        ),
        Ok(_) => panic!("no error"),
    }
}

#[test]
fn format_is_found_from_the_extension_alone() {
    assert_eq!(heatmap_format(Some("json")), Ok(HeatmapFormat::Json));
    assert_eq!(heatmap_format(Some("CSV")), Ok(HeatmapFormat::Csv));
    assert_eq!(heatmap_format(Some("Bin")), Ok(HeatmapFormat::Binary));
    assert_eq!(
        heatmap_format(Some("npy")),
        Err(PipelineError::FormatError(
            "NPY format support coming soon! Please use .json, .csv, or .bin format for now."
                .to_string()
        ))
    );
    assert!(heatmap_format(Some("txt")).is_err());
    assert!(heatmap_format(None).is_err());
}

#[test]
fn file_of_a_format_is_read() {
    let m = load_heatmap_as(HeatmapFormat::Binary, &binary_file(1, 1, &[0.1])).unwrap();
    assert_eq!(numbers(&m), vec![0.1]);
    let m = load_heatmap_as(HeatmapFormat::Csv, b"0.1,2\n").unwrap();
    assert_eq!(numbers(&m), vec![0.1, 2.0]);
    let m = load_heatmap_as(HeatmapFormat::Json, br#"{"data": [[0.1]]}"#).unwrap();
    assert_eq!(numbers(&m), vec![0.1]);
}

#[test]
fn json_numbers_are_narrowed_to_single_precision() {
    let m = load_json_heatmap(br#"{"data": [[0.1, 1e40, -1e-50, 16777217, 0.33]]}"#).unwrap();
    assert_eq!(numbers(&m), vec![0.1f32, f32::INFINITY, -0.0, 16777216.0, 0.33]);
    assert_eq!(m.get(0, 2).map(|cell| cell as u32), Some((-0.0f32).to_bits()));
}

#[test]
fn csv_numbers_are_the_nearest_single_precision_numbers() {
    let m = load_csv_heatmap(b"0.1,0.33,40000,60000\n-1e-30,3.4e38,1e39,-0\n").unwrap();
    assert_eq!(
        numbers(&m),
        vec![0.1f32, 0.33, 40000.0, 60000.0, -1.0e-30, 3.4e38, f32::INFINITY, -0.0]
    );
    assert_eq!(m.get(1, 3).map(|cell| cell as u32), Some((-0.0f32).to_bits()));
}
