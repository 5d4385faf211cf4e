use point_tiler::binary64::Real;
use point_tiler::codec::{decode_points, encode_points};
use point_tiler::convert::{
    check_files, convert, count_threads, is_pattern, memory_bytes, thread_count, workflow, ConvertError, ErrorKind,
    Workflow,
};
use point_tiler::extension::{
    check_and_get_extension, find_extension, get_extension, Extension, ExtensionError,
};
use point_tiler::numbers::{decimal_text, parse_unsigned, NumberError};
use point_tiler::options::{Cli, ConvertOptions, InputReference};
use point_tiler::point::{Color, Point, PointAttributes};
use point_tiler::sizes::{
    estimate_processing_size, estimate_total_size, estimated_in_memory_requirement_bytes, format_size,
    should_use_in_memory, summarize,
};

#[test]
fn convert_requires_an_input_file() {
    let error = convert(&ConvertOptions {
        output: "output".to_string(),
        ..Default::default()
    })
    .unwrap_err();

    assert_eq!(error.kind(), ErrorKind::InvalidInput);
}

#[test]
fn should_use_in_memory_requires_five_times_processing_size() {
    let processing_size = 100;

    assert!(!should_use_in_memory(processing_size, 499));
    assert!(should_use_in_memory(processing_size, 500));
}

fn options() -> ConvertOptions {
    ConvertOptions {
        input: vec!["a.ply".to_string()],
        output: "out".to_string(),
        ..Default::default()
    }
}

#[test]
fn options_are_checked_in_order() {
    let nothing = ConvertOptions { min: 9, max: 8, ..Default::default() };
    assert_eq!(convert(&nothing).unwrap_err().message(), "at least one input file is required");
    let no_output = ConvertOptions { output: String::new(), min: 9, max: 8, ..options() };
    assert_eq!(convert(&no_output).unwrap_err().message(), "an output directory is required");
    let crossed = ConvertOptions { min: 9, max: 8, ..options() };
    assert_eq!(convert(&crossed).unwrap_err().message(), "min zoom must not exceed max zoom");
    assert!(convert(&ConvertOptions { min: 8, max: 8, ..options() }).is_ok());
}

#[test]
fn threads_are_as_asked_or_two_for_each_processor() {
    assert_eq!(convert(&ConvertOptions { threads: Some(3), ..options() }), Ok(3));
    let n = convert(&ConvertOptions { threads: Some(0), ..options() }).unwrap();
    assert!(n >= 2 && n % 2 == 0);
    assert_eq!(convert(&options()), Ok(n));
    assert_eq!(n, 2 * num_cpus::get());
    for processors in [0, 1, 7, usize::MAX / 2] {
        assert_eq!(count_threads(None, processors), Ok(2 * processors));
        assert_eq!(count_threads(Some(0), processors), Ok(2 * processors));
        assert_eq!(count_threads(Some(9), processors), Ok(9));
    }
    for processors in [usize::MAX / 2 + 1, usize::MAX] {
        assert_eq!(count_threads(None, processors), Err(ConvertError::TooManyProcessors));
        assert_eq!(count_threads(Some(1), processors), Ok(1));
    }
    assert_eq!(ConvertError::TooManyProcessors.message(), "too many processors");
    assert_eq!(thread_count(None, 4), 8);
    assert_eq!(thread_count(Some(0), 4), 8);
    assert_eq!(thread_count(Some(5), 4), 5);
}

#[test]
fn defaults_are_as_documented() {
    let options = ConvertOptions::default();
    assert!(options.input.is_empty() && options.output.is_empty());
    assert_eq!(options.input_reference, InputReference::Epsg { code: 0 });
    assert_eq!(options.output_epsg, 4979);
    assert_eq!((options.min, options.max), (15, 18));
    assert_eq!(options.max_memory_mb, 4096);
    assert_eq!(options.threads, None);
    assert!(!options.quantize && !options.gzip_compress && !options.meshopt && !options.disable_decimation);
    assert_eq!(
        format!("{:?}", options),
        "ConvertOptions { input: [], output: \"\", input_reference: Epsg { code: 0 }, output_epsg: 4979, min: 15, max: 18, max_memory_mb: 4096, threads: None, quantize: false, gzip_compress: false, meshopt: false, disable_decimation: false }"
    );
}

fn cli(input_epsg: Option<u16>) -> Cli {
    Cli {
        input: vec!["a".to_string(), "b".to_string()],
        output: "o".to_string(),
        input_epsg,
        cartesian_meters: input_epsg.is_none(),
        output_epsg: 1,
        min: 2,
        max: 3,
        max_memory_mb: 4,
        threads: Some(5),
        quantize: true,
        gzip_compress: false,
        meshopt: true,
        disable_decimation: true,
    }
}

#[test]
fn the_command_line_gives_the_options() {
    let options = ConvertOptions::from(cli(Some(6677)));
    assert_eq!(options.input, vec!["a", "b"]);
    assert_eq!(options.output, "o");
    assert_eq!(options.input_reference, InputReference::Epsg { code: 6677 });
    assert_eq!((options.output_epsg, options.min, options.max), (1, 2, 3));
    assert_eq!((options.max_memory_mb, options.threads), (4, Some(5)));
    assert!(options.quantize && !options.gzip_compress && options.meshopt && options.disable_decimation);
    let options = ConvertOptions::from(cli(None));
    assert_eq!(options.input_reference, InputReference::CartesianMeters);
    assert_eq!(workflow(options.input_reference), Workflow::CartesianMeters);
    assert_eq!(workflow(InputReference::default()), Workflow::Epsg);
}

#[test]
fn patterns_are_told_from_names() {
    assert!(is_pattern("data/*.las") && is_pattern("a?.ply") && is_pattern("x[12].csv"));
    assert!(!is_pattern("data/a.las") && !is_pattern("a].b") && !is_pattern(""));
}

#[test]
fn the_first_missing_file_is_reported() {
    let file = |name: &str, found: bool| (name.to_string(), found);
    assert_eq!(check_files(&vec![]), Err(ConvertError::NoFiles));
    assert_eq!(check_files(&vec![file("a", true), file("b", true)]), Ok(()));
    let error = check_files(&vec![file("a", true), file("b", false), file("c", false)]).unwrap_err();
    assert_eq!(error.message(), "input file not found: b");
    assert_eq!(error.kind(), ErrorKind::NotFound);
    assert_eq!(ConvertError::NoFiles.message(), "input pattern did not match any files");
    assert_eq!(ConvertError::NoFiles.kind(), ErrorKind::NotFound);
    assert_eq!(ConvertError::TooManyProcessors.kind(), ErrorKind::Other);
}

#[test]
fn extensions_are_known_in_any_case() {
    for (name, extension) in [
        ("las", Extension::Las),
        ("LAZ", Extension::Laz),
        ("Csv", Extension::Csv),
        ("txT", Extension::Txt),
        ("PLY", Extension::Ply),
    ] {
        assert_eq!(get_extension(name), extension);
        assert_eq!(find_extension(name), Some(extension));
    }
    assert_eq!(find_extension("pcd"), None);
    assert_eq!(find_extension(""), None);
    assert_eq!(Extension::from_lowercase("PLY"), None);
}

#[test]
fn files_must_have_one_known_extension() {
    let list = |names: &[Option<&str>]| -> Vec<Option<String>> {
        names.iter().map(|n| n.map(str::to_string)).collect()
    };
    let check = |names: &[Option<&str>]| check_and_get_extension(&list(names));
    assert_eq!(check(&[]), Err(ExtensionError::NoFiles));
    assert_eq!(check(&[Some("ply"), Some("las"), None]), Err(ExtensionError::Missing));
    assert_eq!(check(&[Some("ply"), Some("PLY")]), Err(ExtensionError::Multiple));
    assert_eq!(check(&[Some("PLY"), Some("PLY")]), Ok(Extension::Ply));
    assert_eq!(check(&[Some("xyz")]), Err(ExtensionError::Unsupported("xyz".to_string())));
    assert_eq!(ExtensionError::NoFiles.message(), "No input files found");
    assert_eq!(ExtensionError::Missing.message(), "File extension is not found");
    assert_eq!(ExtensionError::Multiple.message(), "Multiple extensions are not supported");
    assert_eq!(check(&[Some("XYZ")]).unwrap_err().message(), "Unsupported extension: XYZ");
}

#[test]
fn sizes_add_up() {
    let files = vec![Some(3), None, Some(4)];
    let estimates = vec![10, 20, 30];
    assert_eq!(estimate_total_size(&files), 7);
    for extension in [Extension::Csv, Extension::Txt] {
        assert_eq!(estimate_processing_size(extension, &files, &estimates), 7);
    }
    for extension in [Extension::Las, Extension::Laz, Extension::Ply] {
        assert_eq!(estimate_processing_size(extension, &files, &estimates), 60);
    }
    assert_eq!(summarize(&estimates), (3, 60));
    assert_eq!(summarize(&vec![]), (0, 0));
    assert_eq!(memory_bytes(4096), 4 << 30);
}

#[test]
fn the_requirement_saturates() {
    assert_eq!(estimated_in_memory_requirement_bytes(7), 35);
    assert_eq!(estimated_in_memory_requirement_bytes(u64::MAX / 5), u64::MAX);
    assert_eq!(estimated_in_memory_requirement_bytes(u64::MAX / 5 + 1), u64::MAX);
    assert!(should_use_in_memory(u64::MAX, u64::MAX));
    assert!(should_use_in_memory(99, 500) && should_use_in_memory(100, 501));
    assert!(!should_use_in_memory(u64::MAX / 5 + 1, u64::MAX - 1));
}

#[test]
fn sizes_are_displayed_with_two_places() {
    assert_eq!(format_size(0), "0 B");
    assert_eq!(format_size(1023), "1023 B");
    assert_eq!(format_size(1024), "1.00 KiB");
    assert_eq!(format_size(1_048_575), "1024.00 KiB");
    assert_eq!(format_size(5_000_000), "4.77 MiB");
    assert_eq!(format_size(u64::MAX), "17179869184.00 GiB");
    let mut n: u64 = 1;
    for i in 0..20_000u64 {
        n = n.wrapping_mul(6364136223846793005).wrapping_add(1442695040888963407);
        let bytes = n >> (i % 64);
        let b = bytes as f64;
        let expected = if b >= 1073741824.0 {
            format!("{:.2} GiB", b / 1073741824.0)
        } else if b >= 1048576.0 {
            format!("{:.2} MiB", b / 1048576.0)
        } else if b >= 1024.0 {
            format!("{:.2} KiB", b / 1024.0)
        } else {
            format!("{} B", bytes)
        };
        assert_eq!(format_size(bytes), expected);
    }
    for k in 0..2048u64 {
        let bytes = 1024 + k;
        assert_eq!(format_size(bytes), format!("{:.2} KiB", bytes as f64 / 1024.0));
    }
}

#[test]
fn numbers_are_read_as_they_are_written() {
    for n in [0u64, 9, 10, 255, 65_536, u64::MAX] {
        assert_eq!(decimal_text(n), n.to_string());
        assert_eq!(parse_unsigned(&n.to_string(), u64::MAX), Ok(n));
    }
    assert_eq!(parse_unsigned("+007", 7), Ok(7));
    assert_eq!(parse_unsigned("", 9), Err(NumberError::Empty));
    assert_eq!(parse_unsigned("+", 9), Err(NumberError::InvalidDigit));
    assert_eq!(parse_unsigned("-0", 9), Err(NumberError::InvalidDigit));
    assert_eq!(parse_unsigned("1 ", 9), Err(NumberError::InvalidDigit));
    assert_eq!(parse_unsigned("256", 255), Err(NumberError::Overflow));
}

fn points() -> Vec<Point> {
    (0..300u32)
        .map(|i| Point {
            x: Real { bits: (i as f64 * 0.37).to_bits() },
            y: Real { bits: (-(i as f64)).to_bits() },
            z: Real { bits: f64::NAN.to_bits() },
            color: Color { r: i as u16, g: 65535, b: (i * 200) as u16 },
            attributes: PointAttributes {
                intensity: if i % 2 == 0 { Some(i as u16) } else { None },
                return_number: Some((i % 7) as u8),
                classification: if i % 3 == 0 { Some(format!("klass \u{e9} {i}")) } else { None },
                scanner_channel: if i % 5 == 0 { Some(3) } else { None },
                scan_angle: Some((i as f32 * -0.5).to_bits()),
                user_data: None,
                point_source_id: Some(60_000),
                gps_time: if i % 4 == 0 { Some(Real { bits: 1e9f64.to_bits() }) } else { None },
            },
        })
        .collect()
}

#[test]
fn points_are_read_as_they_were_written() {
    let points = points();
    let bytes = encode_points(&points);
    assert_eq!(decode_points(&bytes), Ok(points));
    assert_eq!(decode_points(&encode_points(&vec![])), Ok(vec![]));
}

#[test]
fn bytes_that_hold_no_points_are_refused() {
    let mut bytes = encode_points(&points());
    bytes.push(0);
    let error = decode_points(&bytes).unwrap_err();
    assert!(error.message().starts_with("bitcode decode failed: "));
    assert_eq!(error.message(), format!("bitcode decode failed: {}", error.reason));
    assert!(!error.reason.is_empty());
    assert!(decode_points(&[]).is_err());
}
