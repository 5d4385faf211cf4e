use point_tiler::binary64::Real;
use point_tiler::ply::fault::PlyHeaderError;
use point_tiler::ply::header::HeaderScan;
use point_tiler::ply::reader::{PlyPointReader, ReadAction, ReadEvent, ReadFault};
use point_tiler::ply::types::{PlyFormat, PlyHeader, PropertyType};
use point_tiler::ply::vertex::Axis;
use point_tiler::point::{Color, Point};

struct Source {
    files: Vec<Vec<u8>>,
    open: usize,
    at: usize,
    reader: PlyPointReader,
}

impl Source {
    fn new(files: Vec<Vec<u8>>) -> Source {
        let reader = PlyPointReader::new(files.len());
        Source { files, open: 0, at: 0, reader }
    }

    fn next_point(&mut self) -> Result<Option<Point>, String> {
        let mut action = self.reader.step(ReadEvent::Begin);
        loop {
            action = match action {
                ReadAction::Open(i) => {
                    let header = PlyHeader::parse(&self.files[i]).map_err(|e| e.message())?;
                    self.open = i;
                    self.at = header.header_byte_size as usize;
                    self.reader.step(ReadEvent::Opened(header))
                }
                ReadAction::ReadLine => {
                    let rest = &self.files[self.open][self.at..];
                    if rest.is_empty() {
                        self.reader.step(ReadEvent::EndOfData)
                    } else {
                        let n = rest.iter().position(|b| *b == b'\n').map_or(rest.len(), |n| n + 1);
                        let line = String::from_utf8(rest[..n].to_vec()).unwrap();
                        self.at += n;
                        self.reader.step(ReadEvent::Line(&line))
                    }
                }
                ReadAction::ReadRecord(n) => {
                    let rest = &self.files[self.open][self.at..];
                    if rest.len() < n {
                        self.reader.step(ReadEvent::EndOfData)
                    } else {
                        let record = rest[..n].to_vec();
                        self.at += n;
                        self.reader.step(ReadEvent::Record(&record))
                    }
                }
                ReadAction::ParseFields(fields) => {
                    let values: Vec<Option<Real>> =
                        fields.iter().map(|f| f.parse::<f64>().ok().map(bits_of)).collect();
                    self.reader.step(ReadEvent::Fields(&values))
                }
                ReadAction::Yield(point) => return Ok(Some(point)),
                ReadAction::Finished => return Ok(None),
                ReadAction::Fail(fault) => return Err(fault.message()),
            };
        }
    }
}

fn bits_of(v: f64) -> Real {
    Real { bits: v.to_bits() }
}

fn number(r: Real) -> f64 {
    f64::from_bits(r.bits)
}

fn place(p: &Point) -> (f64, f64, f64) {
    (number(p.x), number(p.y), number(p.z))
}

#[test]
fn test_parse_ascii_ply() {
    let ply_content = b"ply
format ascii 1.0
comment generated test
element vertex 2
property float x
property float y
property float z
property uchar red
property uchar green
property uchar blue
end_header
1.0 2.0 3.0 255 0 128
4.5 5.5 6.5 0 255 64
";
    let mut reader = Source::new(vec![ply_content.to_vec()]);
    let p1 = reader.next_point().unwrap().expect("p1 should exist");
    assert_eq!(number(p1.x), 1.0);
    assert_eq!(number(p1.y), 2.0);
    assert_eq!(number(p1.z), 3.0);
    assert_eq!(p1.color.r, 255 * 257);
    assert_eq!(p1.color.g, 0);
    assert_eq!(p1.color.b, 128 * 257);

    let p2 = reader.next_point().unwrap().expect("p2 should exist");
    assert_eq!(number(p2.x), 4.5);
    assert_eq!(number(p2.y), 5.5);
    assert_eq!(number(p2.z), 6.5);
    assert_eq!(p2.color.r, 0);
    assert_eq!(p2.color.g, 255 * 257);
    assert_eq!(p2.color.b, 64 * 257);

    assert!(reader.next_point().unwrap().is_none());
}

#[test]
fn test_parse_binary_little_endian_ply() {
    let header = b"ply\nformat binary_little_endian 1.0\nelement vertex 2\nproperty float x\nproperty float y\nproperty float z\nproperty uchar red\nproperty uchar green\nproperty uchar blue\nend_header\n";
    let mut data = Vec::new();
    data.extend_from_slice(header);

    // Point 1: (10.0f32, 20.0f32, 30.0f32), (255u8, 128u8, 0u8)
    data.extend_from_slice(&10.0f32.to_le_bytes());
    data.extend_from_slice(&20.0f32.to_le_bytes());
    data.extend_from_slice(&30.0f32.to_le_bytes());
    data.push(255);
    data.push(128);
    data.push(0);

    // Point 2: (100.0f32, 200.0f32, 300.0f32), (0u8, 64u8, 255u8)
    data.extend_from_slice(&100.0f32.to_le_bytes());
    data.extend_from_slice(&200.0f32.to_le_bytes());
    data.extend_from_slice(&300.0f32.to_le_bytes());
    data.push(0);
    data.push(64);
    data.push(255);

    let mut reader = Source::new(vec![data]);
    let p1 = reader.next_point().unwrap().expect("p1 exists");
    assert_eq!(number(p1.x), 10.0);
    assert_eq!(number(p1.y), 20.0);
    assert_eq!(number(p1.z), 30.0);
    assert_eq!(p1.color.r, 65535);
    assert_eq!(p1.color.g, 128 * 257);
    assert_eq!(p1.color.b, 0);

    let p2 = reader.next_point().unwrap().expect("p2 exists");
    assert_eq!(number(p2.x), 100.0);
    assert_eq!(number(p2.y), 200.0);
    assert_eq!(number(p2.z), 300.0);
    assert_eq!(p2.color.r, 0);
    assert_eq!(p2.color.g, 64 * 257);
    assert_eq!(p2.color.b, 65535);

    assert!(reader.next_point().unwrap().is_none());
}

#[test]
fn test_parse_binary_big_endian_ply() {
    let header = b"ply\nformat binary_big_endian 1.0\nelement vertex 1\nproperty double x\nproperty double y\nproperty double z\nproperty ushort r\nproperty ushort g\nproperty ushort b\nend_header\n";
    let mut data = Vec::new();
    data.extend_from_slice(header);

    data.extend_from_slice(&123.456f64.to_be_bytes());
    data.extend_from_slice(&(-789.012f64).to_be_bytes());
    data.extend_from_slice(&345.678f64.to_be_bytes());
    data.extend_from_slice(&50000u16.to_be_bytes());
    data.extend_from_slice(&30000u16.to_be_bytes());
    data.extend_from_slice(&10000u16.to_be_bytes());

    let mut reader = Source::new(vec![data]);
    let p = reader.next_point().unwrap().expect("point exists");
    assert!((number(p.x) - 123.456).abs() < 1e-6);
    assert!((number(p.y) - (-789.012)).abs() < 1e-6);
    assert!((number(p.z) - 345.678).abs() < 1e-6);
    assert_eq!(p.color.r, 50000);
    assert_eq!(p.color.g, 30000);
    assert_eq!(p.color.b, 10000);

    assert!(reader.next_point().unwrap().is_none());
}

#[test]
fn test_ply_default_color() {
    let ply_content = b"ply
format ascii 1.0
element vertex 1
property float x
property float y
property float z
end_header
10.0 20.0 30.0
";
    let mut reader = Source::new(vec![ply_content.to_vec()]);
    let p = reader.next_point().unwrap().unwrap();
    assert_eq!(number(p.x), 10.0);
    assert_eq!(number(p.y), 20.0);
    assert_eq!(number(p.z), 30.0);
    assert_eq!(p.color.r, 65535);
    assert_eq!(p.color.g, 65535);
    assert_eq!(p.color.b, 65535);
}

fn ascii(count: usize, body: &str) -> Vec<u8> {
    format!(
        "ply\nformat ascii 1.0\nelement vertex {count}\nproperty float x\nproperty float y\nproperty float z\nend_header\n{body}"
    )
    .into_bytes()
}

#[test]
fn files_are_read_one_after_the_other() {
    let files = vec![
        ascii(1, "1 2 3\n4 5 6\n"),
        ascii(0, "7 8 9\n"),
        ascii(3, "\n  \n10 11 12 99\n"),
        ascii(1, "13 14 15"),
    ];
    let mut reader = Source::new(files);
    let mut places = Vec::new();
    while let Some(p) = reader.next_point().unwrap() {
        places.push(place(&p));
    }
    assert_eq!(places, vec![(1.0, 2.0, 3.0), (10.0, 11.0, 12.0), (13.0, 14.0, 15.0)]);
    assert_eq!(reader.reader.current_file_index(), 4);
    assert!(reader.next_point().unwrap().is_none());
    assert!(reader.next_point().unwrap().is_none());
}

#[test]
fn no_files_give_no_points() {
    assert!(Source::new(vec![]).next_point().unwrap().is_none());
}

#[test]
fn short_and_malformed_records_are_refused() {
    let mut reader = Source::new(vec![ascii(2, "1 2\n3 4 5\n")]);
    assert_eq!(
        reader.next_point().unwrap_err(),
        "Corrupted PLY ascii vertex: expected 3 tokens, found 2"
    );
    assert_eq!(place(&reader.next_point().unwrap().unwrap()), (3.0, 4.0, 5.0));
    assert!(reader.next_point().unwrap().is_none());

    for (body, message) in [
        ("a 2 3\n", "Failed to parse 'x': "),
        ("1 b c\n", "Failed to parse 'y': "),
        ("1 2 c\n", "Failed to parse 'z': "),
    ] {
        assert_eq!(Source::new(vec![ascii(1, body)]).next_point().unwrap_err(), message);
    }
    assert_eq!(ReadFault::BadCoordinate(Axis::Y).message(), "Failed to parse 'y': ");
}

#[test]
fn a_record_that_is_cut_off_ends_the_file() {
    let mut data = b"ply\nformat binary_little_endian 1.0\nelement vertex 2\nproperty float x\nproperty float y\nproperty float z\nend_header\n".to_vec();
    data.extend_from_slice(&[0; 12]);
    data.extend_from_slice(&[0; 11]);
    let mut reader = Source::new(vec![data, ascii(1, "1 1 1\n")]);
    assert_eq!(place(&reader.next_point().unwrap().unwrap()), (0.0, 0.0, 0.0));
    assert_eq!(place(&reader.next_point().unwrap().unwrap()), (1.0, 1.0, 1.0));
    assert!(reader.next_point().unwrap().is_none());
}

#[test]
fn headers_are_read_in_any_case() {
    let data = b"  PLY \r\nFORMAT Binary_Little_Endian 1.0\r\nOBJ_INFO x\nobj_info nothing\n\nElement Vertex +2\nProperty Float32 X\nproperty FLOAT64 Y\nproperty int8 Z\nproperty uint8 z\nproperty int16 Diffuse_Red\nelement face 1\nproperty list uchar int vertex_indices\nEND_HEADER\nbehind";
    let header = PlyHeader::parse(data).unwrap();
    assert_eq!(header.format, PlyFormat::BinaryLittleEndian);
    assert_eq!(header.vertex_count, 2);
    let names: Vec<&str> = header.properties.iter().map(|p| p.name.as_str()).collect();
    assert_eq!(names, ["x", "y", "z", "z", "diffuse_red"]);
    let types: Vec<PropertyType> = header.properties.iter().map(|p| p.data_type).collect();
    assert_eq!(
        types,
        [
            PropertyType::Float,
            PropertyType::Double,
            PropertyType::Char,
            PropertyType::UChar,
            PropertyType::Short
        ]
    );
    let offsets: Vec<usize> = header.properties.iter().map(|p| p.offset).collect();
    assert_eq!(offsets, [0, 4, 12, 13, 14]);
    assert_eq!(header.vertex_stride, 16);
    assert_eq!(header.header_byte_size as usize, data.len() - "behind".len());
    assert_eq!((header.x_prop, header.y_prop, header.z_prop), (Some(0), Some(1), Some(3)));
    assert_eq!((header.r_prop, header.g_prop, header.b_prop), (Some(4), None, None));
    assert_eq!(header.intensity_prop, None);
}

#[test]
fn what_stands_behind_a_header_does_not_matter() {
    let data = ascii(1, "1 2 3\n");
    let header = PlyHeader::parse(&data).unwrap();
    let mut other = data[..header.header_byte_size as usize].to_vec();
    other.extend_from_slice(&[0xff, 0xfe, 10, 0]);
    let again = PlyHeader::parse(&other).unwrap();
    assert_eq!(again.header_byte_size, header.header_byte_size);
    assert_eq!(again.vertex_count, 1);
    assert_eq!(again.vertex_stride, 12);
}

#[test]
fn a_header_read_line_by_line_is_the_same() {
    let data = ascii(7, "1 2 3\n");
    let mut scan = HeaderScan::new();
    let mut lines = data.split_inclusive(|b| *b == b'\n');
    while !scan.is_done() {
        scan.feed_line(lines.next().unwrap_or(&[])).unwrap();
    }
    let consumed = scan.consumed();
    let header = scan.finish().unwrap();
    assert_eq!(header.header_byte_size, consumed);
    assert_eq!(header.vertex_count, 7);
    assert_eq!(PlyHeader::parse(&data).unwrap().header_byte_size, consumed);
}

#[test]
fn comments_change_nothing_but_the_size() {
    let plain = PlyHeader::parse(&ascii(1, "")).unwrap();
    let text = String::from_utf8(ascii(1, "")).unwrap();
    let remarked = text.replace("element", "commentary\n\n  obj_info2 x\nelement");
    let header = PlyHeader::parse(remarked.as_bytes()).unwrap();
    assert_eq!(header.vertex_count, plain.vertex_count);
    assert_eq!(header.properties.len(), plain.properties.len());
    assert_eq!(header.header_byte_size as usize, remarked.len());
}

#[test]
fn a_remark_may_stand_between_any_two_lines() {
    let text = String::from_utf8(ascii(3, "1 2 3\n")).unwrap();
    let plain = PlyHeader::parse(text.as_bytes()).unwrap();
    let size = plain.header_byte_size as usize;
    let ends: Vec<usize> = text[..size - 1].match_indices('\n').map(|(i, _)| i + 1).collect();
    assert_eq!(ends.len(), 6);
    for end in ends {
        for remark in ["\n", " \t\r\n", "comment end_header\n", "obj_info \u{e9}\n"] {
            let other = format!("{}{remark}{}", &text[..end], &text[end..]);
            let header = PlyHeader::parse(other.as_bytes()).unwrap();
            assert_eq!(header.header_byte_size as usize, size + remark.len());
            assert_eq!(
                format!("{:?}", PlyHeader { header_byte_size: 0, ..header }),
                format!("{:?}", PlyHeader { header_byte_size: 0, ..plain.clone() })
            );
        }
    }
}

#[test]
fn a_run_gives_the_declared_or_the_present_records() {
    for declared in 0..5usize {
        for present in 0..5usize {
            let lines: String = (0..present).map(|i| format!("\n{i} 0 0\n")).collect();
            let mut binary = format!(
                "ply\nformat binary_big_endian 1.0\nelement vertex {declared}\nproperty uchar x\nproperty uchar y\nproperty uchar z\nend_header\n"
            )
            .into_bytes();
            for i in 0..present {
                binary.extend_from_slice(&[10 + i as u8, 0, 0]);
            }
            let mut reader = Source::new(vec![ascii(declared, &lines), binary, ascii(declared, &lines)]);
            let mut found = Vec::new();
            while let Some(p) = reader.next_point().unwrap() {
                found.push(number(p.x) as usize);
            }
            let n = declared.min(present);
            let expected: Vec<usize> = (0..n).chain(10..10 + n).chain(0..n).collect();
            assert_eq!(found, expected);
        }
    }
}

fn refusal(text: &str) -> String {
    PlyHeader::parse(text.as_bytes()).unwrap_err().message()
}

#[test]
fn malformed_headers_are_refused() {
    assert_eq!(refusal(""), "Not a valid PLY file (missing 'ply' magic header)");
    assert_eq!(refusal("plyx\n"), "Not a valid PLY file (missing 'ply' magic header)");
    assert_eq!(refusal("ply\nformat ascii 1.0\n"), "Unexpected EOF while reading PLY header");
    assert_eq!(refusal("ply\nformat\n"), "Malformed 'format' line in PLY header");
    assert_eq!(refusal("ply\nformat Utf8 1.0\n"), "Unsupported PLY format 'utf8'");
    assert_eq!(refusal("ply\nelement vertex\n"), "Malformed 'element' line in PLY header");
    assert_eq!(refusal("ply\nelement vertex -1\n"), "invalid digit found in string");
    assert_eq!(
        refusal("ply\nelement vertex 99999999999999999999\n"),
        "number too large to fit in target type"
    );
    assert_eq!(
        refusal("ply\nelement vertex 1\nproperty float\n"),
        "Malformed 'property' line in PLY header"
    );
    assert_eq!(
        refusal("ply\nelement vertex 1\nproperty LIST uchar int x\n"),
        "List properties in vertex element are not supported"
    );
    assert_eq!(
        refusal("ply\nelement vertex 1\nproperty Quad x\n"),
        "Unknown PLY property type 'Quad'"
    );
    assert_eq!(
        refusal("ply\nelement vertex 1\nproperty float x\nend_header\n"),
        "Missing 'format' specification in PLY header"
    );
    assert_eq!(
        refusal("ply\nformat ascii 1.0\nelement vertex 1\nproperty float x\nproperty float y\nend_header\n"),
        "PLY file vertex element missing required 'x', 'y', or 'z' properties"
    );
    assert!(matches!(
        PlyHeader::parse(b"ply\n\xff\n").unwrap_err(),
        PlyHeaderError::InvalidUtf8
    ));
}

#[test]
fn property_types_have_their_names_and_sizes() {
    for (names, size) in [
        (["char", "INT8", "uchar", "Uint8"], 1),
        (["short", "int16", "ushort", "uint16"], 2),
        (["int", "int32", "uint", "UINT32"], 4),
        (["float", "float32", "Float", "FLOAT32"], 4),
        (["double", "float64", "Double", "FLOAT64"], 8),
    ] {
        for name in names {
            assert_eq!(PropertyType::parse(name).unwrap().size_in_bytes(), size);
        }
    }
    assert_eq!(PropertyType::parse("int64"), None);
    assert_eq!(PropertyType::parse(""), None);
    // The Kelvin sign becomes a small letter, a dotted capital I two characters.
    assert_eq!(PropertyType::parse("U\u{130}NT"), None);
}

#[test]
fn every_type_is_read_in_both_byte_orders() {
    let types = ["char", "uchar", "short", "ushort", "int", "uint", "float", "double"];
    let bytes: [u8; 29] = std::array::from_fn(|i| (i as u8).wrapping_mul(37).wrapping_add(200));
    for (k, name) in types.iter().enumerate() {
        let size = PropertyType::parse(name).unwrap().size_in_bytes();
        for start in 0..8 {
            let value = &bytes[start..start + size];
            for little in [true, false] {
                let format = if little { "binary_little_endian" } else { "binary_big_endian" };
                let mut data = format!(
                    "ply\nformat {format} 1.0\nelement vertex 1\nproperty {name} x\nproperty uchar y\nproperty uchar z\nend_header\n"
                )
                .into_bytes();
                data.extend_from_slice(value);
                data.extend_from_slice(&[1, 2]);
                let mut ordered = value.to_vec();
                if !little {
                    ordered.reverse();
                }
                let expected = match k {
                    0 => i8::from_le_bytes([ordered[0]]) as f64,
                    1 => ordered[0] as f64,
                    2 => i16::from_le_bytes(ordered.try_into().unwrap()) as f64,
                    3 => u16::from_le_bytes(ordered.try_into().unwrap()) as f64,
                    4 => i32::from_le_bytes(ordered.try_into().unwrap()) as f64,
                    5 => u32::from_le_bytes(ordered.try_into().unwrap()) as f64,
                    6 => f32::from_le_bytes(ordered.try_into().unwrap()) as f64,
                    _ => f64::from_le_bytes(ordered.try_into().unwrap()),
                };
                let p = Source::new(vec![data]).next_point().unwrap().unwrap();
                assert_eq!(p.x.bits, expected.to_bits(), "{name} {start} {little}");
                assert_eq!((number(p.y), number(p.z)), (1.0, 2.0));
            }
        }
    }
}

fn binary_color(name: &str, value: &[u8]) -> u16 {
    let mut data = format!(
        "ply\nformat binary_little_endian 1.0\nelement vertex 1\nproperty {name} red\nproperty uchar x\nproperty uchar y\nproperty uchar z\nproperty {name} intensity\nend_header\n"
    )
    .into_bytes();
    data.extend_from_slice(value);
    data.extend_from_slice(&[1, 2, 3]);
    data.extend_from_slice(value);
    let p = Source::new(vec![data]).next_point().unwrap().unwrap();
    assert_eq!((p.color.g, p.color.b), (65535, 65535));
    p.color.r
}

fn expected_real_color(v: f64) -> u16 {
    if v <= 1.0 && v >= 0.0 {
        (v * 65535.0).round().clamp(0.0, 65535.0) as u16
    } else if v <= 255.0 {
        (v.max(0.0) as u16).saturating_mul(257)
    } else {
        v.clamp(0.0, 65535.0) as u16
    }
}

#[test]
fn binary_colors_are_scaled_by_their_type() {
    assert_eq!(binary_color("char", &[0xff]), 65535);
    assert_eq!(binary_color("uchar", &[3]), 771);
    assert_eq!(binary_color("short", &(-5i16).to_le_bytes()), 0);
    assert_eq!(binary_color("short", &1234i16.to_le_bytes()), 1234);
    assert_eq!(binary_color("ushort", &54321u16.to_le_bytes()), 54321);
    assert_eq!(binary_color("int", &(-1i32).to_le_bytes()), 0);
    assert_eq!(binary_color("int", &255i32.to_le_bytes()), 65535);
    assert_eq!(binary_color("int", &256i32.to_le_bytes()), 256);
    assert_eq!(binary_color("uint", &70000u32.to_le_bytes()), 65535);
    assert_eq!(binary_color("float", &0.5f32.to_le_bytes()), 32768);
    for v in [
        0.0f64, -0.0, 1.0, 0.5, 0.25, 0.1, 1e-5, 1e-300, 7.6294e-6, 0.99999999999, 1.0000000001, 2.0,
        254.999, 255.0, 255.5, 65534.5, 65535.0, 65536.0, 1e300, -1.0, f64::NAN, f64::INFINITY,
        f64::NEG_INFINITY, f64::MIN_POSITIVE, 0.3333333333333333, 0.7071067811865476,
    ] {
        assert_eq!(binary_color("double", &v.to_le_bytes()), expected_real_color(v), "{v}");
        let w = v as f32;
        assert_eq!(binary_color("float", &w.to_le_bytes()), expected_real_color(w as f64), "{w}");
    }
    for i in 0..4000u64 {
        let v = (i as f64) / 3999.0;
        assert_eq!(binary_color("double", &v.to_le_bytes()), expected_real_color(v), "{v}");
    }
}

fn ascii_color(name: &str, value: &str) -> (u16, Option<u16>) {
    let data = format!(
        "ply\nformat ascii 1.0\nelement vertex 1\nproperty {name} blue\nproperty float x\nproperty float y\nproperty float z\nproperty {name} scalar_intensity\nend_header\n{value} 1 2 3 {value}\n"
    );
    let p = Source::new(vec![data.into_bytes()]).next_point().unwrap().unwrap();
    (p.color.b, p.attributes.intensity)
}

fn expected_ascii_color(name: &str, v: f64) -> u16 {
    match name {
        "uchar" => (v.clamp(0.0, 255.0) as u16).saturating_mul(257),
        "ushort" => v.clamp(0.0, 65535.0) as u16,
        "int" => {
            if v <= 255.0 {
                (v.clamp(0.0, 255.0) as u16).saturating_mul(257)
            } else {
                v.clamp(0.0, 65535.0) as u16
            }
        }
        _ => {
            if v <= 1.0 && v >= 0.0 {
                (v * 65535.0).round().clamp(0.0, 65535.0) as u16
            } else if v <= 255.0 {
                (v.clamp(0.0, 255.0) as u16).saturating_mul(257)
            } else {
                v.clamp(0.0, 65535.0) as u16
            }
        }
    }
}

#[test]
fn written_colors_are_scaled_by_their_type() {
    for name in ["uchar", "ushort", "int", "double"] {
        for text in ["0", "1", "0.5", "-3", "128", "255", "256.7", "65535", "70000", "NaN", "inf", "-inf", "1e-9"] {
            let v: f64 = text.parse().unwrap();
            let (color, intensity) = ascii_color(name, text);
            assert_eq!(color, expected_ascii_color(name, v), "{name} {text}");
            assert_eq!(intensity, Some(v.clamp(0.0, 65535.0) as u16), "{text}");
        }
        assert_eq!(ascii_color(name, "none"), (expected_ascii_color(name, 255.0), None));
    }
}

#[test]
fn points_carry_nothing_but_their_intensity() {
    let data = "ply\nformat ascii 1.0\nelement vertex 1\nproperty float x\nproperty float y\nproperty float z\nproperty float intensity\nend_header\n1 2 3 77.9\n";
    let p = Source::new(vec![data.as_bytes().to_vec()]).next_point().unwrap().unwrap();
    assert_eq!(p.color, Color { r: 65535, g: 65535, b: 65535 });
    assert_eq!(p.attributes.intensity, Some(77));
    assert_eq!(p.attributes.return_number, None);
    assert_eq!(p.attributes.classification, None);
    assert_eq!(p.attributes.scanner_channel, None);
    assert_eq!(p.attributes.scan_angle, None);
    assert_eq!(p.attributes.user_data, None);
    assert_eq!(p.attributes.point_source_id, None);
    assert_eq!(p.attributes.gps_time, None);
}

#[test]
fn processing_size_comes_from_the_header_or_the_file() {
    let header = PlyHeader::parse(&ascii(10, "")).unwrap();
    assert_eq!(PlyPointReader::estimate_processing_size(Some(&header), Some(9)), 120);
    assert_eq!(PlyPointReader::estimate_processing_size(None, Some(9)), 9);
    assert_eq!(PlyPointReader::estimate_processing_size(None, None), 0);
}
