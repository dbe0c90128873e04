use ucsf_nmr::{AxisHeader, Header, UcsfError, UcsfFile};

type AxisSpec<'a> = (&'a [u8], u32, u32, f32, f32, f32);

fn header_bytes(dimensions: u8, components: u8, version: u16) -> Vec<u8> {
    let mut b = b"UCSF NMR".to_vec();
    b.extend_from_slice(&[0, 0]);
    b.push(dimensions);
    b.push(components);
    b.extend_from_slice(&version.to_be_bytes());
    for i in 0..166u32 {
        b.push((i * 7 % 251) as u8);
    }
    b
}

fn axis_bytes(axis: &AxisSpec) -> Vec<u8> {
    let (name, points, tile, freq, width, center) = *axis;
    let mut b = vec![0u8; 8];
    b[..name.len()].copy_from_slice(name);
    b.extend_from_slice(&points.to_be_bytes());
    b.extend_from_slice(&[0, 0, 0, 0]);
    b.extend_from_slice(&tile.to_be_bytes());
    b.extend_from_slice(&freq.to_bits().to_be_bytes());
    b.extend_from_slice(&width.to_bits().to_be_bytes());
    b.extend_from_slice(&center.to_bits().to_be_bytes());
    for i in 0..96u32 {
        b.push((i * 3 % 256) as u8);
    }
    b
}

fn spectrum(version: u16, axes: &[AxisSpec]) -> Vec<u8> {
    let mut b = header_bytes(axes.len() as u8, 1, version);
    let mut samples = 1usize;
    for axis in axes {
        b.extend(axis_bytes(axis));
        if axis.2 == 0 {
            samples = 0;
        } else {
            let tiles = (axis.1 + axis.2 - 1) / axis.2;
            samples *= (tiles * axis.2) as usize;
        }
    }
    for i in 0..samples {
        b.extend_from_slice(&(i as f32).to_bits().to_be_bytes());
    }
    b
}

fn hsqc() -> Vec<u8> {
    spectrum(
        2,
        &[
            (b"15N", 256, 128, 60.833, 1824.818, 117.04299),
            (b"1H", 352, 176, 600.283, 3305.2886, 8.244598),
        ],
    )
}

fn hsqc_highres() -> Vec<u8> {
    spectrum(
        2,
        &[(b"15N", 512, 128, 60.81, 2000.0, 118.0), (b"1H", 257, 64, 600.13, 3000.0, 4.7)],
    )
}

#[test]
fn parse_file() {
    let contents = hsqc();

    let (rem, _) = UcsfFile::parse(&contents[..]).expect("Failed parsing");
    assert_eq!(rem.len(), 0);
}

#[test]
fn parse_file_padded() {
    let contents = hsqc_highres();

    let (rem, _) = UcsfFile::parse(&contents[..]).expect("Failed parsing");
    assert_eq!(rem.len(), 0);
}

#[test]
fn parse_header() {
    let contents = hsqc();

    let (_, header) = Header::parse(&contents[..]).expect("Failed parsing");
    assert_eq!(
        Header {
            dimensions: 2,
            components: 1,
            format_version: 2,
            remainder: contents[14..180].to_vec()
        },
        header
    );
}

#[test]
fn parse_header_2() {
    let contents = hsqc_highres();

    let (_, header) = Header::parse(&contents[..]).expect("Failed parsing");
    assert_eq!(
        Header {
            dimensions: 2,
            components: 1,
            format_version: 2,
            remainder: contents[14..180].to_vec()
        },
        header
    );
}

#[test]
fn parse_header_format_error() {
    let mut contents = hsqc();
    contents[13] = 3;

    assert_eq!(Err(UcsfError::UnsupportedFormat), Header::parse(&contents[..]));
}

#[test]
fn parse_axis_header_1() {
    let contents = hsqc();

    let header = AxisHeader::parse(&contents[180..]).expect("Failed parsing").1;
    assert_eq!(header.nucleus_name, "15N".to_owned());
    assert_eq!(header.data_points, 256);
    assert_eq!(header.tile_size, 128);
    assert_eq!(f32::from_bits(header.frequency), 60.833f32);
    assert_eq!(f32::from_bits(header.spectral_width), 1824.818f32);
    assert_eq!(f32::from_bits(header.center), 117.04299f32);
}

#[test]
fn parse_axis_header_2() {
    let contents = hsqc();

    let header = AxisHeader::parse(&contents[308..]).expect("Failed parsing").1;
    assert_eq!(header.nucleus_name, "1H".to_owned());
    assert_eq!(header.data_points, 352);
    assert_eq!(header.tile_size, 176);
    assert_eq!(f32::from_bits(header.frequency), 600.283f32);
    assert_eq!(f32::from_bits(header.spectral_width), 3305.2886f32);
    assert_eq!(f32::from_bits(header.center), 8.244598f32);
}

#[test]
fn correct_dimensions() {
    let contents = hsqc_highres();

    let (_, file) = UcsfFile::parse(&contents[..]).expect("Failed parsing");
    assert_eq!(file.axis_data_points(0), 512);
    assert_eq!(file.axis_data_points(1), 257);
}

#[test]
fn correct_tile_sizes() {
    let contents = hsqc_highres();

    let (_, file) = UcsfFile::parse(&contents[..]).expect("Failed parsing");
    assert_eq!(file.axis_tile_size(0), 128);
    assert_eq!(file.axis_tile_size(1), 64);
}

#[test]
fn header_with_two_components_is_unsupported() {
    let mut contents = hsqc();
    contents[11] = 2;
    assert_eq!(Header::parse(&contents[..]), Err(UcsfError::UnsupportedComponents));
    // the component count is checked before the format version
    contents[13] = 9;
    assert_eq!(Header::parse(&contents[..]), Err(UcsfError::UnsupportedComponents));
    assert_eq!(UcsfFile::parse(&contents[..]).err(), Some(UcsfError::UnsupportedComponents));
}

#[test]
fn truncated_header_fails_to_parse() {
    let contents = hsqc();
    for len in [0usize, 1, 8, 12, 14, 179] {
        assert_eq!(Header::parse(&contents[..len]), Err(UcsfError::Parsing));
        assert_eq!(UcsfFile::parse(&contents[..len]).err(), Some(UcsfError::Parsing));
    }
    assert!(Header::parse(&contents[..180]).is_ok());
}

#[test]
fn wrong_magic_fails_to_parse() {
    let mut contents = hsqc();
    contents[0] = b'X';
    assert_eq!(Header::parse(&contents[..]), Err(UcsfError::Parsing));
}

#[test]
fn header_returns_following_bytes() {
    let contents = hsqc();
    let (rest, _) = Header::parse(&contents[..]).unwrap();
    assert_eq!(rest, &contents[180..]);
}

#[test]
fn truncated_axis_record_fails_to_parse() {
    let contents = hsqc();
    assert_eq!(AxisHeader::parse(&contents[180..307]).err(), Some(UcsfError::Parsing));
    assert_eq!(UcsfFile::parse(&contents[..400]).err(), Some(UcsfError::Parsing));
    let (rest, axis) = AxisHeader::parse(&contents[180..308]).unwrap();
    assert_eq!(rest.len(), 0);
    assert_eq!(axis.remainder, contents[212..308].to_vec());
}

#[test]
fn truncated_samples_fail_to_parse() {
    let contents = hsqc();
    let short = &contents[..contents.len() - 1];
    assert_eq!(UcsfFile::parse(short).err(), Some(UcsfError::Parsing));
}

#[test]
fn trailing_bytes_are_returned() {
    let mut contents = hsqc();
    contents.extend_from_slice(&[1, 2, 3]);
    let (rest, file) = UcsfFile::parse(&contents[..]).unwrap();
    assert_eq!(rest, &[1, 2, 3]);
    assert_eq!(file.data.len(), 256 * 352);
    assert_eq!(f32::from_bits(file.data[5]), 5.0);
}

#[test]
fn zero_tile_size_fails_to_parse() {
    let contents = spectrum(2, &[(b"13C", 10, 0, 1.0, 1.0, 1.0)]);
    assert_eq!(UcsfFile::parse(&contents[..]).err(), Some(UcsfError::Parsing));
    // the record alone still decodes
    assert_eq!(AxisHeader::parse(&contents[180..]).unwrap().1.tile_size, 0);
}

#[test]
fn nucleus_name_is_trimmed() {
    let contents = spectrum(2, &[(b"13C  \0ab", 4, 2, 1.0, 1.0, 1.0)]);
    let axis = AxisHeader::parse(&contents[180..]).unwrap().1;
    assert_eq!(axis.nucleus_name, "13C");
    let contents = spectrum(2, &[(b"31P 1H  ", 4, 2, 1.0, 1.0, 1.0)]);
    let axis = AxisHeader::parse(&contents[180..]).unwrap().1;
    assert_eq!(axis.nucleus_name, "31P 1H");
}

#[test]
fn nucleus_name_replaces_invalid_utf8() {
    let contents = spectrum(2, &[(&[0x31, 0xff, 0x48], 4, 2, 1.0, 1.0, 1.0)]);
    let axis = AxisHeader::parse(&contents[180..]).unwrap().1;
    assert_eq!(axis.nucleus_name, "1\u{fffd}H");
}

#[test]
fn error_messages() {
    assert_eq!(UcsfError::Parsing.message(), "Failed to parse");
    assert_eq!(
        UcsfError::UnsupportedFormat.message(),
        "Unsupported format version. Currently the parser only supports format version 2."
    );
    assert_eq!(
        UcsfError::UnsupportedComponents.message(),
        "Unsupported number of components. Currently the parser only supports files with 1 component per data point (= Real)."
    );
}
