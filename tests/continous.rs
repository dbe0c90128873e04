use ucsf_nmr::UcsfFile;

type AxisSpec<'a> = (&'a [u8], u32, u32, f32, f32, f32);

fn header_bytes(dimensions: u8, components: u8, version: u16) -> Vec<u8> {
    let mut b = b"UCSF NMR".to_vec();
    b.extend_from_slice(&[0, 0]);
    b.push(dimensions);
    b.push(components);
    b.extend_from_slice(&version.to_be_bytes());
    for i in 0..166u32 {
        b.push((i * 7 % 251) as u8);
    }
    b
}

fn axis_bytes(axis: &AxisSpec) -> Vec<u8> {
    let (name, points, tile, freq, width, center) = *axis;
    let mut b = vec![0u8; 8];
    b[..name.len()].copy_from_slice(name);
    b.extend_from_slice(&points.to_be_bytes());
    b.extend_from_slice(&[0, 0, 0, 0]);
    b.extend_from_slice(&tile.to_be_bytes());
    b.extend_from_slice(&freq.to_bits().to_be_bytes());
    b.extend_from_slice(&width.to_bits().to_be_bytes());
    b.extend_from_slice(&center.to_bits().to_be_bytes());
    for i in 0..96u32 {
        b.push((i * 3 % 256) as u8);
    }
    b
}

fn spectrum(version: u16, axes: &[AxisSpec]) -> Vec<u8> {
    let mut b = header_bytes(axes.len() as u8, 1, version);
    let mut samples = 1usize;
    for axis in axes {
        b.extend(axis_bytes(axis));
        if axis.2 == 0 {
            samples = 0;
        } else {
            let tiles = (axis.1 + axis.2 - 1) / axis.2;
            samples *= (tiles * axis.2) as usize;
        }
    }
    for i in 0..samples {
        b.extend_from_slice(&(i as f32).to_bits().to_be_bytes());
    }
    b
}

fn hsqc() -> Vec<u8> {
    spectrum(
        2,
        &[
            (b"15N", 256, 128, 60.833, 1824.818, 117.04299),
            (b"1H", 352, 176, 600.283, 3305.2886, 8.244598),
        ],
    )
}

fn hsqc_highres() -> Vec<u8> {
    spectrum(
        2,
        &[(b"15N", 512, 128, 60.81, 2000.0, 118.0), (b"1H", 257, 64, 600.13, 3000.0, 4.7)],
    )
}

#[test]
fn data_continous_2d_simple() {
    let contents = hsqc();

    let (_, file) = UcsfFile::parse(&contents[..]).expect("Failed parsing");
    let _ = file.data_continous();
}

#[test]
fn data_continous_2d_padded() {
    let contents = hsqc_highres();

    let (_, file) = UcsfFile::parse(&contents[..]).expect("Failed parsing");
    // basic check that we don't panic
    file.data_continous();
}

#[test]
fn dense_data_matches_tiles() {
    for contents in [hsqc(), hsqc_highres()] {
        let (_, file) = UcsfFile::parse(&contents[..]).unwrap();
        let dense = file.data_continous();
        let sizes = file.axis_sizes();
        assert_eq!(dense.len(), sizes[0] * sizes[1]);
        let mut tiles = file.tiles();
        let mut visited = vec![false; dense.len()];
        while let Some(tile) = tiles.next() {
            let mut iter = tile.iter_with_abolute_pos().as_2d();
            while let Some(((a, b), value)) = iter.next() {
                let pos = a * sizes[1] + b;
                assert_eq!(dense[pos], value);
                assert!(!visited[pos]);
                visited[pos] = true;
            }
        }
        assert!(visited.iter().all(|v| *v));
    }
}

#[test]
fn dense_data_of_small_padded_grid() {
    let contents = spectrum(2, &[(b"1H", 3, 2, 1.0, 1.0, 1.0), (b"15N", 3, 2, 1.0, 1.0, 1.0)]);
    let (_, file) = UcsfFile::parse(&contents[..]).unwrap();
    let dense: Vec<f32> = file.data_continous().into_iter().map(f32::from_bits).collect();
    assert_eq!(dense, vec![0.0, 1.0, 4.0, 2.0, 3.0, 5.0, 6.0, 7.0, 8.0]);
}

#[test]
fn dense_data_of_one_axis() {
    let contents = spectrum(2, &[(b"1H", 5, 2, 1.0, 1.0, 1.0)]);
    let (_, file) = UcsfFile::parse(&contents[..]).unwrap();
    assert_eq!(file.data.len(), 6);
    let dense: Vec<f32> = file.data_continous().into_iter().map(f32::from_bits).collect();
    assert_eq!(dense, vec![0.0, 1.0, 2.0, 3.0, 4.0]);
}
