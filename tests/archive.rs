use s25decoder::s25::{Error, S25Archive};

/// One image to lay out: width, height, flag word, and each row's token bytes.
struct Img {
    width: i32,
    height: i32,
    flags: u32,
    rows: Vec<Vec<u8>>,
}

fn push_i32(out: &mut Vec<u8>, v: i32) {
    out.extend_from_slice(&v.to_le_bytes());
}

/// Lays out an archive: magic, count, offsets, then each image's header, row
/// table and rows (each row at an even position).
fn build(images: Vec<Option<Img>>) -> Vec<u8> {
    let mut out = b"S25\0".to_vec();
    push_i32(&mut out, images.len() as i32);
    let table = out.len();
    for _ in &images {
        push_i32(&mut out, 0);
    }
    for (i, img) in images.iter().enumerate() {
        let img = match img {
            Some(img) => img,
            None => continue,
        };
        let off = out.len() as i32;
        out[table + 4 * i..table + 4 * i + 4].copy_from_slice(&off.to_le_bytes());
        push_i32(&mut out, img.width);
        push_i32(&mut out, img.height);
        push_i32(&mut out, 3);
        push_i32(&mut out, -4);
        out.extend_from_slice(&img.flags.to_le_bytes());
        let rows_at = out.len();
        for _ in &img.rows {
            push_i32(&mut out, 0);
        }
        for (r, row) in img.rows.iter().enumerate() {
            if out.len() % 2 == 1 {
                out.push(0);
            }
            let at = out.len() as i32;
            out[rows_at + 4 * r..rows_at + 4 * r + 4].copy_from_slice(&at.to_le_bytes());
            out.extend_from_slice(&(row.len() as u16).to_le_bytes());
            out.extend_from_slice(row);
        }
    }
    out
}

fn word(method: u16, skip: u16, count: u16) -> [u8; 2] {
    (method << 13 | skip << 11 | count).to_le_bytes()
}

fn fill_red_row(width: u16) -> Vec<u8> {
    let mut row = word(3, 0, width).to_vec();
    row.extend_from_slice(&[0, 0, 255]);
    row
}

#[test]
fn bad_magic_is_invalid_archive() {
    let mut bytes = build(vec![]);
    bytes[0] = b'X';
    assert!(matches!(S25Archive::from_raw_bytes(&bytes), Err(Error::InvalidArchive)));
    let other = [0u8, 1, 2, 3, 1, 0, 0, 0, 9, 9, 9, 9];
    assert!(matches!(S25Archive::from_raw_bytes(&other), Err(Error::InvalidArchive)));
}

#[test]
fn short_source_is_io_error() {
    assert!(matches!(S25Archive::from_raw_bytes(b"S2"), Err(Error::IoError)));
    assert!(matches!(S25Archive::from_raw_bytes(b"S25\0\x02\0"), Err(Error::IoError)));
    let mut bytes = b"S25\0".to_vec();
    push_i32(&mut bytes, 3);
    push_i32(&mut bytes, 0);
    assert!(matches!(S25Archive::from_raw_bytes(&bytes), Err(Error::IoError)));
}

#[test]
fn entries_and_layers() {
    for (n, layers) in [(0usize, 1usize), (1, 1), (99, 1), (100, 2), (250, 3)] {
        let images = (0..n).map(|_| None).collect();
        let a = S25Archive::from_raw_bytes(&build(images)).ok().unwrap();
        assert_eq!(a.total_entries(), n);
        assert_eq!(a.total_layers(), layers);
    }
}

#[test]
fn negative_count_is_empty_table() {
    let mut bytes = b"S25\0".to_vec();
    push_i32(&mut bytes, -5);
    let a = S25Archive::from_raw_bytes(&bytes).ok().unwrap();
    assert_eq!(a.total_entries(), 0);
    assert_eq!(a.total_layers(), 1);
}

#[test]
fn missing_entries_are_no_entry() {
    let img = Img { width: 1, height: 1, flags: 0, rows: vec![fill_red_row(1)] };
    let mut a = S25Archive::from_raw_bytes(&build(vec![None, Some(img)])).ok().unwrap();
    assert!(matches!(a.load_image(0), Err(Error::NoEntry)));
    assert!(matches!(a.load_image(2), Err(Error::NoEntry)));
    assert!(matches!(a.load_image(usize::MAX), Err(Error::NoEntry)));
    assert!(a.load_image(1).is_ok());
}

#[test]
fn incremental_is_unsupported() {
    let img = Img { width: 2, height: 2, flags: 0x8000_0000, rows: vec![] };
    let mut a = S25Archive::from_raw_bytes(&build(vec![Some(img)])).ok().unwrap();
    let meta = a.load_image_metadata(0).ok().unwrap();
    assert!(meta.incremental);
    assert!(matches!(a.load_image(0), Err(Error::UnsupportedFileFormat)));
    assert_eq!(a.file.pos, meta.head as u64);
}

#[test]
fn negative_dimensions_are_unsupported() {
    let img = Img { width: -2, height: -2, flags: 0, rows: vec![] };
    let mut a = S25Archive::from_raw_bytes(&build(vec![Some(img)])).ok().unwrap();
    assert!(matches!(a.load_image(0), Err(Error::UnsupportedFileFormat)));
}

#[test]
fn metadata_fields() {
    let img = Img { width: 4, height: 1, flags: 0x7fff_ffff, rows: vec![fill_red_row(4)] };
    let bytes = build(vec![Some(img)]);
    let mut a = S25Archive::from_raw_bytes(&bytes).ok().unwrap();
    let m = a.load_image_metadata(0).ok().unwrap();
    assert_eq!((m.width, m.height, m.offset_x, m.offset_y), (4, 1, 3, -4));
    assert!(!m.incremental);
    assert_eq!(m.head, 12 + 20);
}

#[test]
fn buffer_is_width_height_four() {
    let img = Img { width: 3, height: 2, flags: 0, rows: vec![vec![], fill_red_row(1)] };
    let mut a = S25Archive::from_raw_bytes(&build(vec![Some(img)])).ok().unwrap();
    let im = a.load_image(0).ok().unwrap();
    assert_eq!(im.rgba_buffer.len(), 3 * 2 * 4);
    assert_eq!(&im.rgba_buffer[12..16], &[255, 0, 0, 255]);
    assert!(im.rgba_buffer[0..12].iter().all(|b| *b == 0));
}

#[test]
fn fill_row_is_red() {
    let img = Img { width: 5, height: 1, flags: 0, rows: vec![fill_red_row(5)] };
    let mut a = S25Archive::from_raw_bytes(&build(vec![Some(img)])).ok().unwrap();
    let im = a.load_image(0).ok().unwrap();
    assert_eq!(im.rgba_buffer, [255u8, 0, 0, 255].repeat(5));
}

#[test]
fn skip_row_stays_transparent() {
    let rows = vec![fill_red_row(2), word(0, 0, 2).to_vec(), fill_red_row(2)];
    let img = Img { width: 2, height: 3, flags: 0, rows };
    let mut a = S25Archive::from_raw_bytes(&build(vec![Some(img)])).ok().unwrap();
    let im = a.load_image(0).ok().unwrap();
    assert_eq!(&im.rgba_buffer[8..16], &[0u8; 8]);
    assert_eq!(&im.rgba_buffer[16..24], &[255u8, 0, 0, 255, 255, 0, 0, 255]);
}

#[test]
fn decoding_twice_is_identical() {
    let mut row = word(2, 0, 2).to_vec();
    row.extend_from_slice(&[1, 2, 3, 4, 5, 6]);
    let img = Img { width: 2, height: 2, flags: 0, rows: vec![row, fill_red_row(2)] };
    let mut a = S25Archive::from_raw_bytes(&build(vec![Some(img)])).ok().unwrap();
    let first = a.load_image(0).ok().unwrap();
    let second = a.load_image(0).ok().unwrap();
    assert_eq!(first.rgba_buffer, second.rgba_buffer);
    assert_eq!(first.metadata, second.metadata);
    assert_eq!(&first.rgba_buffer[0..8], &[3, 2, 1, 255, 6, 5, 4, 255]);
}

#[test]
fn truncated_row_table_is_io_error() {
    let img = Img { width: 1, height: 1, flags: 0, rows: vec![fill_red_row(1)] };
    let mut bytes = build(vec![Some(img)]);
    // the header claims a second row the table does not hold
    let h = 4 + 4 + 4 + 4;
    bytes[h..h + 4].copy_from_slice(&1000i32.to_le_bytes());
    let mut a = S25Archive::from_raw_bytes(&bytes).ok().unwrap();
    assert!(matches!(a.load_image(0), Err(Error::IoError)));
}

#[test]
fn odd_row_drops_padding_and_low_bit() {
    // header at 12, row table at 32, row at the odd position 37
    let mut bytes = b"S25\0".to_vec();
    push_i32(&mut bytes, 1);
    push_i32(&mut bytes, 12);
    push_i32(&mut bytes, 1);
    push_i32(&mut bytes, 1);
    push_i32(&mut bytes, 0);
    push_i32(&mut bytes, 0);
    push_i32(&mut bytes, 0);
    push_i32(&mut bytes, 37);
    bytes.push(0xee);
    // length 6 with its low bit set, one padding byte, then the tokens
    bytes.extend_from_slice(&[7, 0, 0xaa]);
    bytes.extend_from_slice(&word(3, 0, 1));
    bytes.extend_from_slice(&[10, 20, 30, 0]);
    let mut a = S25Archive::from_raw_bytes(&bytes).ok().unwrap();
    let im = a.load_image(0).ok().unwrap();
    assert_eq!(im.rgba_buffer, vec![30, 20, 10, 255]);
}

#[test]
fn missing_entry_leaves_position() {
    let img = Img { width: 1, height: 1, flags: 0, rows: vec![fill_red_row(1)] };
    let mut a = S25Archive::from_raw_bytes(&build(vec![None, Some(img)])).ok().unwrap();
    let before = a.file.pos;
    assert!(matches!(a.load_image_metadata(0), Err(Error::NoEntry)));
    assert!(matches!(a.load_image(5), Err(Error::NoEntry)));
    assert_eq!(a.file.pos, before);
}

#[test]
fn incremental_refused_even_when_source_ends_at_header() {
    let img = Img { width: 100, height: 100, flags: 0x8000_0001, rows: vec![] };
    let bytes = build(vec![Some(img)]);
    let header_end = 12 + 20;
    let mut a = S25Archive::from_raw_bytes(&bytes[..header_end]).ok().unwrap();
    assert!(matches!(a.load_image(0), Err(Error::UnsupportedFileFormat)));
}
