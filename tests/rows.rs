use s25decoder::decode::{decode_line, moved_cursor, read_token, Token};
use s25decoder::utils::{read_i16, read_i32, ByteCursor};

fn word(method: u16, skip: u16, count: u16) -> [u8; 2] {
    (method << 13 | skip << 11 | count).to_le_bytes()
}

fn run(tokens: &[u8], len: usize, start: u64, width: i32) -> (Vec<u8>, u64) {
    let mut buf = vec![0u8; len];
    let mut offset = start;
    decode_line(tokens, &mut buf, &mut offset, width);
    (buf, offset)
}

#[test]
fn reads_little_endian_integers() {
    let mut c = ByteCursor::new(vec![0xfe, 0xff, 0x01, 0x02, 0x03, 0x84, 0x00]);
    assert_eq!(read_i16(&mut c).ok(), Some(-2));
    assert_eq!(read_i32(&mut c).ok(), Some(i32::from_le_bytes([1, 2, 3, 0x84])));
    assert_eq!(c.pos, 6);
    assert!(read_i32(&mut c).is_err());
    assert_eq!(c.pos, 6);
    c.seek(100);
    assert!(read_i16(&mut c).is_err());
}

#[test]
fn token_fields() {
    let mut t = word(4, 2, 9).to_vec();
    t.extend_from_slice(&[0; 8]);
    assert_eq!(read_token(&t, 0, 100), Some((Token::DirectAlpha(9), 4)));
    assert_eq!(read_token(&t, 0, 5), Some((Token::DirectAlpha(5), 4)));
    let mut e = word(1, 1, 0).to_vec();
    e.extend_from_slice(&(-3i32).to_le_bytes());
    assert_eq!(read_token(&e, 0, 7), Some((Token::Move(-3), 7)));
    assert_eq!(read_token(&e[..4], 0, 7), None);
    assert_eq!(read_token(&[1], 0, 7), None);
}

#[test]
fn fill_opaque_row() {
    let mut t = word(3, 0, 3).to_vec();
    t.extend_from_slice(&[0, 0, 255]);
    let (buf, end) = run(&t, 12, 0, 3);
    assert_eq!(buf, [255u8, 0, 0, 255].repeat(3));
    assert_eq!(end, 12);
}

#[test]
fn skip_row_writes_nothing() {
    let (buf, end) = run(&word(0, 0, 4), 16, 0, 4);
    assert_eq!(buf, vec![0u8; 16]);
    assert_eq!(end, 16);
    let (buf, _) = run(&word(7, 0, 4), 16, 0, 4);
    assert_eq!(buf, vec![0u8; 16]);
}

#[test]
fn extended_count_matches_short_count() {
    let mut short = word(3, 0, 3).to_vec();
    short.extend_from_slice(&[9, 8, 7]);
    let mut long = word(3, 0, 0).to_vec();
    long.extend_from_slice(&3i32.to_le_bytes());
    long.extend_from_slice(&[9, 8, 7]);
    assert_eq!(run(&short, 12, 0, 3), run(&long, 12, 0, 3));
    assert_eq!(run(&long, 12, 0, 3).0, [7u8, 8, 9, 255].repeat(3));
}

#[test]
fn direct_pixels_with_and_without_alpha() {
    let mut t = word(2, 0, 1).to_vec();
    t.extend_from_slice(&[1, 2, 3]);
    t.push(0); // realign to an even position
    t.extend_from_slice(&word(4, 0, 1));
    t.extend_from_slice(&[40, 1, 2, 3]);
    let (buf, end) = run(&t, 8, 0, 2);
    assert_eq!(buf, vec![3, 2, 1, 255, 3, 2, 1, 40]);
    assert_eq!(end, 8);
}

#[test]
fn fill_alpha_and_backward_move() {
    let mut t = word(5, 0, 2).to_vec();
    t.extend_from_slice(&[128, 1, 2, 3]);
    t.extend_from_slice(&word(0, 0, 0));
    t.extend_from_slice(&(-1i32).to_le_bytes());
    t.extend_from_slice(&word(3, 0, 1));
    t.extend_from_slice(&[9, 9, 9]);
    let (buf, end) = run(&t, 12, 0, 3);
    assert_eq!(buf, vec![3, 2, 1, 128, 9, 9, 9, 255, 0, 0, 0, 0]);
    assert_eq!(end, 8);
}

#[test]
fn overlong_request_stops_at_buffer_end() {
    let mut t = word(3, 0, 0).to_vec();
    t.extend_from_slice(&1000i32.to_le_bytes());
    t.extend_from_slice(&[1, 2, 3]);
    let (buf, end) = run(&t, 10, 4, 1000);
    assert_eq!(buf.len(), 10);
    assert_eq!(&buf[4..8], &[3, 2, 1, 255]);
    assert_eq!(&buf[8..10], &[0, 0]);
    assert_eq!(end, 8);
}

#[test]
fn direct_run_stops_when_stream_ends() {
    let mut t = word(2, 0, 3).to_vec();
    t.extend_from_slice(&[1, 2, 3, 4, 5]);
    let (buf, end) = run(&t, 12, 0, 3);
    assert_eq!(buf, vec![3, 2, 1, 255, 0, 0, 0, 0, 0, 0, 0, 0]);
    assert_eq!(end, 4);
}

#[test]
fn truncated_fill_color_ends_row() {
    let mut t = word(3, 0, 2).to_vec();
    t.extend_from_slice(&[1, 2]);
    let (buf, end) = run(&t, 8, 0, 2);
    assert_eq!(buf, vec![0u8; 8]);
    assert_eq!(end, 0);
}

#[test]
fn cursor_moves_saturate() {
    assert_eq!(moved_cursor(8, -5), 0);
    assert_eq!(moved_cursor(8, -1), 4);
    assert_eq!(moved_cursor(8, 3), 20);
    assert_eq!(moved_cursor(u64::MAX - 2, 1), u64::MAX);
}

#[test]
fn padding_follows_extended_count() {
    let mut t = word(3, 1, 0).to_vec();
    t.extend_from_slice(&2i32.to_le_bytes());
    t.push(0xcc);
    t.extend_from_slice(&[4, 5, 6]);
    assert_eq!(read_token(&t, 0, 2), Some((Token::FillOpaque(2), 7)));
    let (buf, end) = run(&t, 8, 0, 2);
    assert_eq!(buf, [6u8, 5, 4, 255].repeat(2));
    assert_eq!(end, 8);
}

#[test]
fn copy_request_past_buffer_end_fills_tail() {
    let mut t = word(4, 0, 3).to_vec();
    t.extend_from_slice(&[10, 1, 2, 3, 20, 4, 5, 6, 30, 7, 8, 9]);
    let (buf, end) = run(&t, 8, 4, 3);
    assert_eq!(buf, vec![0, 0, 0, 0, 3, 2, 1, 10]);
    assert_eq!(end, 8);
}
