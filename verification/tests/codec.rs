use csc411_rpegio::debug_format_rpeg_data;
use csc411_rpegio::encode_rpeg_data;
use csc411_rpegio::group_words;
use csc411_rpegio::read_in_rpeg_data;
use csc411_rpegio::ByteCursor;
use csc411_rpegio::RpegError;

fn header_input(width: &str, height: &str, newline: &str, payload: &[u8]) -> Vec<u8> {
    let mut bytes = Vec::new();
    bytes.extend_from_slice(b"Compressed image format 2");
    bytes.extend_from_slice(newline.as_bytes());
    bytes.extend_from_slice(width.as_bytes());
    bytes.push(b' ');
    bytes.extend_from_slice(height.as_bytes());
    bytes.extend_from_slice(newline.as_bytes());
    bytes.extend_from_slice(payload);
    bytes
}

#[test]
fn test_no_tests() {
    // The decoder works on plain in-memory bytes, so no standard-input
    // plumbing is needed to exercise it.
    let input = header_input("2", "1", "\n", &[0x00, 0x11, 0x22, 0x33, 0x44, 0x55, 0x66, 0x77]);
    let (words, width, height) = read_in_rpeg_data(input).unwrap();
    assert_eq!(width, 2);
    assert_eq!(height, 1);
    assert_eq!(words, vec![[0x00, 0x11, 0x22, 0x33], [0x44, 0x55, 0x66, 0x77]]);
}

#[test]
fn concrete_scenario_round_trips_exactly() {
    let payload = [0x00, 0x11, 0x22, 0x33, 0x44, 0x55, 0x66, 0x77];
    let input = header_input("2", "1", "\n", &payload);
    let (words, width, height) = read_in_rpeg_data(input.clone()).unwrap();
    assert_eq!(width, 2);
    assert_eq!(height, 1);
    assert_eq!(words, vec![[0x00, 0x11, 0x22, 0x33], [0x44, 0x55, 0x66, 0x77]]);
    let reencoded = encode_rpeg_data(&words, width, height);
    assert_eq!(reencoded, input);
}

#[test]
fn newline_variants_decode_identically() {
    let payload = [0xAA, 0xBB, 0xCC, 0xDD];
    let lf = read_in_rpeg_data(header_input("640", "480", "\n", &payload)).unwrap();
    let crlf = read_in_rpeg_data(header_input("640", "480", "\r\n", &payload)).unwrap();
    let cr = read_in_rpeg_data(header_input("640", "480", "\r", &payload)).unwrap();
    assert_eq!(lf, crlf);
    assert_eq!(lf, cr);
    assert_eq!(lf.1, 640);
    assert_eq!(lf.2, 480);
}

#[test]
fn mixed_newlines_also_decode() {
    let mut bytes = Vec::new();
    bytes.extend_from_slice(b"Compressed image format 2\r\n");
    bytes.extend_from_slice(b"3 7\r");
    bytes.extend_from_slice(&[1, 2, 3, 4]);
    let (words, width, height) = read_in_rpeg_data(bytes).unwrap();
    assert_eq!((words, width, height), (vec![[1, 2, 3, 4]], 3, 7));
}

#[test]
fn misaligned_payloads_are_rejected() {
    for extra in 1..4usize {
        let payload: Vec<u8> = (0..(4 + extra)).map(|i| i as u8).collect();
        let err = read_in_rpeg_data(header_input("1", "1", "\n", &payload)).unwrap_err();
        assert_eq!(err, RpegError::MisalignedPayload { length: 4 + extra });
    }
}

#[test]
fn zero_dimension_field_parses_to_zero() {
    let (words, width, height) = read_in_rpeg_data(header_input("0", "0", "\n", &[])).unwrap();
    assert_eq!((words, width, height), (vec![], 0, 0));
}

#[test]
fn max_u32_dimension_field_parses() {
    let (_, width, height) =
        read_in_rpeg_data(header_input("4294967295", "1", "\n", &[])).unwrap();
    assert_eq!(width, 4294967295);
    assert_eq!(height, 1);
}

#[test]
fn dimension_field_past_u32_overflows() {
    let err = read_in_rpeg_data(header_input("4294967296", "1", "\n", &[])).unwrap_err();
    assert_eq!(err, RpegError::IntegerOverflow);
    let err = read_in_rpeg_data(header_input("1", "99999999999", "\n", &[])).unwrap_err();
    assert_eq!(err, RpegError::IntegerOverflow);
}

#[test]
fn leading_zeros_are_accepted() {
    let (_, width, height) = read_in_rpeg_data(header_input("007", "010", "\n", &[])).unwrap();
    assert_eq!((width, height), (7, 10));
}

#[test]
fn wrong_format_digit_fails_at_the_differing_byte() {
    let mut wrong = b"Compressed image format 1\n2 1\n".to_vec();
    wrong.extend_from_slice(&[0, 0, 0, 0]);
    let err = read_in_rpeg_data(wrong).unwrap_err();
    assert_eq!(err, RpegError::UnexpectedByte { expected: b'2', found: b'1' });
}

#[test]
fn literal_mismatch_reports_first_differing_byte() {
    let err = read_in_rpeg_data(b"Xompressed image format 2\n1 1\n".to_vec()).unwrap_err();
    assert_eq!(err, RpegError::UnexpectedByte { expected: b'C', found: b'X' });
}

#[test]
fn truncated_literal_is_reported() {
    let err = read_in_rpeg_data(b"Compressed ima".to_vec()).unwrap_err();
    assert_eq!(err, RpegError::TruncatedInput);
}

#[test]
fn missing_newline_after_tag_is_malformed() {
    let err = read_in_rpeg_data(b"Compressed image format 2x1 1\n".to_vec()).unwrap_err();
    assert_eq!(err, RpegError::MalformedNewline);
    let err = read_in_rpeg_data(b"Compressed image format 2".to_vec()).unwrap_err();
    assert_eq!(err, RpegError::MalformedNewline);
}

#[test]
fn missing_dimension_digit_is_reported() {
    let err = read_in_rpeg_data(b"Compressed image format 2\nx 1\n".to_vec()).unwrap_err();
    assert_eq!(err, RpegError::ExpectedNumber);
    let err = read_in_rpeg_data(b"Compressed image format 2\n".to_vec()).unwrap_err();
    assert_eq!(err, RpegError::ExpectedNumber);
}

#[test]
fn missing_space_between_dimensions_is_reported() {
    let err = read_in_rpeg_data(b"Compressed image format 2\n2,1\n".to_vec()).unwrap_err();
    assert_eq!(err, RpegError::UnexpectedByte { expected: b' ', found: b',' });
}

#[test]
fn encode_produces_exact_bytes() {
    let words = vec![[0x00, 0x11, 0x22, 0x33], [0x44, 0x55, 0x66, 0x77]];
    let bytes = encode_rpeg_data(&words, 2, 1);
    let mut expected = b"Compressed image format 2\n2 1\n".to_vec();
    expected.extend_from_slice(&[0x00, 0x11, 0x22, 0x33, 0x44, 0x55, 0x66, 0x77]);
    assert_eq!(bytes, expected);
}

#[test]
fn encode_accepts_any_dimension_word_combination() {
    let bytes = encode_rpeg_data(&[], 4294967295, 0);
    assert_eq!(bytes, b"Compressed image format 2\n4294967295 0\n".to_vec());
}

#[test]
fn round_trip_various_values() {
    let cases: Vec<(Vec<[u8; 4]>, u32, u32)> = vec![
        (vec![], 0, 0),
        (vec![[0xFF, 0x00, 0xFF, 0x00]], 1, 1),
        (vec![[1, 2, 3, 4], [5, 6, 7, 8], [9, 10, 11, 12]], 4294967295, 4294967295),
    ];
    for (words, width, height) in cases {
        let encoded = encode_rpeg_data(&words, width, height);
        let (dwords, dwidth, dheight) = read_in_rpeg_data(encoded).unwrap();
        assert_eq!(dwords, words);
        assert_eq!(dwidth, width);
        assert_eq!(dheight, height);
    }
}

#[test]
fn debug_format_matches_documented_form() {
    let words = vec![[0x00, 0x11, 0x22, 0x33], [0x44, 0x55, 0x66, 0x77]];
    let bytes = debug_format_rpeg_data(&words, 2, 1);
    assert_eq!(
        String::from_utf8(bytes).unwrap(),
        "Compressed image format 2 [DEBUG]\n2 1\n00 11 22 33 44 55 66 77"
    );
}

#[test]
fn debug_format_of_no_words_has_no_hex_body() {
    let bytes = debug_format_rpeg_data(&[], 12, 34);
    assert_eq!(String::from_utf8(bytes).unwrap(), "Compressed image format 2 [DEBUG]\n12 34\n");
}

#[test]
fn debug_format_uses_uppercase_hex() {
    let bytes = debug_format_rpeg_data(&[[0x0A, 0xBC, 0xDE, 0xF0]], 1, 1);
    assert_eq!(
        String::from_utf8(bytes).unwrap(),
        "Compressed image format 2 [DEBUG]\n1 1\n0A BC DE F0"
    );
}

#[test]
fn group_words_partitions_in_order() {
    let words = group_words(vec![1, 2, 3, 4, 5, 6, 7, 8]).unwrap();
    assert_eq!(words, vec![[1, 2, 3, 4], [5, 6, 7, 8]]);
    assert_eq!(group_words(vec![]).unwrap(), Vec::<[u8; 4]>::new());
}

#[test]
fn group_words_rejects_misaligned_buffers() {
    assert_eq!(
        group_words(vec![1, 2, 3, 4, 5]).unwrap_err(),
        RpegError::MisalignedPayload { length: 5 }
    );
}

#[test]
fn byte_cursor_peeks_without_consuming() {
    let mut cursor = ByteCursor::new(vec![10, 20, 30]);
    assert_eq!(cursor.peek(), Some(10));
    assert_eq!(cursor.peek(), Some(10));
    assert_eq!(cursor.advance(), Some(10));
    assert_eq!(cursor.peek(), Some(20));
    assert_eq!(cursor.advance(), Some(20));
    assert_eq!(cursor.advance(), Some(30));
    assert_eq!(cursor.peek(), None);
    assert_eq!(cursor.advance(), None);
}

#[test]
fn byte_cursor_take_rest_drains_what_is_left() {
    let mut cursor = ByteCursor::new(vec![1, 2, 3, 4]);
    cursor.advance();
    assert_eq!(cursor.take_rest(), vec![2, 3, 4]);
    assert_eq!(cursor.peek(), None);
    assert_eq!(cursor.take_rest(), Vec::<u8>::new());
}
