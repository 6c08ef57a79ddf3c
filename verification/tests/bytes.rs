use rinha::bytes::{
    ascii_bytes, bytes_equal, find_first_byte, find_literal, literal_at, push_i16, push_u32,
    read_i16, read_u32,
};

#[test]
fn the_first_occurrence_is_found() {
    assert_eq!(find_literal(b"abcabcab", "cab"), Some(2));
    assert_eq!(find_literal(b"abcabcab", "cac"), None);
    assert_eq!(find_literal(b"abc", ""), Some(0));
    assert_eq!(find_literal(b"", "a"), None);
    assert_eq!(find_first_byte(b"abcabc", b'c'), Some(2));
    assert_eq!(find_first_byte(b"abcabc", b'd'), None);
}

#[test]
fn literals_are_compared_in_place() {
    assert!(literal_at(b"say true", 4, "true"));
    assert!(!literal_at(b"say tru", 4, "true"));
    assert!(literal_at(b"x", 1, ""));
    assert!(bytes_equal(b"ab", b"ab"));
    assert!(!bytes_equal(b"ab", b"abc"));
    assert_eq!(ascii_bytes("a\r\n"), b"a\r\n");
}

#[test]
fn integers_are_little_endian() {
    let mut out = Vec::new();
    push_u32(&mut out, 0x5249_4E48);
    push_i16(&mut out, -2);
    push_i16(&mut out, i16::MAX);
    assert_eq!(out, vec![0x48, 0x4e, 0x49, 0x52, 0xfe, 0xff, 0xff, 0x7f]);
    assert_eq!(read_u32(&out, 0), 0x5249_4E48);
    assert_eq!(read_i16(&out, 4), -2);
    assert_eq!(read_i16(&out, 6), i16::MAX);
}
