use lzss::{rewrite_header, Fileheader, HeaderError};

#[test]
fn parses_compressed_header() {
    let data = [0xA4, 7, 0, 0, 0, b'S', b'A', b'V', 0, 0x10, 0x01, 0, 0, 0xFF, 1, 2];
    let h = Fileheader::parse(&data).unwrap();
    assert!(h.compressed);
    assert_eq!(h.save_name, "SAV");
    assert_eq!(h.original_size, 0x110);
    assert_eq!(h.header_end, 13);
}

#[test]
fn parses_raw_header() {
    let data = [0x24, 7, 0, 0, 0, b'A', 0, 0xEE, 9, 9];
    let h = Fileheader::parse(&data).unwrap();
    assert!(!h.compressed);
    assert_eq!(h.save_name, "A");
    assert_eq!(h.original_size, 10);
    assert_eq!(h.header_end, 7);
}

#[test]
fn short_header_is_truncated() {
    assert_eq!(Fileheader::parse(&[0xA4, 0, 0]).unwrap_err(), HeaderError::Truncated);
    assert_eq!(Fileheader::parse(&[0x24, 0, 0, 0, 0, b'A', b'B']).unwrap_err(), HeaderError::Truncated);
    assert_eq!(Fileheader::parse(&[0xA4, 0, 0, 0, 0, b'A', 0, 1, 2]).unwrap_err(), HeaderError::Truncated);
    assert_eq!(Fileheader::parse(&[0x24, 0, 0, 0, 0, b'A', 0]).unwrap_err(), HeaderError::Truncated);
}

#[test]
fn invalid_name_is_rejected() {
    assert_eq!(Fileheader::parse(&[0x24, 0, 0, 0, 0, 0xFF, 0, 1]).unwrap_err(), HeaderError::InvalidName);
}

#[test]
fn rewrites_header_for_decompressed_file() {
    let prefix = [0xA4, 7, 0, 0, 0, b'S', 0, 0x10, 0, 0, 0];
    assert_eq!(rewrite_header(&prefix, true, 16), vec![0x24, 7, 0, 0, 0, b'S', 0]);
}

#[test]
fn rewrites_header_for_compressed_file() {
    let prefix = [0x24, 7, 0, 0, 0, b'S', 0];
    assert_eq!(
        rewrite_header(&prefix, false, 0x01020304),
        vec![0xA4, 7, 0, 0, 0, b'S', 0, 0x04, 0x03, 0x02, 0x01]
    );
}

#[test]
fn utf8_name_that_is_not_ascii_is_read() {
    let data = [0x24, 0, 0, 0, 0, 0xC3, 0xA9, 0, 0xEE, 1];
    let h = Fileheader::parse(&data).unwrap();
    assert_eq!(h.save_name, "\u{e9}");
    assert_eq!(h.header_end, 8);
}

#[test]
fn invalid_name_is_reported_before_a_short_size_field() {
    assert_eq!(Fileheader::parse(&[0xA4, 0, 0, 0, 0, 0xFF, 0]).unwrap_err(), HeaderError::InvalidName);
}

#[test]
fn reserved_bytes_do_not_change_the_header() {
    let a = Fileheader::parse(&[0xA4, 0, 0, 0, 0, b'N', 0, 5, 0, 0, 0, 9]).unwrap();
    let b = Fileheader::parse(&[0xA4, 9, 1, 2, 3, b'N', 0, 5, 0, 0, 0, 9]).unwrap();
    assert_eq!((a.compressed, a.original_size, a.save_name, a.header_end), (b.compressed, b.original_size, b.save_name, b.header_end));
}
