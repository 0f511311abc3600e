use bmrc::format::{Header, FLAG_BWT, FLAG_STORED, HEADER_LEN, MAGIC};
use bmrc::BmrcError;

#[test]
fn roundtrip_header() {
    let h = Header {
        level: 7,
        flags: FLAG_STORED,
        original_len: 123_456_789,
    };
    let mut buf = Vec::new();
    h.write(&mut buf);
    buf.extend_from_slice(b"payload-bytes");

    let (parsed, rest) = Header::read(&buf).unwrap();
    assert_eq!(parsed, h);
    assert_eq!(rest, b"payload-bytes");
}

#[test]
fn header_layout_is_magic_level_flags_length() {
    let h = Header {
        level: 3,
        flags: FLAG_BWT,
        original_len: 0x0102_0304_0506_0708,
    };
    let mut buf = vec![0xAA];
    h.write(&mut buf);
    assert_eq!(buf.len(), 1 + HEADER_LEN);
    assert_eq!(&buf[1..5], &MAGIC);
    assert_eq!(&buf[1..5], b"BMR1");
    assert_eq!(buf[5], 3);
    assert_eq!(buf[6], FLAG_BWT);
    assert_eq!(&buf[7..15], &[8, 7, 6, 5, 4, 3, 2, 1]);
}

#[test]
fn header_read_errors() {
    assert_eq!(Header::read(b"BMR1").unwrap_err(), BmrcError::HeaderTooShort);
    assert_eq!(
        Header::read(b"BMR2\x01\x00\x00\x00\x00\x00\x00\x00\x00\x00").unwrap_err(),
        BmrcError::BadMagic
    );
    let (h, rest) = Header::read(b"BMR1\x05\x01\x03\x00\x00\x00\x00\x00\x00\x00xyz").unwrap();
    assert_eq!(h.level, 5);
    assert_eq!(h.flags, FLAG_STORED);
    assert_eq!(h.original_len, 3);
    assert_eq!(rest, b"xyz");
}

#[test]
fn error_messages() {
    assert_eq!(
        BmrcError::HeaderTooShort.message(),
        "input too short to contain a BMRC header"
    );
    assert_eq!(
        BmrcError::BadMagic.message(),
        "invalid BMRC magic bytes (not a .bmrc stream)"
    );
    assert_eq!(BmrcError::Truncated.message(), "truncated BMRC stream");
}
