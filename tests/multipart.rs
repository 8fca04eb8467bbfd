use gmail::multipart::{multipart_parse, MultipartError};
use gmail::text::{parse_decimal, trim_bytes, lower_bytes};

#[test]
fn parses_two_parts_with_leading_line_break() {
    let data = b"\r\n--XX\r\nA: 1\r\nB:  two \r\n\r\nbody one\r\n--XX\r\nC:3\r\n\r\nb2\r\n--XX--\r\n";
    let mp = multipart_parse(data, b"XX").unwrap();
    assert_eq!(mp.parts.len(), 2);
    assert_eq!(mp.parts[0].headers, vec![(b"a".to_vec(), b"1".to_vec()), (b"b".to_vec(), b"two".to_vec())]);
    assert_eq!(mp.parts[0].body, b"body one".to_vec());
    assert_eq!(mp.parts[1].header(b"c").unwrap(), &b"3".to_vec());
    assert_eq!(mp.parts[1].body, b"b2".to_vec());
}

#[test]
fn later_header_overrides_earlier() {
    let data = b"--X\r\nName: a\r\nNAME: b\r\n\r\nz\r\n--X--\r\n";
    let mp = multipart_parse(data, b"X").unwrap();
    assert_eq!(mp.parts[0].header(b"name").unwrap(), &b"b".to_vec());
    assert!(mp.parts[0].header(b"other").is_none());
}

#[test]
fn part_body_may_be_empty() {
    let mp = multipart_parse(b"--B\r\nContent-ID: x\r\n\r\n\r\n--B--\r\n", b"B").unwrap();
    assert_eq!(mp.parts.len(), 1);
    assert_eq!(mp.parts[0].headers, vec![(b"content-id".to_vec(), b"x".to_vec())]);
    assert_eq!(mp.parts[0].body, Vec::<u8>::new());
}

#[test]
fn closing_delimiter_may_end_the_data() {
    let mp = multipart_parse(b"--B\r\nA: 1\r\n\r\nbody\r\n--B--", b"B").unwrap();
    assert_eq!(mp.parts.len(), 1);
    assert_eq!(mp.parts[0].body, b"body".to_vec());
    assert_eq!(
        multipart_parse(b"--B\r\nA: 1\r\n\r\nbody\r\n--B-", b"B").unwrap_err(),
        MultipartError::ExpectedPartOrEnd { offset: 22 }
    );
}

#[test]
fn framing_errors() {
    assert_eq!(
        multipart_parse(b"", b"X").unwrap_err(),
        MultipartError::UnexpectedEnd { offset: 0, part_len: 0 }
    );
    assert_eq!(multipart_parse(b"garbage", b"X").unwrap_err(), MultipartError::MissingOpening);
    assert_eq!(
        multipart_parse(b"--X\r\nA: 1\r\n\r\nbody", b"X").unwrap_err(),
        MultipartError::UnexpectedEnd { offset: 17, part_len: 12 }
    );
    assert_eq!(
        multipart_parse(b"--X\r\nA: 1\r\n\r\nb\r\n--Xzz", b"X").unwrap_err(),
        MultipartError::ExpectedPartOrEnd { offset: 19 }
    );
}

#[test]
fn header_errors() {
    assert_eq!(
        multipart_parse(b"--X\r\nA: \xc3\xa9\r\n\r\nb\r\n--X--\r\n", b"X").unwrap_err(),
        MultipartError::NotSevenBit { part: 0, offset: 3 }
    );
    assert_eq!(
        multipart_parse(b"--X\r\nA: 1\nB: 2\r\n\r\nb\r\n--X--\r\n", b"X").unwrap_err(),
        MultipartError::MalformedHeader { part: 0, offset: 4 }
    );
    assert_eq!(
        multipart_parse(b"--X\r\nA: 1\r\n--X--\r\n", b"X").unwrap_err(),
        MultipartError::PartTruncated { part: 0 }
    );
    assert_eq!(
        multipart_parse(b"--X\r\nA: 1\r\n\r\nb\r\n--X\r\nno colon\r\n\r\nb\r\n--X--\r\n", b"X").unwrap_err(),
        MultipartError::MissingColon { part: 1 }
    );
}

#[test]
fn decimal_reading() {
    assert_eq!(parse_decimal(b"42"), Some(42));
    assert_eq!(parse_decimal(b"+7"), Some(7));
    assert_eq!(parse_decimal(b""), None);
    assert_eq!(parse_decimal(b"+"), None);
    assert_eq!(parse_decimal(b"-1"), None);
    assert_eq!(parse_decimal(b"1a"), None);
    assert_eq!(parse_decimal(b"18446744073709551615"), Some(usize::MAX));
    assert_eq!(parse_decimal(b"18446744073709551616"), None);
}

#[test]
fn trimming_and_lowering() {
    assert_eq!(trim_bytes(b" \t a b \x0b"), b"a b".to_vec());
    assert_eq!(trim_bytes(b"   "), Vec::<u8>::new());
    assert_eq!(lower_bytes(b"Content-ID"), b"content-id".to_vec());
}
