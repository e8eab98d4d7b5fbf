use auto_water::text::{append_bytes, format_u32, format_u64, parse_param, parse_u64};

#[test]
fn lib_parse_param_basic() {
    assert_eq!(
        parse_param("interval=3600&duration=10", "interval"),
        Some("3600")
    );
    assert_eq!(
        parse_param("interval=3600&duration=10", "duration"),
        Some("10")
    );
}

#[test]
fn lib_parse_param_missing() {
    assert_eq!(parse_param("interval=3600", "duration"), None);
}

#[test]
fn parse_param_empty() {
    assert_eq!(parse_param("", "interval"), None);
}

#[test]
fn parse_param_prefix_no_match() {
    assert_eq!(parse_param("intervals=3600", "interval"), None);
}

#[test]
fn parse_param_single() {
    assert_eq!(parse_param("key=val", "key"), Some("val"));
}

#[test]
fn parse_param_empty_value() {
    assert_eq!(parse_param("key=", "key"), Some(""));
}

#[test]
fn parse_u64_zero() {
    assert_eq!(parse_u64("0"), Ok(0));
}

#[test]
fn parse_u64_normal() {
    assert_eq!(parse_u64("3600"), Ok(3600));
    assert_eq!(parse_u64("172800"), Ok(172800));
}

#[test]
fn parse_u64_max() {
    assert_eq!(parse_u64("18446744073709551615"), Ok(u64::MAX));
}

#[test]
fn lib_parse_u64_overflow() {
    assert_eq!(parse_u64("18446744073709551616"), Err(()));
}

#[test]
fn parse_u64_non_digit() {
    assert_eq!(parse_u64("abc"), Err(()));
    assert_eq!(parse_u64("12a34"), Err(()));
}

#[test]
fn parse_u64_empty() {
    assert_eq!(parse_u64(""), Ok(0));
}

#[test]
fn format_u64_zero() {
    let mut buf = [0u8; 20];
    let n = format_u64(0, &mut buf);
    assert_eq!(&buf[..n], b"0");
}

#[test]
fn format_u64_normal() {
    let mut buf = [0u8; 20];
    let n = format_u64(172800, &mut buf);
    assert_eq!(&buf[..n], b"172800");
}

#[test]
fn format_u64_single_digit() {
    let mut buf = [0u8; 20];
    let n = format_u64(7, &mut buf);
    assert_eq!(&buf[..n], b"7");
}

#[test]
fn format_u64_max() {
    let mut buf = [0u8; 20];
    let n = format_u64(u64::MAX, &mut buf);
    assert_eq!(&buf[..n], b"18446744073709551615");
}

#[test]
fn format_u64_roundtrip() {
    let mut buf = [0u8; 20];
    for val in [0, 1, 9, 10, 99, 100, 12345, 172800, u64::MAX] {
        let n = format_u64(val, &mut buf);
        let s = core::str::from_utf8(&buf[..n]).unwrap();
        assert_eq!(s.parse::<u64>().unwrap(), val);
    }
}

#[test]
fn format_u32_zero() {
    let mut buf = [0u8; 10];
    assert_eq!(format_u32(0, &mut buf), b"0");
}

#[test]
fn format_u32_normal() {
    let mut buf = [0u8; 10];
    assert_eq!(format_u32(2048, &mut buf), b"2048");
}

#[test]
fn format_u32_max() {
    let mut buf = [0u8; 10];
    assert_eq!(format_u32(u32::MAX, &mut buf), b"4294967295");
}

#[test]
fn lib_append_bytes_basic() {
    let mut buf = [0u8; 20];
    let pos = append_bytes(&mut buf, 0, b"hello");
    assert_eq!(pos, 5);
    assert_eq!(&buf[..5], b"hello");
}

#[test]
fn append_bytes_chained() {
    let mut buf = [0u8; 20];
    let pos = append_bytes(&mut buf, 0, b"aaa");
    let pos = append_bytes(&mut buf, pos, b"bbb");
    assert_eq!(pos, 6);
    assert_eq!(&buf[..6], b"aaabbb");
}

#[test]
fn append_bytes_keeps_the_rest() {
    let mut buf = [9u8; 8];
    let pos = append_bytes(&mut buf, 2, b"ab");
    assert_eq!(pos, 4);
    assert_eq!(buf, [9, 9, b'a', b'b', 9, 9, 9, 9]);
}

#[test]
fn format_u64_leaves_tail_of_copy() {
    let mut buf = [b'x'; 20];
    let n = format_u64(123, &mut buf);
    assert_eq!(n, 3);
    assert_eq!(&buf[..3], b"123");
    assert_eq!(&buf[3..17], &[b'x'; 14][..]);
    assert_eq!(&buf[17..], b"123");
}

#[test]
fn format_u64_zero_touches_only_first_byte() {
    let mut buf = [b'x'; 20];
    assert_eq!(format_u64(0, &mut buf), 1);
    assert_eq!(buf[0], b'0');
    assert!(buf[1..].iter().all(|&b| b == b'x'));
}

#[test]
fn format_u32_writes_back_of_buffer() {
    let mut buf = [b'x'; 10];
    let text = format_u32(407, &mut buf).to_vec();
    assert_eq!(text, b"407");
    assert_eq!(&buf, b"xxxxxxx407");
}

#[test]
fn format_u32_zero_leaves_buffer() {
    let mut buf = [b'x'; 10];
    assert_eq!(format_u32(0, &mut buf), b"0");
    assert_eq!(&buf, b"xxxxxxxxxx");
}

#[test]
fn parse_u64_leading_zeros_and_plus() {
    assert_eq!(parse_u64("007"), Ok(7));
    assert_eq!(parse_u64("+7"), Err(()));
    assert_eq!(parse_u64(" 7"), Err(()));
}

#[test]
fn parse_param_first_match_wins() {
    assert_eq!(parse_param("a=1&a=2", "a"), Some("1"));
    assert_eq!(parse_param("&&a=1", "a"), Some("1"));
    assert_eq!(parse_param("a", "a"), None);
    assert_eq!(parse_param("=x", ""), Some("x"));
}

#[test]
fn parse_param_non_ascii_value() {
    assert_eq!(parse_param("name=grüne&x=1", "name"), Some("grüne"));
    assert_eq!(parse_param("é=1&k=ü", "k"), Some("ü"));
}
