use rustis::text::{
    chars_are, find_char, format_ipv4, format_ipv6, http_url, parse_usize, split_chars, trim_chars,
};

fn cs(x: &str) -> Vec<char> {
    x.chars().collect()
}

#[test]
fn text_parse_usize_cases() {
    assert_eq!(parse_usize(&cs("0")), Some(0));
    assert_eq!(parse_usize(&cs("8080")), Some(8080));
    assert_eq!(parse_usize(&cs("+42")), Some(42));
    assert_eq!(parse_usize(&cs("")), None);
    assert_eq!(parse_usize(&cs("+")), None);
    assert_eq!(parse_usize(&cs("-1")), None);
    assert_eq!(parse_usize(&cs("12a")), None);
    assert_eq!(parse_usize(&cs(" 1")), None);
    assert_eq!(parse_usize(&cs("18446744073709551615")), Some(usize::MAX));
    assert_eq!(parse_usize(&cs("18446744073709551616")), None);
    assert_eq!(parse_usize(&cs("99999999999999999999999")), None);
}

#[test]
fn text_trim_and_split() {
    assert_eq!(trim_chars(&cs("  a b \t\n")), cs("a b"));
    assert_eq!(trim_chars(&cs("   ")), cs(""));
    assert_eq!(trim_chars(&cs("\u{3000}x\u{a0}")), cs("x"));
    let parts: Vec<String> = split_chars(&cs("a,,b,"), ',').iter().map(|p| p.iter().collect()).collect();
    assert_eq!(parts, vec!["a", "", "b", ""]);
    let one: Vec<String> = split_chars(&cs(""), ',').iter().map(|p| p.iter().collect()).collect();
    assert_eq!(one, vec![""]);
    assert_eq!(find_char(&cs("a=b=c"), '='), Some(1));
    assert_eq!(find_char(&cs("abc"), '='), None);
    assert!(chars_are(&cs("main"), "main"));
    assert!(!chars_are(&cs("mai"), "main"));
}

#[test]
fn text_urls_and_addresses() {
    assert_eq!(http_url("127.0.0.1", 8080), "http://127.0.0.1:8080");
    assert_eq!(http_url("[::1]", 65535), "http://[::1]:65535");
    assert_eq!(format_ipv4(&[192, 168, 0, 10]), "192.168.0.10");
    assert_eq!(format_ipv4(&[0, 0, 0, 0]), "0.0.0.0");
    assert_eq!(format_ipv6(&[0xfe80, 0, 0, 0, 0x1, 0xabcd, 0x10, 0xffff]), "[fe80:0:0:0:1:abcd:10:ffff]");
}

#[test]
fn text_decimal_round_trip() {
    for n in [0u64, 7, 10, 99, 65535, 1234567890, u64::MAX] {
        let mut out = Vec::new();
        rustis::text::push_numeral(&mut out, n, 10);
        let expected: Vec<char> = n.to_string().chars().collect();
        assert_eq!(out, expected);
        assert_eq!(parse_usize(&out), Some(n as usize));
    }
    let mut hex = Vec::new();
    rustis::text::push_numeral(&mut hex, 0xbeef, 16);
    assert_eq!(hex, cs("beef"));
}
