use dns_resolver::text::{decimal_i64, decimal_u64, parse_u16, same_text, strip_trailing_dot};

#[test]
fn decimals() {
    assert_eq!(decimal_u64(0), "0");
    assert_eq!(decimal_u64(1209600), "1209600");
    assert_eq!(decimal_u64(u64::MAX), u64::MAX.to_string());
    assert_eq!(decimal_i64(-42), "-42");
    assert_eq!(decimal_i64(i64::MIN), i64::MIN.to_string());
}

#[test]
fn u16_parsing_follows_std() {
    for s in ["0", "65535", "65536", "+12", "-1", "+", "", "1a", "007", " 1", "99999999999"] {
        assert_eq!(parse_u16(s), s.parse::<u16>().ok(), "{s:?}");
    }
}

#[test]
fn texts() {
    assert!(same_text("abc", "abc"));
    assert!(!same_text("abc", "abd"));
    assert!(!same_text("ab", "abc"));
    assert_eq!(strip_trailing_dot("a.b."), "a.b");
    assert_eq!(strip_trailing_dot("a.b"), "a.b");
    assert_eq!(strip_trailing_dot("."), "");
}
