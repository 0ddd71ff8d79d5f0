use profile_store::text::{parse_i32, parse_u32, split_str, splitn_str, str_le, trim_end_of,
    u32_to_string, usize_to_string};

#[test]
fn u32_rendering() {
    assert_eq!(u32_to_string(0), "0");
    assert_eq!(u32_to_string(7), "7");
    assert_eq!(u32_to_string(40960), "40960");
    assert_eq!(u32_to_string(u32::MAX), "4294967295");
    assert_eq!(usize_to_string(123), "123");
}

#[test]
fn unsigned_parsing() {
    assert_eq!(parse_u32("0"), Some(0));
    assert_eq!(parse_u32("007"), Some(7));
    assert_eq!(parse_u32("4294967295"), Some(u32::MAX));
    assert_eq!(parse_u32("4294967296"), None);
    assert_eq!(parse_u32("99999999999999999999"), None);
    assert_eq!(parse_u32(""), None);
    assert_eq!(parse_u32("12a"), None);
    assert_eq!(parse_u32("-1"), None);
    assert_eq!(parse_u32(" 1"), None);
}

#[test]
fn signed_parsing() {
    assert_eq!(parse_i32("15"), Some(15));
    assert_eq!(parse_i32("-15"), Some(-15));
    assert_eq!(parse_i32("2147483647"), Some(i32::MAX));
    assert_eq!(parse_i32("2147483648"), None);
    assert_eq!(parse_i32("-2147483648"), Some(i32::MIN));
    assert_eq!(parse_i32("-2147483649"), None);
    assert_eq!(parse_i32("-"), None);
    assert_eq!(parse_i32(""), None);
    assert_eq!(parse_i32("1-2"), None);
}

#[test]
fn trimming() {
    assert_eq!(trim_end_of("abc \n"), "abc");
    assert_eq!(trim_end_of("abc"), "abc");
    assert_eq!(trim_end_of("  abc"), "  abc");
    assert_eq!(trim_end_of(" \t\r\n"), "");
    assert_eq!(trim_end_of(""), "");
}

#[test]
fn splitting_all() {
    assert_eq!(split_str("a-b-c", '-'), vec!["a", "b", "c"]);
    assert_eq!(split_str("a", '-'), vec!["a"]);
    assert_eq!(split_str("", '-'), vec![""]);
    assert_eq!(split_str("-a-", '-'), vec!["", "a", ""]);
}

#[test]
fn splitting_bounded() {
    assert_eq!(splitn_str("a,b,c,d,e,f", ',', 5), vec!["a", "b", "c", "d", "e,f"]);
    assert_eq!(splitn_str("a,b", ',', 5), vec!["a", "b"]);
    assert_eq!(splitn_str("a,b,c", ',', 1), vec!["a,b,c"]);
}

#[test]
fn lexicographic_order() {
    assert!(str_le("", "a"));
    assert!(str_le("a", "a"));
    assert!(str_le("a", "ab"));
    assert!(!str_le("ab", "a"));
    assert!(str_le("2024-10-1", "2024-9-1"));
    assert!(!str_le("2024-9-1", "2024-10-1"));
    assert!(str_le("Abc", "abc"));
}
