use excel_to_parquet::hw::drive_root;
use excel_to_parquet::text::{
    ascii_lower, dec_i64, dec_pad_u64, dec_u64, nonempty_trimmed, str_eq, trim,
};

#[test]
fn decimal_rendering() {
    assert_eq!(dec_u64(0), "0");
    assert_eq!(dec_u64(7), "7");
    assert_eq!(dec_u64(1234567890), "1234567890");
    assert_eq!(dec_u64(u64::MAX), format!("{}", u64::MAX));
}

#[test]
fn signed_decimal_rendering() {
    assert_eq!(dec_i64(0), "0");
    assert_eq!(dec_i64(-1), "-1");
    assert_eq!(dec_i64(i64::MIN), format!("{}", i64::MIN));
    assert_eq!(dec_i64(i64::MAX), format!("{}", i64::MAX));
}

#[test]
fn zero_padding() {
    assert_eq!(dec_pad_u64(5, 2), "05");
    assert_eq!(dec_pad_u64(55, 2), "55");
    assert_eq!(dec_pad_u64(555, 2), "555");
    assert_eq!(dec_pad_u64(0, 4), "0000");
}

#[test]
fn trimming() {
    assert_eq!(trim("  x  "), "x");
    assert_eq!(trim("\t a b \r\n"), "a b");
    assert_eq!(trim(""), "");
    assert_eq!(trim(" \t "), "");
}

#[test]
fn optional_trimmed_read() {
    assert_eq!(nonempty_trimmed(" name.parquet \n").as_deref(), Some("name.parquet"));
    assert_eq!(nonempty_trimmed("   "), None);
    assert_eq!(nonempty_trimmed(""), None);
}

#[test]
fn ascii_lowering() {
    assert_eq!(ascii_lower("MuLTi"), "multi");
    assert_eq!(ascii_lower("abc-7"), "abc-7");
}

#[test]
fn string_equality_is_by_content() {
    assert!(str_eq("abc", "abc"));
    assert!(!str_eq("abc", "abd"));
    assert!(!str_eq("abc", "ab"));
    assert!(str_eq("", ""));
}

#[test]
fn drive_roots() {
    assert_eq!(drive_root("c:\\data\\x").as_deref(), Some("C:\\"));
    assert_eq!(drive_root("D:/data").as_deref(), Some("D:\\"));
    assert_eq!(drive_root("/home/x"), None);
    assert_eq!(drive_root("ab"), None);
}
