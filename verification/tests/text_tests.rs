use g13_suite::text::{decimal_string, trimmed};

#[test]
fn decimals_and_trimming() {
    assert_eq!(decimal_string(0), "0");
    assert_eq!(decimal_string(10), "10");
    assert_eq!(decimal_string(u64::MAX), u64::MAX.to_string());
    assert_eq!(trimmed("\u{3000} a b \t\n"), "a b");
    assert_eq!(trimmed("   "), "");
}
