use phones_fyi::text::{
    chars_of, str_concat, replace_char_in, str_eq, str_lt, str_prefix_before, to_ascii_lowercase,
    u32_to_decimal, u32_to_hex_padded2,
};

#[test]
fn decimal_notation() {
    assert_eq!(u32_to_decimal(0), "0");
    assert_eq!(u32_to_decimal(7), "7");
    assert_eq!(u32_to_decimal(10), "10");
    assert_eq!(u32_to_decimal(3065), "3065");
    assert_eq!(u32_to_decimal(u32::MAX), "4294967295");
}

#[test]
fn hex_notation_is_two_digits_at_least() {
    assert_eq!(u32_to_hex_padded2(0), "00");
    assert_eq!(u32_to_hex_padded2(10), "0a");
    assert_eq!(u32_to_hex_padded2(255), "ff");
    assert_eq!(u32_to_hex_padded2(5381), "1505");
    assert_eq!(u32_to_hex_padded2(u32::MAX), format!("{:02x}", u32::MAX));
}

#[test]
fn prefix_before_pattern() {
    assert_eq!(str_prefix_before("Galaxy S21 (SM-G991B)", " ("), "Galaxy S21");
    assert_eq!(str_prefix_before("Galaxy S21", " ("), "Galaxy S21");
    assert_eq!(str_prefix_before("a (b) (c)", " ("), "a");
    assert_eq!(str_prefix_before(" (x", " ("), "");
    assert_eq!(str_prefix_before("", " ("), "");
}

#[test]
fn lowercase_forms() {
    assert_eq!(to_ascii_lowercase("iPhone 15 Pro Max"), "iphone 15 pro max");
    assert_eq!(to_ascii_lowercase("ÄBC"), "Äbc");
    assert_eq!(replace_char_in("15 pro max", ' ', '-'), "15-pro-max");
}

#[test]
fn string_order_and_equality() {
    assert!(str_lt("2023-09-22", "2024-01-01"));
    assert!(!str_lt("2024-01-01", "2023-09-22"));
    assert!(!str_lt("2024", "2024"));
    assert!(str_lt("2024", "2024-01"));
    assert!(str_lt("", "a"));
    assert!(str_eq("abc", "abc"));
    assert!(!str_eq("abc", "abd"));
    assert_eq!(str_concat("ab", "cd"), "abcd");
    assert_eq!(chars_of("héllo"), vec!['h', 'é', 'l', 'l', 'o']);
}
