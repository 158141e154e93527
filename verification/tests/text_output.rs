use chibidec::dot::escape_dot_label;
use chibidec::text::{dec_string, hex_string, push_dec_digits, push_hex_digits};

#[test]
fn hex_string_of_zero_has_one_digit() {
    assert_eq!(hex_string(0), "0x0");
}

#[test]
fn hex_string_matches_alternate_hex_format() {
    for n in [1u64, 9, 10, 15, 16, 255, 0x100000460, u64::MAX] {
        assert_eq!(hex_string(n), format!("{:#x}", n));
    }
}

#[test]
fn dec_string_matches_display() {
    for n in [0u64, 7, 10, 12345, 4294967295, u64::MAX] {
        assert_eq!(dec_string(n), n.to_string());
    }
}

#[test]
fn push_digits_append_to_existing_text() {
    let mut s = String::from("v=");
    push_hex_digits(&mut s, 0xbeef);
    assert_eq!(s, "v=beef");
    let mut d = String::from("n=");
    push_dec_digits(&mut d, 907);
    assert_eq!(d, "n=907");
}

#[test]
fn escape_dot_label_escapes_quotes_backslashes_and_lines() {
    assert_eq!(escape_dot_label("a\"b\\c\nd"), "a\\\"b\\\\c\\ld\\l");
}

#[test]
fn escape_dot_label_of_empty_text_is_one_line_end() {
    assert_eq!(escape_dot_label(""), "\\l");
}

#[test]
fn escape_dot_label_keeps_plain_text() {
    assert_eq!(escape_dot_label("block0 _main:"), "block0 _main:\\l");
}
