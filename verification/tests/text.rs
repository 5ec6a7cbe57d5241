//! Whitespace as `char::is_whitespace` reports it, and trimming.

use oce_cxf::text::{is_white, trim};

#[test]
fn whitespace_agrees_with_the_standard_library_on_every_code_point() {
    for code in 0u32..=0x10FFFF {
        if let Some(c) = char::from_u32(code) {
            assert_eq!(is_white(c), c.is_whitespace(), "U+{code:04X}");
        }
    }
}

#[test]
fn trim_drops_unicode_whitespace_at_both_ends_only() {
    assert_eq!(trim("\u{3000} a b\u{2029}\t"), "a b");
    assert_eq!(trim("\u{200b}x\u{200b}"), "\u{200b}x\u{200b}");
    assert_eq!(trim(" \n "), "");
}
