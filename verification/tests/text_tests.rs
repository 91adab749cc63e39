use backend::digest::{checksum, project_scope};
use backend::ranking::terms;
use backend::text::{
    is_blank, is_white_space_char, render_decimal, render_signed, str_eq, take_chars, text_less,
    text_len,
};

#[test]
fn blank_text_is_only_white_space() {
    assert!(is_blank(""));
    assert!(is_blank(" \t\n\u{00A0}\u{3000}"));
    assert!(!is_blank("  a "));
}

#[test]
fn take_chars_counts_characters_not_bytes() {
    assert_eq!(take_chars("héllo", 2), "hé");
    assert_eq!(take_chars("abc", 10), "abc");
    assert_eq!(take_chars("abc", 0), "");
}

#[test]
fn text_len_counts_utf8_bytes() {
    assert_eq!(text_len("abc"), 3);
    assert_eq!(text_len("é"), 2);
    assert_eq!(text_len("日本"), 6);
}

#[test]
fn str_eq_compares_texts() {
    assert!(str_eq("ollama", "ollama"));
    assert!(!str_eq("ollama", "Ollama"));
    assert!(!str_eq("a", "ab"));
}

#[test]
fn terms_are_lowercased() {
    assert_eq!(terms("ÉCOLE"), vec!["école".to_string()]);
}

#[test]
fn decimal_rendering() {
    assert_eq!(render_decimal(0), "0");
    assert_eq!(render_decimal(7), "7");
    assert_eq!(render_decimal(1024), "1024");
    assert_eq!(render_decimal(u64::MAX), u64::MAX.to_string());
}

#[test]
fn checksum_is_lowercase_sha256_hex() {
    assert_eq!(checksum("abc"), "ba7816bf8f01cfea414140de5dae2223b00361a396177a9cb410ff61f20015ad");
    assert_eq!(checksum(""), "e3b0c44298fc1c149afbf4c8996fb92427ae41e4649b934ca495991b7852b855");
}

#[test]
fn project_scope_hashes_the_root_path() {
    assert_eq!(
        project_scope("/home/user/project"),
        "9dad1e4e08b0b11cbcd860257e8bdfa6b8e5f01790e10a6a0b1f4870c13e686b"
    );
}

#[test]
fn signed_decimal_rendering() {
    assert_eq!(render_signed(0), "0");
    assert_eq!(render_signed(42), "42");
    assert_eq!(render_signed(-7), "-7");
    assert_eq!(render_signed(i64::MIN), i64::MIN.to_string());
    assert_eq!(render_signed(i64::MAX), i64::MAX.to_string());
}

#[test]
fn white_space_matches_char_is_whitespace() {
    for code in 0u32..=0x10FFFF {
        if let Some(c) = char::from_u32(code) {
            assert_eq!(is_white_space_char(c), c.is_whitespace(), "code point {code:#x}");
        }
    }
}

#[test]
fn text_order_is_that_of_str() {
    let samples = ["", "a", "ab", "abc", "b", "Z", "é", "école", "zone", "日本", "\u{10FFFF}"];
    for a in samples {
        for b in samples {
            assert_eq!(text_less(a, b), a < b, "{a:?} < {b:?}");
        }
    }
}
