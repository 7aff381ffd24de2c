use calendar_fast::text::{
    char_is_whitespace, push_decimal, same_text, starts_with, strip_bom, strip_prefix,
    to_forward_slashes, trim,
};

#[test]
fn whitespace_is_what_unicode_calls_white_space() {
    let mut count = 0;
    for c in '\0'..=char::MAX {
        assert_eq!(char_is_whitespace(c), c.is_whitespace(), "U+{:04X}", c as u32);
        if char_is_whitespace(c) {
            count += 1;
        }
    }
    assert_eq!(count, 25);
}

#[test]
fn the_byte_order_mark_is_no_whitespace() {
    assert!(!char_is_whitespace('\u{feff}'));
    assert_eq!(trim("\u{feff} x "), "\u{feff} x");
}

#[test]
fn trim_drops_whitespace_at_both_ends_only() {
    assert_eq!(trim("  a b  "), "a b");
    assert_eq!(trim("\t////\r"), "////");
    assert_eq!(trim(""), "");
    assert_eq!(trim(" \t\u{a0}\u{3000}\n"), "");
    assert_eq!(trim("x"), "x");
    assert_eq!(trim("\u{2003}é\u{85}"), "é");
    assert_eq!(trim("a\u{2028}"), "a");
}

#[test]
fn trim_agrees_with_the_standard_library() {
    let sample = [
        "",
        " ",
        "a",
        " a",
        "a ",
        "  a  b  ",
        "\t\r\n x \u{b}\u{c}",
        "\u{1680}\u{2000}\u{200a}mid dle\u{202f}\u{205f}",
        "\u{200b}zero width\u{200b}",
        ":revdate: 2024-01-05   ",
        "日本語 ",
    ];
    for s in sample {
        assert_eq!(trim(s), s.trim(), "{:?}", s);
    }
}

#[test]
fn starts_with_compares_the_first_characters() {
    assert!(starts_with("include::chapter.adoc[]", "include::"));
    assert!(starts_with("include::", "include::"));
    assert!(!starts_with("include:", "include::"));
    assert!(!starts_with(" include::x", "include::"));
    assert!(!starts_with("Include::x", "include::"));
    assert!(starts_with("anything", ""));
    assert!(starts_with("", ""));
    assert!(!starts_with("", "x"));
    assert!(starts_with("éa", "é"));
    assert!(!starts_with("ea", "é"));
}

#[test]
fn strip_prefix_returns_what_follows() {
    assert_eq!(strip_prefix(":imagesdir: images", ":imagesdir: "), Some("images"));
    assert_eq!(strip_prefix(":imagesdir: ", ":imagesdir: "), Some(""));
    assert_eq!(strip_prefix(":imagesdir:", ":imagesdir: "), None);
    assert_eq!(strip_prefix("abc", ""), Some("abc"));
    assert_eq!(strip_prefix("日本語", "日本"), Some("語"));
    for (s, p) in [("abc", "ab"), ("abc", "abc"), ("abc", "abcd"), ("", "a"), ("ab", "b")] {
        assert_eq!(strip_prefix(s, p), s.strip_prefix(p));
    }
}

#[test]
fn same_text_is_equality() {
    assert!(same_text("////", "////"));
    assert!(!same_text("////", "///"));
    assert!(!same_text("///", "////"));
    assert!(!same_text("////", "///-"));
    assert!(same_text("", ""));
    assert!(!same_text("", " "));
    assert!(same_text("日本", "日本"));
}

#[test]
fn strip_bom_drops_one_mark_at_the_start() {
    assert_eq!(strip_bom("\u{feff}= Title"), "= Title");
    assert_eq!(strip_bom("= Title"), "= Title");
    assert_eq!(strip_bom("\u{feff}"), "");
    assert_eq!(strip_bom(""), "");
    assert_eq!(strip_bom("\u{feff}\u{feff}x"), "\u{feff}x");
    assert_eq!(strip_bom(" \u{feff}x"), " \u{feff}x");
    assert_eq!(strip_bom("x\u{feff}"), "x\u{feff}");
}

#[test]
fn the_mark_is_the_three_bytes_ef_bb_bf() {
    let line = String::from_utf8(vec![0xEF, 0xBB, 0xBF, b'H', b'i']).unwrap();
    assert_eq!(strip_bom(&line).as_bytes().to_vec(), vec![b'H', b'i']);
}

#[test]
fn backslashes_become_forward_slashes() {
    assert_eq!(to_forward_slashes("a\\b\\c"), "a/b/c");
    assert_eq!(to_forward_slashes("\\"), "/");
    assert_eq!(to_forward_slashes("\\\\server\\share"), "//server/share");
    assert_eq!(to_forward_slashes("a/b"), "a/b");
    assert_eq!(to_forward_slashes(""), "");
    assert_eq!(to_forward_slashes("é\\ü\\"), "é/ü/");
    for s in ["", "\\", "a\\", "\\a", "a\\\\b", "no slash", "mixed/and\\both"] {
        assert_eq!(to_forward_slashes(s), s.replace('\\', "/"));
    }
}

#[test]
fn numbers_are_written_in_decimal() {
    for n in [0u128, 1, 9, 10, 11, 99, 100, 101, 12345, 18446744073709551616, u128::MAX] {
        let mut out = String::from("line ");
        push_decimal(&mut out, n);
        assert_eq!(out, format!("line {}", n));
    }
}

fn short_texts(alphabet: &[char], upto: usize) -> Vec<String> {
    let mut all = vec![String::new()];
    let mut last = vec![String::new()];
    for _ in 0..upto {
        let mut next = Vec::new();
        for p in &last {
            for c in alphabet {
                let mut q = p.clone();
                q.push(*c);
                next.push(q);
            }
        }
        all.extend(next.iter().cloned());
        last = next;
    }
    all
}

#[test]
fn trim_agrees_with_the_standard_library_on_every_short_text() {
    for s in short_texts(&[' ', 'a', '\t', '\u{a0}', '\u{feff}', '\u{3000}'], 5) {
        assert_eq!(trim(&s), s.trim(), "{:?}", s);
    }
}

#[test]
fn prefixes_agree_with_the_standard_library_on_every_short_text() {
    let texts = short_texts(&['a', ':', 'é'], 4);
    for s in &texts {
        for p in &texts {
            assert_eq!(starts_with(s, p), s.starts_with(p.as_str()), "{:?} {:?}", s, p);
            assert_eq!(strip_prefix(s, p), s.strip_prefix(p.as_str()), "{:?} {:?}", s, p);
            assert_eq!(same_text(s, p), s == p, "{:?} {:?}", s, p);
        }
    }
}

#[test]
fn slashes_agree_with_the_standard_library_on_every_short_text() {
    for s in short_texts(&['a', '\\', '/', 'é'], 6) {
        assert_eq!(to_forward_slashes(&s), s.replace('\\', "/"), "{:?}", s);
    }
}
