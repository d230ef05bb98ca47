use lemmalog::number::{
    int_text, is_real_text, parse_i64, parse_u64, parse_usize, push_decimal, push_hex,
    push_padded, size_text,
};
use lemmalog::sorted::{has, place};
use lemmalog::text::{
    has_text, is_before, is_control, is_white, join_strings, split_char, split_lines,
    split_once, string_of, trim,
};

fn chars(s: &str) -> Vec<char> {
    s.chars().collect()
}

#[test]
fn characters_are_classed_as_the_standard_library_classes_them() {
    for code in 0..=0x10ffffu32 {
        if let Some(c) = char::from_u32(code) {
            assert_eq!(is_white(c), c.is_whitespace(), "{code:x}");
            assert_eq!(is_control(c), c.is_control(), "{code:x}");
        }
    }
}

#[test]
fn texts_are_cut_and_joined() {
    assert_eq!(string_of(trim(&chars(" \u{3000}a b\n"))), "a b");
    assert_eq!(split_lines(&chars("a\r\nb\n\nc")), ["a", "b", "", "c"]);
    assert_eq!(split_char(&chars("a,,b"), ','), ["a", "", "b"]);
    let (before, after) = (chars("a--b--c"), chars("--"));
    let (head, tail) = split_once(&before, &after).unwrap();
    assert_eq!((string_of(head), string_of(tail)), ("a".to_string(), "b--c".to_string()));
    assert_eq!(
        join_strings(&vec!["a".to_string(), "b".to_string()], ", "),
        "a, b"
    );
    assert!(has_text(&chars("abcabd"), &chars("abd")));
}

#[test]
fn texts_are_ordered_as_strings_are() {
    let words = ["", "a", "aa", "b", "Z", "é", "\u{10000}", "\u{ffff}"];
    for a in words {
        for b in words {
            assert_eq!(is_before(a, b), a < b, "{a:?} {b:?}");
        }
    }
    let mut list = vec![];
    for word in words {
        place(&mut list, word.to_string());
    }
    let mut sorted: Vec<String> = words.iter().map(|word| word.to_string()).collect();
    sorted.sort();
    assert_eq!(list, sorted);
    place(&mut list, "b".to_string());
    assert_eq!(list, sorted);
    assert!(has(&list, "Z") && !has(&list, "z"));
}

#[test]
fn integers_are_written_and_read_as_the_standard_library_does() {
    for i in [0, 1, -1, 42, i64::MAX, i64::MIN] {
        assert_eq!(int_text(i), i.to_string());
    }
    assert_eq!(size_text(1050), "1050");
    for text in [
        "0", "-0", "+5", "007", "9223372036854775807", "9223372036854775808", "-9223372036854775808",
        "-9223372036854775809", "", "-", "+", "1a", "1 ", "18446744073709551615",
        "18446744073709551616",
    ] {
        assert_eq!(parse_i64(&chars(text)), text.parse::<i64>().ok(), "{text:?}");
        assert_eq!(parse_u64(&chars(text)), text.parse::<u64>().ok(), "{text:?}");
        assert_eq!(parse_usize(&chars(text)), text.parse::<usize>().ok(), "{text:?}");
    }
    let mut out = String::new();
    push_decimal(&mut out, 907);
    push_hex(&mut out, 0x1f, 4);
    push_padded(&mut out, 7, 2);
    assert_eq!(out, "907001f07");
}

#[test]
fn reals_are_told_as_the_standard_library_does() {
    for text in [
        "0", "1.5", "-.5", "5.", ".", "", "+", "1e5", "1e+5", "1e", "e5", "inf", "Infinity",
        "INFINITY", "-inf", "nan", "NAN", "nano", " 1", "1_0", "0x10", "1.e3", ".e3", "1e5.5",
    ] {
        assert_eq!(is_real_text(&chars(text)), text.parse::<f64>().is_ok(), "{text:?}");
    }
}
