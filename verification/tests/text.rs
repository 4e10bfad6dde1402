use bandix_connection::number::{parse_u16, parse_u64};
use bandix_connection::text::{
    contains_char, contains_text, find_text, has_white_space, same_text, shows_at, split_on,
    split_words, to_chars, to_text,
};

fn cut(text: &str, sep: char) -> Vec<String> {
    let chars = to_chars(text);
    split_on(&chars, sep).iter().map(|p| to_text(p)).collect()
}

fn cut_words(text: &str) -> Vec<String> {
    let chars = to_chars(text);
    split_words(&chars).iter().map(|p| to_text(p)).collect()
}

#[test]
fn characters_and_text_are_inverse() {
    assert_eq!(to_chars("aé\u{1f600}"), vec!['a', 'é', '\u{1f600}']);
    assert_eq!(to_text(&['a', 'é', '\u{1f600}']), "aé\u{1f600}");
    assert_eq!(to_text(&to_chars("")), "");
}

#[test]
fn white_space_is_that_of_unicode() {
    for u in 0..=0x10ffffu32 {
        if let Some(c) = char::from_u32(u) {
            assert_eq!(has_white_space(c), c.is_whitespace(), "{:x}", u);
        }
    }
}

#[test]
fn pieces_lie_between_separators() {
    assert_eq!(cut("", '\n'), vec![""]);
    assert_eq!(cut("a", '\n'), vec!["a"]);
    assert_eq!(cut("a\n", '\n'), vec!["a", ""]);
    assert_eq!(cut("\na\n\nb", '\n'), vec!["", "a", "", "b"]);
}

#[test]
fn pieces_of_joined_texts() {
    for (a, b) in [("", ""), ("a\nb", "c"), ("a", "\n"), ("", "x\ny\n")] {
        let joined = format!("{}\n{}", a, b);
        let mut parts = cut(a, '\n');
        parts.extend(cut(b, '\n'));
        assert_eq!(cut(&joined, '\n'), parts);
    }
}

#[test]
fn words_are_runs_without_white_space() {
    for text in [
        "",
        "   ",
        "one",
        " one",
        "one ",
        "  tcp\t6  431999 \r",
        "a\u{a0}b\u{2003}c\u{3000}\u{85}d",
        "x\u{200b}y z",
    ] {
        let expected: Vec<String> = text.split_whitespace().map(|w| w.to_string()).collect();
        assert_eq!(cut_words(text), expected);
    }
}

#[test]
fn text_is_found_at_its_first_place() {
    let chars = to_chars("abcabc");
    assert_eq!(find_text(&chars, "bc"), Some(1));
    assert_eq!(find_text(&chars, "cabc"), Some(2));
    assert_eq!(find_text(&chars, ""), Some(0));
    assert_eq!(find_text(&chars, "abcd"), None);
    assert_eq!(find_text(&chars, "abcabca"), None);
    assert!(contains_text(&chars, "ca"));
    assert!(!contains_text(&chars, "cb"));
    assert!(contains_char(&chars, 'c'));
    assert!(!contains_char(&chars, 'd'));
    assert!(shows_at(&chars, &['c', 'a'], 2));
    assert!(!shows_at(&chars, &['c', 'a'], 5));
}

#[test]
fn text_is_compared_whole() {
    let chars = to_chars("src=1");
    assert!(same_text(&chars, "src=1"));
    assert!(!same_text(&chars, "src="));
    assert!(!same_text(&chars, "src=11"));
    assert!(!same_text(&chars, "src=2"));
    assert!(same_text(&[], ""));
}

#[test]
fn numbers_are_those_of_the_standard_library() {
    for text in [
        "", "+", "-", "0", "+0", "-0", "7", "007", "+12", "++1", "1_0", " 1", "1 ", "65535", "65536",
        "18446744073709551615", "18446744073709551616", "99999999999999999999999", "1a", "\u{663}",
        "00000000000000000000000001",
    ] {
        let chars = to_chars(text);
        assert_eq!(parse_u64(&chars), text.parse::<u64>().ok(), "{}", text);
        assert_eq!(parse_u16(&chars), text.parse::<u16>().ok(), "{}", text);
    }
    assert_eq!(parse_u64(&to_chars("1234567890123")), Some(1_234_567_890_123));
    assert_eq!(parse_u16(&to_chars("443")), Some(443));
}
