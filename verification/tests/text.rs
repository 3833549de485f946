use roster::text::bytes_at_most;
use roster::text::is_whitespace;
use roster::text::same_text;
use roster::text::split_words;
use roster::text::text_at_most;

#[test]
fn white_space_is_what_unicode_says() {
    let mut code: u32 = 0;
    while code <= 0x10FFFF {
        if let Some(c) = char::from_u32(code) {
            assert_eq!(is_whitespace(c), c.is_whitespace(), "U+{:04X}", code);
        }
        code += 1;
    }
}

#[test]
fn white_space_named_cases() {
    assert!(is_whitespace(' '));
    assert!(is_whitespace('\t'));
    assert!(is_whitespace('\n'));
    assert!(is_whitespace('\r'));
    assert!(is_whitespace('\u{A0}'));
    assert!(is_whitespace('\u{3000}'));
    assert!(!is_whitespace('a'));
    assert!(!is_whitespace('\u{200B}'));
    assert!(!is_whitespace('\u{0}'));
}

#[test]
fn words_of_a_plain_line() {
    assert_eq!(split_words("add Bob to Eng"), vec!["add", "Bob", "to", "Eng"]);
}

#[test]
fn words_drop_white_space_at_both_ends() {
    assert_eq!(split_words("  \t add   Bob\tto  Eng \r\n"), vec!["add", "Bob", "to", "Eng"]);
}

#[test]
fn words_of_an_empty_line() {
    assert_eq!(split_words(""), Vec::<&str>::new());
    assert_eq!(split_words(" \t\n"), Vec::<&str>::new());
}

#[test]
fn words_of_one_word() {
    assert_eq!(split_words("help"), vec!["help"]);
    assert_eq!(split_words("help\n"), vec!["help"]);
    assert_eq!(split_words("\nhelp"), vec!["help"]);
}

#[test]
fn words_split_at_unicode_white_space() {
    assert_eq!(split_words("a\u{3000}b\u{A0}c\u{2003}d"), vec!["a", "b", "c", "d"]);
}

#[test]
fn words_keep_characters_of_several_bytes() {
    assert_eq!(split_words(" Zoë  日本語 \u{1F600}x "), vec!["Zoë", "日本語", "\u{1F600}x"]);
}

#[test]
fn words_agree_with_the_standard_library() {
    let lines = [
        "",
        " ",
        "a",
        " a",
        "a ",
        "a b",
        "  a  b  ",
        "list company",
        "\tlist\u{B}department\u{C}x\u{85}",
        "x\u{1680}y\u{2028}z\u{2029}w\u{202F}v\u{205F}u",
        "ß İ ǅ",
    ];
    for line in lines {
        let expected: Vec<&str> = line.split_whitespace().collect();
        assert_eq!(split_words(line), expected, "{:?}", line);
    }
}

#[test]
fn bytes_order_is_lexicographic() {
    assert!(bytes_at_most(b"", b""));
    assert!(bytes_at_most(b"", b"a"));
    assert!(!bytes_at_most(b"a", b""));
    assert!(bytes_at_most(b"a", b"a"));
    assert!(bytes_at_most(b"a", b"ab"));
    assert!(!bytes_at_most(b"ab", b"a"));
    assert!(bytes_at_most(b"ab", b"b"));
    assert!(!bytes_at_most(b"b", b"ab"));
    assert!(bytes_at_most(b"abc", b"abd"));
    assert!(!bytes_at_most(b"abd", b"abc"));
    assert!(!bytes_at_most(&[0xFF], &[0x00, 0x01]));
}

#[test]
fn text_order_agrees_with_the_standard_library() {
    let texts = ["", "a", "A", "ab", "b", "Bob", "alice", "é", "z", "日本", "\u{1F600}", "aé", "a\u{0}"];
    for a in texts {
        for b in texts {
            assert_eq!(text_at_most(a, b), a <= b, "{:?} {:?}", a, b);
            assert_eq!(same_text(a, b), a == b, "{:?} {:?}", a, b);
        }
    }
}

#[test]
fn same_text_is_exact() {
    assert!(same_text("add", "add"));
    assert!(!same_text("add", "Add"));
    assert!(!same_text("add", "add "));
    assert!(!same_text("", "a"));
    assert!(same_text("", ""));
}
