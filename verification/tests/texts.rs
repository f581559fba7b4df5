use shenava_asr_server::text::{
    chars_of, is_whitespace, join, push_decimal, spells, split_lines, string_of, take_first_word,
    to_lower, trim, trim_end, trim_start,
};

const SAMPLES: [&str; 16] = [
    "",
    " ",
    "a",
    " a b ",
    "\ta\r\n",
    "a\nb",
    "a\r\nb\r\n",
    "a\n\nb\n",
    "\n",
    "\r",
    "a\r",
    "a\r\r\nb",
    "\u{3000}شنوا\u{2028} x\u{85}",
    "  \u{200C}هم‌نویسه ",
    "ÀB[`{Z",
    "one  two\tthree",
];

#[test]
fn whitespace_is_that_of_unicode() {
    for n in 0..=0x10FFFFu32 {
        if let Some(c) = char::from_u32(n) {
            assert_eq!(is_whitespace(c), c.is_whitespace(), "{n:#x}");
        }
    }
}

#[test]
fn trimming_takes_whitespace_off_the_ends() {
    for s in SAMPLES {
        let chars = chars_of(s);
        assert_eq!(string_of(&chars), s);
        assert_eq!(string_of(trim(&chars)), s.trim());
        assert_eq!(string_of(trim_start(&chars)), s.trim_start());
        assert_eq!(string_of(trim_end(&chars)), s.trim_end());
    }
}

#[test]
fn lines_end_at_line_feeds() {
    for s in SAMPLES {
        let chars = chars_of(s);
        let got: Vec<String> = split_lines(&chars).iter().map(|l| string_of(l)).collect();
        let expected: Vec<&str> = s.lines().collect();
        assert_eq!(got, expected, "{s:?}");
    }
}

#[test]
fn the_first_word_ends_at_whitespace() {
    for s in SAMPLES {
        let chars = chars_of(s);
        let expected = s.split_whitespace().next().unwrap_or_default();
        assert_eq!(string_of(take_first_word(&chars)), expected);
    }
}

#[test]
fn only_ascii_letters_are_lowered() {
    for s in SAMPLES {
        let lowered = to_lower(&chars_of(s));
        assert_eq!(string_of(&lowered), s.to_ascii_lowercase());
    }
}

#[test]
fn words_are_compared_character_by_character() {
    assert!(spells(&chars_of("file"), "file"));
    assert!(!spells(&chars_of("files"), "file"));
    assert!(!spells(&chars_of("fil"), "file"));
    assert!(!spells(&chars_of("File"), "file"));
    assert!(spells(&chars_of(""), ""));
}

#[test]
fn numbers_are_written_in_decimal() {
    for n in [0u128, 7, 10, 99, 100, 1_234_567_890, u128::MAX] {
        let mut out = String::from("n=");
        push_decimal(&mut out, n);
        assert_eq!(out, format!("n={n}"));
    }
}

#[test]
fn parts_are_joined_with_the_separator_between() {
    let parts = |list: &[&str]| -> Vec<String> { list.iter().map(|s| s.to_string()).collect() };
    assert_eq!(join(&parts(&[]), " "), "");
    assert_eq!(join(&parts(&["a"]), " "), "a");
    assert_eq!(join(&parts(&["a", "", "b"]), " "), "a  b");
    assert_eq!(join(&parts(&["a", "b"]), "\n"), "a\nb");
}

#[test]
fn joined_lines_are_the_text_again() {
    for s in ["", "a", "a\n\nb", "\nx", "one\ntwo\n three"] {
        let chars = chars_of(s);
        let parts: Vec<String> = split_lines(&chars).iter().map(|l| string_of(l)).collect();
        assert_eq!(join(&parts, "\n"), s);
    }
}
