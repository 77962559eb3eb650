use markov_text::text::last_word;
use markov_text::text::split_spaces;
use markov_text::text::text_len;
use markov_text::text::trim;

#[test]
fn trim_removes_whitespace_at_both_ends() {
    assert_eq!(trim("  the cat \t\n"), "the cat");
    assert_eq!(trim("the cat"), "the cat");
    assert_eq!(trim("\u{3000}a\u{a0}"), "a");
}

#[test]
fn trim_of_whitespace_is_empty() {
    assert_eq!(trim(""), "");
    assert_eq!(trim(" \t \n"), "");
}

#[test]
fn trim_keeps_inner_whitespace() {
    assert_eq!(trim(" a  b\tc "), "a  b\tc");
}

#[test]
fn trim_agrees_with_std() {
    let samples =
        ["", " ", "a", " a", "a ", " a b ", "\n\u{2003}x y\u{2003}\r\n", "é ", " \u{1F600} "];
    for s in samples {
        assert_eq!(trim(s), s.trim());
    }
}

#[test]
fn split_gives_one_token_more_than_spaces() {
    assert_eq!(split_spaces("the cat sat"), vec!["the", "cat", "sat"]);
    assert_eq!(split_spaces("a  b"), vec!["a", "", "b"]);
    assert_eq!(split_spaces(" a "), vec!["", "a", ""]);
    assert_eq!(split_spaces(""), vec![""]);
    assert_eq!(split_spaces("a\tb"), vec!["a\tb"]);
}

#[test]
fn split_agrees_with_std() {
    for s in ["", " ", "a", " a", "a ", " a b ", "a  b   c", "é ü", "x\ty z"] {
        let expected: Vec<String> = s.split(' ').map(|p| p.to_string()).collect();
        assert_eq!(split_spaces(s), expected);
    }
}

#[test]
fn last_word_follows_the_last_space() {
    assert_eq!(last_word("the cat sat"), "sat");
    assert_eq!(last_word("the"), "the");
    assert_eq!(last_word(""), "");
    assert_eq!(last_word("the "), "");
}

#[test]
fn text_len_counts_bytes() {
    assert_eq!(text_len(""), 0);
    assert_eq!(text_len("cat"), 3);
    assert_eq!(text_len("é"), 2);
    assert_eq!(text_len("\u{1F600}"), 4);
}

#[test]
fn trim_knows_every_whitespace_character() {
    let listed = |c: char| {
        let code = c as u32;
        (0x09..=0x0D).contains(&code)
            || (0x2000..=0x200A).contains(&code)
            || [0x20, 0x85, 0xA0, 0x1680, 0x2028, 0x2029, 0x202F, 0x205F, 0x3000].contains(&code)
    };
    let mut buffer = [0u8; 4];
    for code in 0..=0x10FFFFu32 {
        if let Some(c) = char::from_u32(code) {
            let text: &str = c.encode_utf8(&mut buffer);
            assert_eq!(trim(text).is_empty(), listed(c), "U+{code:04X}");
        }
    }
}

#[test]
fn a_space_and_a_line_feed_are_whitespace_and_a_letter_is_not() {
    assert_eq!(trim(" "), "");
    assert_eq!(trim("\n"), "");
    assert_eq!(trim("\u{a0}"), "");
    assert_eq!(trim("越"), "越");
    assert_eq!(trim("a"), "a");
    assert_eq!(trim("\u{200b}"), "\u{200b}");
}
