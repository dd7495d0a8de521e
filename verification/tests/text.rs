use copilot_agent::search::{
    is_at, last_position_of, position_of, position_of_text, text_after_last,
};
use copilot_agent::split::{
    past_white, past_word, split_at_each, split_lines, split_words, trim,
};
use copilot_agent::text::{capitalize, chars_of, joined, same, string_between, string_of};

fn chars(s: &str) -> Vec<char> {
    s.chars().collect()
}

#[test]
fn white_space_is_the_listed_characters() {
    for n in 0u32..=0x10ffff {
        if let Some(c) = char::from_u32(n) {
            let listed = matches!(
                n,
                0x9..=0xd
                    | 0x20
                    | 0x85
                    | 0xa0
                    | 0x1680
                    | 0x2000..=0x200a
                    | 0x2028
                    | 0x2029
                    | 0x202f
                    | 0x205f
                    | 0x3000
            );
            assert_eq!(past_white(&vec![c], 0) == 1, listed, "U+{:04X}", n);
        }
    }
}

#[test]
fn ascii_capitals_follow_the_ascii_rule() {
    for n in 0u8..128 {
        let c = n as char;
        let expected: String = format!("{}x", c.to_ascii_uppercase());
        assert_eq!(capitalize(&format!("{}x", c)), expected);
    }
}

#[test]
fn capital_of_a_letter_outside_ascii() {
    assert_eq!(capitalize("éclair"), "Éclair");
    assert_eq!(capitalize("ßeta"), "SSeta");
    assert_eq!(capitalize("語x"), "語x");
    assert_eq!(capitalize(""), "");
}

#[test]
fn strings_and_characters_convert_both_ways() {
    let s = "aé語🦀";
    assert_eq!(chars_of(s), vec!['a', 'é', '語', '🦀']);
    assert_eq!(string_of(&chars_of(s)), s);
    assert_eq!(string_between(&chars(s), 1, 3), "é語");
    assert_eq!(string_of(&[]), "");
    assert_eq!(joined("ab", "é"), "abé");
}

#[test]
fn equality_of_texts() {
    assert!(same("abc", "abc"));
    assert!(same("", ""));
    assert!(!same("abc", "abd"));
    assert!(!same("abc", "ab"));
    assert!(!same("é", "e"));
}

#[test]
fn trimming_takes_white_space_at_both_ends() {
    assert_eq!(trim("  a b\t\r\n"), "a b");
    assert_eq!(trim("\u{a0}\u{3000}x\u{2003}"), "x");
    assert_eq!(trim(" \n "), "");
    assert_eq!(trim(""), "");
    assert_eq!(trim("abc"), "abc");
    assert_eq!(trim(&trim("  a  ")), trim("  a  "));
}

#[test]
fn words_are_the_stretches_without_white_space() {
    assert_eq!(split_words("  ls   -la\tsrc\n"), vec!["ls", "-la", "src"]);
    assert!(split_words(" \t ").is_empty());
    assert!(split_words("").is_empty());
    assert_eq!(split_words("one"), vec!["one"]);
    let cs = chars(" ab c");
    assert_eq!(past_white(&cs, 0), 1);
    assert_eq!(past_word(&cs, 1), 3);
    assert_eq!(past_word(&cs, 4), 5);
}

#[test]
fn words_keep_every_character() {
    let s = " a  bc\td ";
    let inked: String = s.chars().filter(|c| !c.is_whitespace()).collect();
    assert_eq!(split_words(s).concat(), inked);
}

#[test]
fn lines_end_at_line_feeds() {
    assert_eq!(split_lines("a\nb\r\nc"), vec!["a", "b", "c"]);
    assert_eq!(split_lines("a\n"), vec!["a"]);
    assert_eq!(split_lines("\n\na"), vec!["", "", "a"]);
    assert_eq!(split_lines("a\r"), vec!["a\r"]);
    assert_eq!(split_lines("a\r\r\n"), vec!["a\r"]);
    assert_eq!(split_lines("\r\n"), vec![""]);
    assert!(split_lines("").is_empty());
}

#[test]
fn lines_are_those_of_std() {
    for s in ["", "\n", "a", "a\n", "a\n\n", "\r", "a\rb\r\n\rc\r", "x\r\n\r\ny"] {
        let expected: Vec<&str> = s.lines().collect();
        assert_eq!(split_lines(s), expected, "{:?}", s);
    }
}

#[test]
fn pieces_stand_around_the_separator() {
    assert_eq!(split_at_each("a_b__c", '_'), vec!["a", "b", "", "c"]);
    assert_eq!(split_at_each("", '_'), vec![""]);
    assert_eq!(split_at_each("_", '_'), vec!["", ""]);
}

#[test]
fn searching_finds_the_first_and_the_last() {
    let cs = chars("abcabc");
    assert_eq!(position_of(&cs, 'b', 0), Some(1));
    assert_eq!(position_of(&cs, 'b', 2), Some(4));
    assert_eq!(position_of(&cs, 'x', 0), None);
    assert_eq!(last_position_of(&cs, 'b'), Some(4));
    assert_eq!(last_position_of(&cs, 'x'), None);
    assert_eq!(position_of_text(&cs, &chars("ca")), Some(2));
    assert_eq!(position_of_text(&cs, &chars("abc")), Some(0));
    assert_eq!(position_of_text(&cs, &chars("cb")), None);
    assert_eq!(position_of_text(&cs, &chars("")), Some(0));
    assert_eq!(position_of_text(&chars("ab"), &chars("abc")), None);
    assert!(is_at(&cs, &chars("bc"), 4));
    assert!(!is_at(&cs, &chars("bca"), 4));
}

#[test]
fn what_follows_the_last_separator() {
    assert_eq!(text_after_last("a/b/c.rs", '/'), "c.rs");
    assert_eq!(text_after_last("c.rs", '/'), "c.rs");
    assert_eq!(text_after_last("a/", '/'), "");
    assert_eq!(text_after_last("", '/'), "");
}
