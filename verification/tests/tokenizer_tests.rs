use hotspot_report::text::{chars_of, find_char, is_whitespace, slice_of, string_of, trim_bounds, trimmed};
use hotspot_report::tokenizer::{line_from_chars, parse_line, tokenize, Line};

fn line(column: usize, key: &str, value: &str) -> Line {
    Line { column, key: key.to_string(), value: value.to_string() }
}

#[test]
fn whitespace_characters() {
    assert!(is_whitespace(' '));
    assert!(is_whitespace('\t'));
    assert!(is_whitespace('\n'));
    assert!(is_whitespace('\r'));
    assert!(is_whitespace('\u{a0}'));
    assert!(is_whitespace('\u{3000}'));
    assert!(!is_whitespace('a'));
    assert!(!is_whitespace(':'));
    assert!(!is_whitespace('\u{200b}'));
}

#[test]
fn whitespace_agrees_with_std() {
    let mut n: u32 = 0;
    while n < 0x11000 {
        if let Some(c) = char::from_u32(n) {
            assert_eq!(is_whitespace(c), c.is_whitespace());
        }
        n += 1;
    }
}

#[test]
fn chars_of_keeps_every_character() {
    assert_eq!(chars_of("a:é b"), vec!['a', ':', 'é', ' ', 'b']);
    assert_eq!(chars_of(""), Vec::<char>::new());
}

#[test]
fn string_of_takes_the_range() {
    let chars = chars_of("hello world");
    assert_eq!(string_of(&chars, 6, 11), "world");
    assert_eq!(string_of(&chars, 3, 3), "");
    assert_eq!(slice_of(&chars, 0, 5), vec!['h', 'e', 'l', 'l', 'o']);
}

#[test]
fn find_char_gives_the_first_or_the_end() {
    let chars = chars_of("a:b:c");
    assert_eq!(find_char(&chars, 0, 5, ':'), 1);
    assert_eq!(find_char(&chars, 2, 5, ':'), 3);
    assert_eq!(find_char(&chars, 4, 5, ':'), 5);
    assert_eq!(find_char(&chars, 0, 0, ':'), 0);
}

#[test]
fn trimming_drops_surrounding_whitespace_only() {
    let chars = chars_of("  a b \t");
    assert_eq!(trim_bounds(&chars, 0, 7), (2, 5));
    assert_eq!(trimmed(&chars, 0, 7), "a b");
    let blank = chars_of("   ");
    assert_eq!(trimmed(&blank, 0, 3), "");
    assert_eq!(trimmed(&chars, 3, 4), "");
}

#[test]
fn trimming_agrees_with_std() {
    let samples = vec!["", " ", "a", " a", "a ", "  key  ", "\t x y \r", "\u{a0}z\u{3000}"];
    for s in samples {
        let chars = chars_of(s);
        assert_eq!(trimmed(&chars, 0, chars.len()), s.trim());
    }
}

#[test]
fn plain_line() {
    assert_eq!(parse_line("    mac: 11:22:33:44:55:66"), Some(line(7, "mac", "11:22:33:44:55:66")));
}

#[test]
fn separator_is_the_first_colon() {
    assert_eq!(parse_line("a:b:c"), Some(line(1, "a", "b:c")));
}

#[test]
fn empty_key_and_value() {
    assert_eq!(parse_line(":"), Some(line(0, "", "")));
    assert_eq!(parse_line("  host:  "), Some(line(6, "host", "")));
}

#[test]
fn blank_line_is_skipped() {
    assert_eq!(parse_line(""), None);
    assert_eq!(parse_line("   \t "), None);
}

#[test]
fn line_without_separator_is_skipped() {
    assert_eq!(parse_line("Welcome to the router"), None);
    assert_eq!(parse_line("a, b"), None);
}

#[test]
fn comma_in_key_moves_the_column() {
    assert_eq!(parse_line("  ab, cd: val"), Some(line(4, "ab, cd", "val")));
    assert_eq!(parse_line(",x: y"), Some(line(0, ",x", "y")));
}

#[test]
fn comma_after_the_separator_changes_nothing() {
    assert_eq!(parse_line("  ab: c, d"), Some(line(4, "ab", "c, d")));
}

#[test]
fn column_counts_characters() {
    assert_eq!(parse_line("éé: x"), Some(line(2, "éé", "x")));
}

#[test]
fn line_from_chars_agrees_with_parse_line() {
    let text = "   key : value ";
    assert_eq!(line_from_chars(&chars_of(text)), parse_line(text));
    assert_eq!(parse_line(text), Some(line(7, "key", "value")));
}

#[test]
fn tokenize_keeps_structured_lines_in_order() {
    let raw = "banner\n\n  a: 1\n   \n b, c: 2\nlast:";
    assert_eq!(tokenize(raw), vec![line(3, "a", "1"), line(2, "b, c", "2"), line(4, "last", "")]);
}

#[test]
fn tokenize_handles_line_ends() {
    assert_eq!(tokenize(""), Vec::<Line>::new());
    assert_eq!(tokenize("\n\n"), Vec::<Line>::new());
    assert_eq!(tokenize("a: b\n"), vec![line(1, "a", "b")]);
    assert_eq!(tokenize("a: b\r\nc: d\r\n"), vec![line(1, "a", "b"), line(1, "c", "d")]);
}

#[test]
fn tokenize_agrees_with_line_by_line_parsing() {
    let raw = "x: 1\nnoise\n    y, z: 2\n\n  w:3";
    let mut expected: Vec<Line> = Vec::new();
    for l in raw.lines() {
        if let Some(parsed) = parse_line(l) {
            expected.push(parsed);
        }
    }
    assert_eq!(tokenize(raw), expected);
    assert_eq!(expected.len(), 3);
}
