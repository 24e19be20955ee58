use prefab_ids::text::find;
use prefab_ids::text::from_chars;
use prefab_ids::text::is_digit;
use prefab_ids::text::is_space;
use prefab_ids::text::lines_to_chars;
use prefab_ids::text::rfind;
use prefab_ids::text::split_lines;
use prefab_ids::text::starts_with;
use prefab_ids::text::to_chars;
use prefab_ids::text::trim;

fn chars(s: &str) -> Vec<char> {
    s.chars().collect()
}

fn text(v: &[char]) -> String {
    v.iter().collect()
}

fn lines_of(s: &str) -> Vec<String> {
    split_lines(&chars(s)).iter().map(|l| text(l)).collect()
}

#[test]
fn digits_are_the_ten_ascii_digits() {
    for c in '0'..='9' {
        assert!(is_digit(c));
    }
    assert!(!is_digit('/'));
    assert!(!is_digit(':'));
    assert!(!is_digit('a'));
    assert!(!is_digit('-'));
    assert!(!is_digit('\u{0661}'));
}

#[test]
fn space_agrees_with_char_is_whitespace() {
    let mut spaces = 0;
    for u in 0..=0x10ffffu32 {
        if let Some(c) = char::from_u32(u) {
            assert_eq!(is_space(c), c.is_whitespace(), "at {:?}", c);
            if is_space(c) {
                spaces += 1;
            }
        }
    }
    assert_eq!(spaces, 25);
}

#[test]
fn find_gives_first_index_or_length() {
    assert_eq!(find(&chars("a:b:c"), ':'), 1);
    assert_eq!(find(&chars(":"), ':'), 0);
    assert_eq!(find(&chars("abc"), ':'), 3);
    assert_eq!(find(&chars(""), ':'), 0);
}

#[test]
fn rfind_gives_last_index_or_none() {
    assert_eq!(rfind(&chars("a&b&c"), '&'), Some(3));
    assert_eq!(rfind(&chars("&"), '&'), Some(0));
    assert_eq!(rfind(&chars("abc"), '&'), None);
    assert_eq!(rfind(&chars(""), '&'), None);
}

#[test]
fn trim_removes_white_space_at_both_ends_only() {
    assert_eq!(text(trim(&chars("  a b \t\r\n"))), "a b");
    assert_eq!(text(trim(&chars("ab"))), "ab");
    assert_eq!(text(trim(&chars(" \t "))), "");
    assert_eq!(text(trim(&chars(""))), "");
    assert_eq!(text(trim(&chars("\u{3000}x\u{00a0}"))), "x");
}

#[test]
fn trim_agrees_with_str_trim() {
    for s in ["", " ", "a", " a", "a ", " a b ", "\t\n a\r\n", "\u{2003}a\u{2028}", "\u{200b}a"] {
        assert_eq!(text(trim(&chars(s))), s.trim());
    }
}

#[test]
fn starts_with_compares_the_prefix() {
    assert!(starts_with(&chars("GameObject: x"), &chars("GameObject:")));
    assert!(starts_with(&chars("abc"), &chars("")));
    assert!(starts_with(&chars("abc"), &chars("abc")));
    assert!(!starts_with(&chars("ab"), &chars("abc")));
    assert!(!starts_with(&chars("xbc"), &chars("abc")));
    assert!(!starts_with(&chars(" GameObject:"), &chars("GameObject:")));
}

#[test]
fn lines_end_at_line_feeds() {
    assert_eq!(lines_of("a\nb\n"), vec!["a", "b"]);
    assert_eq!(lines_of("a\nb"), vec!["a", "b"]);
    assert_eq!(lines_of("a\n\nb\n"), vec!["a", "", "b"]);
    assert_eq!(lines_of("\n"), vec![""]);
    assert_eq!(lines_of(""), Vec::<String>::new());
}

#[test]
fn lines_drop_a_carriage_return_before_the_line_feed_only() {
    assert_eq!(lines_of("a\r\nb\r\n"), vec!["a", "b"]);
    assert_eq!(lines_of("a\r\r\nb"), vec!["a\r", "b"]);
    assert_eq!(lines_of("a\rb\n"), vec!["a\rb"]);
    assert_eq!(lines_of("a\nb\r"), vec!["a", "b\r"]);
}

#[test]
fn lines_agree_with_str_lines() {
    for s in ["", "\n", "a", "a\n", "a\r\n", "a\nb\r", "\r\n\r\n", "x\n\ny", "foo\nbar\n\r\nbaz\r"] {
        let expected: Vec<String> = s.lines().map(|l| l.to_string()).collect();
        assert_eq!(lines_of(s), expected, "for {:?}", s);
    }
}

#[test]
fn to_chars_gives_the_characters_in_order() {
    assert_eq!(to_chars("a\u{e9}\u{1f600}z"), vec!['a', '\u{e9}', '\u{1f600}', 'z']);
    assert_eq!(to_chars(""), Vec::<char>::new());
}

#[test]
fn from_chars_builds_the_string() {
    assert_eq!(from_chars(&['a', 'b']), "ab");
    assert_eq!(from_chars(&['\u{e9}', '\n', '9']), "\u{e9}\n9");
    assert_eq!(from_chars(&[]), "");
}

#[test]
fn chars_and_string_round_trip() {
    let s = "--- !u!1 &42\nGameObject:\n  m_Name: \u{30d7}\u{30ec}\u{30a4}\u{30e4}\u{30fc}\n";
    assert_eq!(from_chars(&to_chars(s)), s);
}

#[test]
fn lines_to_chars_converts_each_line() {
    let lines = vec!["ab".to_string(), "".to_string(), "c".to_string()];
    assert_eq!(lines_to_chars(&lines), vec![vec!['a', 'b'], vec![], vec!['c']]);
}
