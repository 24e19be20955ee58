use prefab_ids::error::Error;
use prefab_ids::split::split_yaml;

fn segments(s: &str) -> Vec<Result<String, Error>> {
    let mut iter = split_yaml(s);
    let mut out = Vec::new();
    while let Some(item) = iter.next() {
        out.push(item);
    }
    out
}

fn ok(parts: &[&str]) -> Vec<Result<String, Error>> {
    parts.iter().map(|p| Ok(p.to_string())).collect()
}

#[test]
fn splits_before_each_line_of_three_dashes() {
    assert_eq!(
        segments("head\n--- !u!1 &1\na\n--- !u!4 &2\nb\n"),
        ok(&["head\n", "--- !u!1 &1\na\n", "--- !u!4 &2\nb\n"])
    );
}

#[test]
fn a_text_without_delimiter_is_one_segment() {
    assert_eq!(segments("just a header\nof two lines\n"), ok(&["just a header\nof two lines\n"]));
}

#[test]
fn the_empty_text_has_no_segment() {
    assert_eq!(segments(""), Vec::<Result<String, Error>>::new());
    let mut iter = split_yaml("");
    assert_eq!(iter.next(), None);
    assert_eq!(iter.next(), None);
}

#[test]
fn dashes_at_the_very_start_begin_no_new_segment() {
    assert_eq!(segments("--- a\n--- b\n"), ok(&["--- a\n", "--- b\n"]));
}

#[test]
fn a_delimiter_at_the_very_start_leaves_a_line_feed_as_header() {
    assert_eq!(segments("\n--- a\n"), ok(&["\n", "--- a\n"]));
}

#[test]
fn adjacent_delimiters_give_short_segments() {
    assert_eq!(segments("h\n---\n---\n---\n"), ok(&["h\n", "---\n", "---\n", "---\n"]));
}

#[test]
fn the_dashes_must_follow_a_line_feed_directly() {
    assert_eq!(
        segments("h\n ---\nx --- y\n--\n-- -\n\r---\n"),
        ok(&["h\n ---\nx --- y\n--\n-- -\n\r---\n"])
    );
}

#[test]
fn more_than_three_dashes_begin_a_segment_too() {
    assert_eq!(segments("h\n-----\nx\n"), ok(&["h\n", "-----\nx\n"]));
}

#[test]
fn a_carriage_return_stays_in_its_segment() {
    assert_eq!(segments("h\r\n--- a\r\n--- b\r\n"), ok(&["h\r\n", "--- a\r\n", "--- b\r\n"]));
}

#[test]
fn a_text_that_ends_without_line_feed_fails_at_its_last_segment() {
    assert_eq!(
        segments("h\n--- a\nlast"),
        vec![Ok("h\n".to_string()), Err(Error::StructuralParse)]
    );
    assert_eq!(segments("h"), vec![Err(Error::StructuralParse)]);
    assert_eq!(segments("h\n---"), vec![Ok("h\n".to_string()), Err(Error::StructuralParse)]);
}

#[test]
fn after_a_failure_nothing_is_left() {
    let mut iter = split_yaml("abc");
    assert_eq!(iter.next(), Some(Err(Error::StructuralParse)));
    assert_eq!(iter.next(), None);
}

#[test]
fn the_segments_put_together_are_the_text() {
    for s in [
        "",
        "\n",
        "h\n",
        "\n---\n",
        "h\n--- !u!1 &1\nGameObject:\n  m_Name: A\n--- !u!4 &2\nTransform:\n",
        "a\n---b\n----c\n\n---\n\n",
        "\u{e9}\n---\u{30d7}\n",
    ] {
        let mut joined = String::new();
        for part in segments(s) {
            joined.push_str(&part.unwrap());
        }
        assert_eq!(joined, s);
    }
}

#[test]
fn every_segment_ends_with_a_line_feed_and_later_ones_begin_with_dashes() {
    let parts = segments("h\n--- a\nb\n---\n--- c\n");
    assert_eq!(parts.len(), 4);
    for (i, part) in parts.iter().enumerate() {
        let part = part.clone().unwrap();
        assert!(part.ends_with('\n'));
        assert!(!part.is_empty());
        if i > 0 {
            assert!(part.starts_with("---"));
        }
    }
}
