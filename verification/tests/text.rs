use genre_tagger::manifest::{parse_manifest, SidecarEntry};
use genre_tagger::text::{chars_of, join_strs, split_lines, split_str};

fn strings(items: &[&str]) -> Vec<String> {
    items.iter().map(|s| s.to_string()).collect()
}

#[test]
fn chars_of_keeps_every_character() {
    assert_eq!(chars_of("aé\t"), vec!['a', 'é', '\t']);
    assert_eq!(chars_of(""), Vec::<char>::new());
}

#[test]
fn split_keeps_empty_pieces() {
    assert_eq!(split_str("id1\t\t\t\ta.ogg", '\t'), strings(&["id1", "", "", "", "a.ogg"]));
    assert_eq!(split_str("", '\t'), strings(&[""]));
    assert_eq!(split_str("\t", '\t'), strings(&["", ""]));
    assert_eq!(split_str("a\t", '\t'), strings(&["a", ""]));
    assert_eq!(split_str("no tabs", '\t'), strings(&["no tabs"]));
}

#[test]
fn split_then_join_gives_the_text_back() {
    for text in ["", "a", "a,b", ",a,,b,", ",,,"] {
        let pieces = split_str(text, ',');
        assert!(pieces.iter().all(|p| !p.contains(',')));
        assert_eq!(join_strs(&pieces, ','), text);
    }
}

#[test]
fn join_puts_the_separator_between_neighbours() {
    assert_eq!(join_strs(&strings(&[]), ','), "");
    assert_eq!(join_strs(&strings(&["rock"]), ','), "rock");
    assert_eq!(join_strs(&strings(&["jazz", "rock"]), ','), "jazz,rock");
    assert_eq!(join_strs(&strings(&["", ""]), ','), ",");
}

#[test]
fn lines_end_at_line_feeds() {
    assert_eq!(split_lines(""), strings(&[]));
    assert_eq!(split_lines("one"), strings(&["one"]));
    assert_eq!(split_lines("one\n"), strings(&["one"]));
    assert_eq!(split_lines("one\ntwo"), strings(&["one", "two"]));
    assert_eq!(split_lines("one\n\ntwo\n"), strings(&["one", "", "two"]));
    assert_eq!(split_lines("\n"), strings(&[""]));
}

#[test]
fn carriage_return_before_line_feed_belongs_to_the_line_ending() {
    assert_eq!(split_lines("one\r\ntwo\r\n"), strings(&["one", "two"]));
    assert_eq!(split_lines("one\r"), strings(&["one\r"]));
    assert_eq!(split_lines("one\r\r\n"), strings(&["one\r"]));
    assert_eq!(split_lines("o\rne\n"), strings(&["o\rne"]));
    assert_eq!(split_lines("\r\n"), strings(&[""]));
}

#[test]
fn lines_agree_with_the_standard_library() {
    for text in ["", "a", "a\n", "a\r\n", "a\rb", "\r", "\r\r", "\n\n", "a\n\rb\r\n\r", "x\r\n\r\ny"] {
        let expected: Vec<String> = text.lines().map(|l| l.to_string()).collect();
        assert_eq!(split_lines(text), expected, "for {:?}", text);
    }
}

#[test]
fn manifest_is_read_line_by_line() {
    let entries = parse_manifest("id1\t\t\t\ta.ogg\nid2\tx\ty\tz\tb.ogg\textra\n");
    assert_eq!(
        entries,
        vec![
            SidecarEntry { fields: strings(&["id1", "", "", "", "a.ogg"]) },
            SidecarEntry { fields: strings(&["id2", "x", "y", "z", "b.ogg", "extra"]) },
        ]
    );
    assert_eq!(entries[0].track_id().map(|s| s.as_str()), Some("id1"));
    assert_eq!(entries[0].file_name().map(|s| s.as_str()), Some("a.ogg"));
}

#[test]
fn empty_manifest_has_no_entries() {
    assert_eq!(parse_manifest(""), Vec::<SidecarEntry>::new());
}

#[test]
fn short_line_names_no_file() {
    let entries = parse_manifest("id1\ta.ogg");
    assert_eq!(entries.len(), 1);
    assert_eq!(entries[0].track_id().map(|s| s.as_str()), Some("id1"));
    assert_eq!(entries[0].file_name(), None);
}
