use rvc::text::{lines_of, terminate, write_lines};

fn strings(lines: &[&str]) -> Vec<String> {
    lines.iter().map(|line| line.to_string()).collect()
}

#[test]
fn lines_of_cuts_at_line_feeds() {
    assert_eq!(lines_of("one\ntwo\n"), strings(&["one", "two", ""]));
    assert_eq!(lines_of("one\ntwo"), strings(&["one", "two"]));
    assert_eq!(lines_of(""), strings(&[""]));
    assert_eq!(lines_of("\n"), strings(&["", ""]));
    assert_eq!(lines_of("\n\na"), strings(&["", "", "a"]));
    assert_eq!(lines_of("a\r\nb"), strings(&["a\r", "b"]));
}

#[test]
fn write_lines_joins_and_ends_with_a_line_feed() {
    assert_eq!(write_lines(&strings(&["one", "two", ""])), "one\ntwo\n");
    assert_eq!(write_lines(&strings(&["one", "two"])), "one\ntwo\n");
    assert_eq!(write_lines(&strings(&["one"])), "one\n");
    assert_eq!(write_lines(&strings(&[""])), "");
    assert_eq!(write_lines(&strings(&[])), "");
    assert_eq!(write_lines(&strings(&["", ""])), "\n");
    assert_eq!(write_lines(&strings(&["a", "", ""])), "a\n\n");
}

#[test]
fn write_lines_gives_back_what_lines_of_has_cut() {
    for text in ["", "\n", "a\n", "a\nb\n", "\n\n", "a\n\nb\n"] {
        assert_eq!(write_lines(&lines_of(text)), text);
    }
}

#[test]
fn terminate_adds_a_missing_line_feed() {
    assert_eq!(terminate("a".to_string()), "a\n");
    assert_eq!(terminate("a\n".to_string()), "a\n");
    assert_eq!(terminate(String::new()), "");
    assert_eq!(terminate("é".to_string()), "é\n");
}
