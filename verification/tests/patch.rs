use rvc::align::{fits_diff, str_diff, DiffLine};
use rvc::patch::{Change, FileChange, FileMod};

fn added(line: usize, text: &str) -> FileChange {
    FileChange { line, change: Change::Added(text.to_string()) }
}

fn deleted(line: usize) -> FileChange {
    FileChange { line, change: Change::Deleted }
}

fn script(changes: Vec<FileChange>) -> FileMod {
    FileMod { fpath: "f".to_string(), changes }
}

fn between(before: &str, after: &str) -> FileMod {
    assert!(fits_diff(before, after));
    FileMod::from_changes("f".to_string(), str_diff(before, after))
}

#[test]
fn str_diff_aligns_the_lines() {
    assert_eq!(
        str_diff("foo\nbar\nbaz\nquux", "foo\nbaz\nbar\nquux"),
        vec![
            DiffLine::Both("foo".to_string()),
            DiffLine::Left("bar".to_string()),
            DiffLine::Both("baz".to_string()),
            DiffLine::Right("bar".to_string()),
            DiffLine::Both("quux".to_string()),
        ]
    );
}

#[test]
fn str_diff_keeps_the_line_behind_a_final_line_feed() {
    assert_eq!(
        str_diff("a\n", "a\n"),
        vec![DiffLine::Both("a".to_string()), DiffLine::Both(String::new())]
    );
    assert_eq!(
        str_diff("a\n", "a"),
        vec![DiffLine::Both("a".to_string()), DiffLine::Left(String::new())]
    );
    assert_eq!(
        str_diff("a", "a\n"),
        vec![DiffLine::Both("a".to_string()), DiffLine::Right(String::new())]
    );
    assert_eq!(str_diff("", ""), Vec::new());
}

#[test]
fn str_diff_drops_a_carriage_return_before_a_line_feed() {
    assert_eq!(
        str_diff("a\r\nb\r", "a\nb\r"),
        vec![DiffLine::Both("a".to_string()), DiffLine::Both("b\r".to_string())]
    );
}

#[test]
fn str_diff_of_equal_texts_keeps_every_line() {
    for text in ["", "\n", "a", "a\nb\n", "a\n\nb", "x\r\ny\n"] {
        assert!(str_diff(text, text).iter().all(|line| matches!(line, DiffLine::Both(_))));
        assert!(between(text, text).is_empty());
    }
}

#[test]
fn fits_diff_accepts_ordinary_texts() {
    assert!(fits_diff("", ""));
    assert!(fits_diff("a\nb\nc\n", "a\nc\n"));
}

#[test]
fn from_changes_counts_every_entry_as_a_line() {
    let aligned = vec![
        DiffLine::Right("new first".to_string()),
        DiffLine::Both("kept".to_string()),
        DiffLine::Left("old".to_string()),
        DiffLine::Both("kept too".to_string()),
        DiffLine::Right("new last".to_string()),
    ];
    let edits = FileMod::from_changes("dir/file".to_string(), aligned);
    assert_eq!(edits.fpath, "dir/file");
    assert_eq!(edits.changes, vec![added(1, "new first"), deleted(3), added(5, "new last")]);
    assert!(!edits.is_empty());
}

#[test]
fn from_changes_of_kept_lines_is_empty() {
    let aligned = vec![DiffLine::Both("a".to_string()), DiffLine::Both("b".to_string())];
    let edits = FileMod::from_changes("f".to_string(), aligned);
    assert!(edits.is_empty());
    assert!(FileMod::from_changes("f".to_string(), Vec::new()).is_empty());
}

#[test]
fn apply_without_edits_completes_the_last_line() {
    assert_eq!(script(Vec::new()).apply("a\nb\n"), "a\nb\n");
    assert_eq!(script(Vec::new()).apply("a\nb"), "a\nb\n");
    assert_eq!(script(Vec::new()).apply(""), "");
    assert_eq!(script(Vec::new()).apply("\n"), "\n");
}

#[test]
fn apply_adds_a_line() {
    assert_eq!(script(vec![added(1, "zero")]).apply("one\ntwo\n"), "zero\none\ntwo\n");
    assert_eq!(script(vec![added(2, "middle")]).apply("one\ntwo\n"), "one\nmiddle\ntwo\n");
    assert_eq!(script(vec![added(4, "last")]).apply("one\ntwo\n"), "one\ntwo\n\nlast\n");
}

#[test]
fn apply_deletes_a_line() {
    assert_eq!(script(vec![deleted(1)]).apply("one\ntwo\n"), "two\n");
    assert_eq!(script(vec![deleted(2)]).apply("one\ntwo\n"), "one\n");
    assert_eq!(script(vec![deleted(3)]).apply("one\ntwo\n"), "one\ntwo\n");
    assert_eq!(script(vec![deleted(1)]).apply("only"), "");
}

#[test]
fn apply_walks_from_the_highest_line_down_with_an_offset() {
    // Walked: the addition at line 3 goes to place 2, then the deletion at
    // line 1 goes to place 0 + 1.
    let edits = script(vec![deleted(1), added(3, "x")]);
    assert_eq!(edits.apply("a\nb\nc\n"), "a\nx\nc\n");
    // Walked: the deletion at line 3 takes place 2, then the addition at
    // line 1 goes to place 0 - 1, which there is not.
    let edits = script(vec![added(1, "x"), deleted(3)]);
    assert_eq!(edits.try_apply("a\nb\nc\n"), None);
}

#[test]
fn apply_keeps_the_order_of_edits_at_one_line() {
    let edits = script(vec![added(2, "first"), added(2, "second")]);
    // "first" goes to place 1, then "second" to place 1 + 1.
    assert_eq!(edits.apply("a\nb\n"), "a\nfirst\nsecond\nb\n");
    let edits = script(vec![added(2, "second"), added(2, "first")]);
    assert_eq!(edits.apply("a\nb\n"), "a\nsecond\nfirst\nb\n");
}

#[test]
fn try_apply_refuses_an_edit_without_a_place() {
    assert_eq!(script(vec![deleted(4)]).try_apply("one\ntwo\n"), None);
    assert_eq!(script(vec![added(5, "x")]).try_apply("one\ntwo\n"), None);
    assert_eq!(script(vec![deleted(0)]).try_apply("one\ntwo\n"), None);
    assert_eq!(script(vec![added(0, "x")]).try_apply("one\ntwo\n"), None);
    assert_eq!(script(vec![added(usize::MAX, "x")]).try_apply("one\n"), None);
    assert_eq!(script(vec![deleted(2)]).try_apply("one\ntwo\n"), Some("one\n".to_string()));
}

#[test]
fn one_edit_round_trip() {
    let cases = [
        ("one\ntwo\n", "one\n"),
        ("one\ntwo\n", "two\n"),
        ("one\n", "one\ntwo\n"),
        ("one\n", "zero\none\n"),
        ("a\nb\nc\n", "a\nc\n"),
        ("a\nc\n", "a\nb\nc\n"),
        ("a\n", "a\n"),
        ("x", "x\n"),
    ];
    for (before, after) in cases {
        let edits = between(before, after);
        assert!(edits.changes.len() <= 1);
        assert_eq!(edits.apply(before), after);
    }
}

#[test]
fn two_edits_miss_their_places() {
    let edits = between("one\ntwo\n", "one\nthree\n");
    assert_eq!(edits.changes, vec![deleted(2), added(3, "three")]);
    assert_eq!(edits.apply("one\ntwo\n"), "one\ntwo\n");
}

#[test]
fn clone_copies_a_script() {
    let edits = script(vec![deleted(1), added(3, "x")]);
    assert_eq!(edits.clone(), edits);
    assert_eq!(edits.changes[1].clone(), added(3, "x"));
    assert_eq!(Change::Deleted.clone(), Change::Deleted);
}
