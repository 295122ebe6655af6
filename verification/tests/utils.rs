use rvc::utils::{load_file, walk_dir, DirEntry, Pending, Walk};

fn file(path: &str) -> DirEntry {
    DirEntry { path: path.to_string(), is_dir: false }
}

fn directory(path: &str) -> DirEntry {
    DirEntry { path: path.to_string(), is_dir: true }
}

#[test]
fn load_file_ends_every_text_with_a_line_feed() {
    assert_eq!(load_file("a".to_string()), "a\n");
    assert_eq!(load_file("a\n".to_string()), "a\n");
    assert_eq!(load_file("a\nb".to_string()), "a\nb\n");
    assert_eq!(load_file(String::new()), "\n");
    assert_eq!(load_file("\n".to_string()), "\n");
}

#[test]
fn walk_dir_refuses_what_is_no_directory() {
    assert_eq!(walk_dir("/work/a.txt".to_string(), false, 8), None);
}

#[test]
fn walk_dir_starts_at_the_root() {
    let walk = walk_dir("/work".to_string(), true, 8).unwrap();
    assert_eq!(
        walk,
        Walk {
            pending: vec![Pending { path: "/work".to_string(), depth: 0 }],
            files: Vec::new(),
            refused: Vec::new(),
            limit: 8,
        }
    );
    assert_eq!(walk.next_directory(), Some(&"/work".to_string()));
    assert!(!walk.is_complete());
}

#[test]
fn walk_finds_the_files_of_every_directory() {
    let mut walk = walk_dir("/work".to_string(), true, 8).unwrap();
    walk.listed(vec![file("/work/a"), directory("/work/d"), file("/work/b"), directory("/work/e")]);
    assert_eq!(walk.files, vec!["/work/a".to_string(), "/work/b".to_string()]);
    assert_eq!(
        walk.pending,
        vec![
            Pending { path: "/work/d".to_string(), depth: 1 },
            Pending { path: "/work/e".to_string(), depth: 1 },
        ]
    );
    assert_eq!(walk.next_directory(), Some(&"/work/e".to_string()));
    walk.listed(vec![directory("/work/e/f")]);
    assert_eq!(walk.next_directory(), Some(&"/work/e/f".to_string()));
    assert_eq!(walk.pending[1], Pending { path: "/work/e/f".to_string(), depth: 2 });
    walk.listed(vec![file("/work/e/f/c")]);
    assert_eq!(walk.next_directory(), Some(&"/work/d".to_string()));
    walk.listed(Vec::new());
    assert_eq!(walk.next_directory(), None);
    assert!(walk.is_complete());
    assert_eq!(
        walk.files,
        vec!["/work/a".to_string(), "/work/b".to_string(), "/work/e/f/c".to_string()]
    );
}

#[test]
fn walk_refuses_directories_beyond_the_limit() {
    let mut walk = walk_dir("/work".to_string(), true, 1).unwrap();
    walk.listed(vec![directory("/work/d")]);
    assert_eq!(walk.next_directory(), Some(&"/work/d".to_string()));
    walk.listed(vec![directory("/work/d/e"), file("/work/d/a")]);
    assert_eq!(walk.next_directory(), None);
    assert_eq!(walk.files, vec!["/work/d/a".to_string()]);
    assert_eq!(walk.refused, vec!["/work/d/e".to_string()]);
    assert!(!walk.is_complete());

    let mut flat = walk_dir("/work".to_string(), true, 0).unwrap();
    flat.listed(vec![directory("/work/d"), file("/work/a")]);
    assert_eq!(flat.next_directory(), None);
    assert_eq!(flat.refused, vec!["/work/d".to_string()]);
    assert_eq!(flat.files, vec!["/work/a".to_string()]);
}
