use rvc::commit::Commit;
use rvc::patch::{Change, FileChange};
use rvc::repository::{CommitError, Repository};
use rvc::tree::FileTree;

fn tree(files: &[(&str, &str)]) -> FileTree {
    let mut tree = FileTree::new();
    for (path, content) in files {
        tree.insert(path.to_string(), content.to_string());
    }
    tree
}

fn repository(files: &[(&str, &str)]) -> Repository {
    Repository::create_at("demo", "/work".to_string(), Some(tree(files)), 100).unwrap()
}

#[test]
fn add_only() {
    let mut repo = repository(&[]);
    let disk = tree(&[("/work/a.txt", "hello\n")]);
    let commit = Commit::create_at("first", &mut repo, &disk, 200).unwrap();
    assert_eq!(commit.name, "first");
    assert_eq!(commit.timestamp, 200);
    assert_eq!(commit.created.len(), 1);
    assert_eq!(commit.created.get("/work/a.txt"), Some(&"hello\n".to_string()));
    assert!(commit.deleted.is_empty());
    assert!(commit.filemods.is_empty());
}

#[test]
fn modify_only() {
    let mut repo = repository(&[("/work/a.txt", "one\ntwo\n")]);
    let disk = tree(&[("/work/a.txt", "one\nthree\n")]);
    let commit = Commit::create_at("second", &mut repo, &disk, 200).unwrap();
    assert!(commit.created.is_empty());
    assert!(commit.deleted.is_empty());
    assert_eq!(commit.filemods.len(), 1);
    assert_eq!(commit.filemods[0].fpath, "/work/a.txt");
    // The alignment is: one (both), two (left), three (right), and the empty
    // line behind the final line feed (both). Every entry counts as a line.
    assert_eq!(
        commit.filemods[0].changes,
        vec![
            FileChange { line: 2, change: Change::Deleted },
            FileChange { line: 3, change: Change::Added("three".to_string()) },
        ]
    );
}

#[test]
fn modify_only_replay() {
    let mut repo = repository(&[("/work/a.txt", "one\ntwo\n")]);
    let disk = tree(&[("/work/a.txt", "one\nthree\n")]);
    assert_eq!(repo.commit_at("second", &disk, 200), Ok(()));
    assert_eq!(repo.commits.len(), 2);
    // The addition at line 3 is walked first and raises the offset, so the
    // deletion at line 2 meets the line just added.
    assert_eq!(repo.checkout.get("/work/a.txt"), Some(&"one\ntwo\n".to_string()));
}

#[test]
fn delete_only() {
    let mut repo = repository(&[("/work/a.txt", "a\n"), ("/work/b.txt", "b\n")]);
    let disk = tree(&[("/work/a.txt", "a\n")]);
    let commit = Commit::create_at("third", &mut repo, &disk, 200).unwrap();
    assert!(commit.created.is_empty());
    assert!(commit.filemods.is_empty());
    assert_eq!(commit.deleted, vec!["/work/b.txt".to_string()]);
}

#[test]
fn no_changes() {
    let mut repo = repository(&[("/work/a.txt", "a\n"), ("/work/b.txt", "b\n")]);
    let disk = tree(&[("/work/b.txt", "b\n"), ("/work/a.txt", "a\n")]);
    assert_eq!(
        Commit::create_at("again", &mut repo, &disk, 200).err(),
        Some("There are no changes in the repository".to_string())
    );
    assert_eq!(repo.commit_at("again", &disk, 200), Err(CommitError::NoChanges));
    assert_eq!(repo.commits.len(), 1);
}

#[test]
fn no_changes_leaves_the_metadata_file_aside() {
    let mut repo = repository(&[("/work/a.txt", "a\n")]);
    let disk = tree(&[("/work/a.txt", "a\n"), ("/work/.rvc", "(name: \"demo\")\n")]);
    assert_eq!(repo.commit_at("again", &disk, 200), Err(CommitError::NoChanges));
    assert_eq!(repo.commits.len(), 1);
    assert_eq!(repo.checkout.len(), 1);
}

#[test]
fn commit_keeps_created_deleted_and_modified_apart() {
    let mut repo = repository(&[
        ("/work/keep.txt", "k\n"),
        ("/work/edit.txt", "x\ny\n"),
        ("/work/gone.txt", "g\n"),
    ]);
    let disk = tree(&[
        ("/work/keep.txt", "k\n"),
        ("/work/edit.txt", "x\n"),
        ("/work/new.txt", "n\n"),
    ]);
    let commit = Commit::create_at("mixed", &mut repo, &disk, 200).unwrap();
    assert_eq!(commit.created.len(), 1);
    assert!(commit.created.contains("/work/new.txt"));
    assert_eq!(commit.deleted, vec!["/work/gone.txt".to_string()]);
    assert_eq!(commit.filemods.len(), 1);
    assert_eq!(commit.filemods[0].fpath, "/work/edit.txt");
    for path in &commit.deleted {
        assert!(!commit.created.contains(path));
        assert!(commit.filemods.iter().all(|m| &m.fpath != path));
    }
    for script in &commit.filemods {
        assert!(!commit.created.contains(&script.fpath));
    }
}

#[test]
fn commit_appends_and_replays() {
    let mut repo = repository(&[("/work/a.txt", "one\ntwo\n"), ("/work/b.txt", "b\n")]);
    let disk = tree(&[("/work/a.txt", "one\n"), ("/work/c.txt", "c\n")]);
    assert_eq!(repo.commit_at("second", &disk, 200), Ok(()));
    assert_eq!(repo.commits.len(), 2);
    assert_eq!(repo.commits[1].name, "second");
    assert_eq!(repo.commits[1].timestamp, 200);
    assert_eq!(repo.checkout.len(), 2);
    assert_eq!(repo.checkout.get("/work/a.txt"), Some(&"one\n".to_string()));
    assert_eq!(repo.checkout.get("/work/c.txt"), Some(&"c\n".to_string()));
    assert_eq!(repo.checkout.get("/work/b.txt"), None);
    // Nothing has changed since: a second commit of the same tree is refused.
    assert_eq!(repo.commit_at("third", &disk, 300), Err(CommitError::NoChanges));
    assert_eq!(repo.commits.len(), 2);
}

#[test]
fn commit_that_cannot_be_replayed_changes_nothing() {
    let mut repo = repository(&[("/work/a.txt", "a\n")]);
    // Three additions and one deletion: the first addition walked is at line
    // 4, behind the end of the two lines that the checkout has.
    let disk = tree(&[("/work/a.txt", "b\nc\nd\n")]);
    assert_eq!(repo.commit_at("second", &disk, 200), Err(CommitError::Unreplayable));
    assert_eq!(repo.commits.len(), 1);
    assert_eq!(repo.checkout.get("/work/a.txt"), Some(&"a\n".to_string()));
}

#[test]
fn can_compare_accepts_ordinary_trees() {
    let checkout = tree(&[("/work/a.txt", "one\ntwo\n"), ("/work/b.txt", "b\n")]);
    let disk = tree(&[("/work/a.txt", "one\n"), ("/work/c.txt", "c\n")]);
    assert!(rvc::commit::can_compare(&checkout, &disk, "/work/.rvc"));
    assert!(rvc::commit::can_compare(&FileTree::new(), &disk, "/work/.rvc"));
}
