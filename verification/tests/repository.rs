use rvc::commit::Commit;
use rvc::patch::{Change, FileChange, FileMod};
use rvc::repository::{replay, Repository};
use rvc::tree::FileTree;

fn files(entries: &[(&str, &str)]) -> FileTree {
    let mut tree = FileTree::new();
    for (path, content) in entries {
        tree.insert(path.to_string(), content.to_string());
    }
    tree
}

fn creating(entries: &[(&str, &str)]) -> Commit {
    Commit::from_data_at(files(entries), 1)
}

#[test]
fn rvc_path_is_the_file_under_the_root() {
    let repo = Repository::create_at("demo", "/work".to_string(), Some(FileTree::new()), 1).unwrap();
    assert_eq!(repo.rvc_path(), "/work/.rvc");
    let at_root = Repository::create_at("demo", "/".to_string(), Some(FileTree::new()), 1).unwrap();
    assert_eq!(at_root.rvc_path(), "/.rvc");
    let nowhere = Repository::create_at("demo", String::new(), Some(FileTree::new()), 1).unwrap();
    assert_eq!(nowhere.rvc_path(), ".rvc");
}

#[test]
fn create_starts_with_the_init_commit() {
    let disk = files(&[("/work/a.txt", "a\n"), ("/work/d/b.txt", "b\n")]);
    let repo = Repository::create_at("demo", "/work".to_string(), Some(disk), 42).unwrap();
    assert_eq!(repo.name, "demo");
    assert_eq!(repo.path, "/work");
    assert_eq!(repo.commits.len(), 1);
    assert_eq!(repo.commits[0].name, "init");
    assert_eq!(repo.commits[0].timestamp, 42);
    assert_eq!(repo.commits[0].created.len(), 2);
    assert!(repo.commits[0].deleted.is_empty());
    assert!(repo.commits[0].filemods.is_empty());
    assert_eq!(repo.checkout.len(), 2);
    assert_eq!(repo.checkout.get("/work/a.txt"), Some(&"a\n".to_string()));
    assert_eq!(repo.checkout.get("/work/d/b.txt"), Some(&"b\n".to_string()));
}

#[test]
fn create_accepts_a_directory_without_files() {
    let repo = Repository::create_at("demo", "/work".to_string(), Some(FileTree::new()), 42).unwrap();
    assert_eq!(repo.commits.len(), 1);
    assert_eq!(repo.commits[0].name, "init");
    assert!(repo.commits[0].created.is_empty());
    assert!(repo.checkout.is_empty());
}

#[test]
fn create_refuses_what_is_no_directory() {
    let refused = Repository::create_at("demo", "/work".to_string(), None, 42);
    assert_eq!(refused.err(), Some("The path is not valid".to_string()));
}

#[test]
fn create_refuses_a_directory_with_a_repository() {
    let disk = files(&[("/work/a.txt", "a\n"), ("/work/.rvc", "()\n")]);
    let refused = Repository::create_at("demo", "/work".to_string(), Some(disk), 42);
    assert_eq!(refused.err(), Some("A repository already exists in the given path".to_string()));
}

#[test]
fn replay_of_an_empty_log_is_empty() {
    let log: Vec<Commit> = Vec::new();
    assert!(replay(&log, 0).unwrap().is_empty());
    assert!(replay(&log, 1).is_none());
}

#[test]
fn replay_creates_deletes_and_patches_in_turn() {
    let mut second = creating(&[("b", "new\n")]);
    second.deleted.push("a".to_string());
    second.filemods.push(FileMod {
        fpath: "c".to_string(),
        changes: vec![FileChange { line: 2, change: Change::Added("two".to_string()) }],
    });
    let log = vec![creating(&[("a", "a\n"), ("b", "old\n"), ("c", "one\n")]), second];

    let first = replay(&log, 1).unwrap();
    assert_eq!(first.len(), 3);
    assert_eq!(first.get("b"), Some(&"old\n".to_string()));

    let latest = replay(&log, 2).unwrap();
    assert_eq!(latest.len(), 2);
    assert_eq!(latest.get("a"), None);
    assert_eq!(latest.get("b"), Some(&"new\n".to_string()));
    assert_eq!(latest.get("c"), Some(&"one\ntwo\n".to_string()));
}

#[test]
fn replay_deletes_a_file_that_the_same_commit_creates() {
    let mut commit = creating(&[("a", "a\n")]);
    commit.deleted.push("a".to_string());
    assert!(replay(&vec![commit], 1).unwrap().is_empty());
}

#[test]
fn replay_twice_gives_the_same_files() {
    let mut second = creating(&[("b", "b\n")]);
    second.deleted.push("a".to_string());
    let log = vec![creating(&[("a", "a\n"), ("c", "c\n")]), second];
    for count in 0..=2 {
        let once = replay(&log, count).unwrap();
        let twice = replay(&log, count).unwrap();
        assert!(once.same_files(&twice));
    }
}

#[test]
fn replay_fails_on_a_script_for_a_missing_file() {
    let mut commit = creating(&[("a", "a\n")]);
    commit.filemods.push(FileMod {
        fpath: "b".to_string(),
        changes: vec![FileChange { line: 1, change: Change::Deleted }],
    });
    let log = vec![commit, creating(&[("c", "c\n")])];
    assert!(replay(&log, 1).is_none());
    assert!(replay(&log, 2).is_none());
}

#[test]
fn replay_fails_on_an_edit_without_a_place() {
    let mut commit = creating(&[("a", "a\n")]);
    commit.filemods.push(FileMod {
        fpath: "a".to_string(),
        changes: vec![FileChange { line: 3, change: Change::Deleted }],
    });
    assert!(replay(&vec![commit], 1).is_none());
}

#[test]
fn checkout_goes_back_and_forth() {
    let mut repo =
        Repository::create_at("demo", "/work".to_string(), Some(files(&[("/work/a", "a\n")])), 1)
            .unwrap();
    repo.push_commit(creating(&[("/work/b", "b\n")]));
    assert_eq!(repo.commits.len(), 2);
    assert_eq!(repo.checkout.len(), 1);
    repo.checkout_lastest();
    assert_eq!(repo.checkout.len(), 2);
    repo.checkout(0);
    assert_eq!(repo.checkout.len(), 1);
    assert_eq!(repo.checkout.get("/work/a"), Some(&"a\n".to_string()));
    repo.checkout(0);
    assert_eq!(repo.checkout.len(), 1);
    repo.checkout(1);
    assert_eq!(repo.checkout.get("/work/b"), Some(&"b\n".to_string()));
}

#[test]
fn try_checkout_refuses_what_cannot_be_checked_out() {
    let mut repo =
        Repository::create_at("demo", "/work".to_string(), Some(files(&[("/work/a", "a\n")])), 1)
            .unwrap();
    assert!(!repo.try_checkout(1));
    assert_eq!(repo.checkout.len(), 1);
    let mut broken = creating(&[]);
    broken.filemods.push(FileMod { fpath: "/work/zz".to_string(), changes: Vec::new() });
    repo.push_commit(broken);
    assert!(!repo.try_checkout(1));
    assert!(repo.try_checkout(0));
    assert_eq!(repo.checkout.get("/work/a"), Some(&"a\n".to_string()));
}

#[test]
fn from_data_creates_and_does_nothing_else() {
    let commit = Commit::from_data_at(files(&[("a", "a\n")]), 77);
    assert_eq!(commit.name, "");
    assert_eq!(commit.timestamp, 77);
    assert_eq!(commit.created.get("a"), Some(&"a\n".to_string()));
    assert!(commit.deleted.is_empty());
    assert!(commit.filemods.is_empty());
}

#[test]
fn new_repository_is_empty() {
    let repo = Repository::new("demo", "/work".to_string());
    assert_eq!(repo.name, "demo");
    assert_eq!(repo.path, "/work");
    assert!(repo.commits.is_empty());
    assert!(repo.checkout.is_empty());
    assert!(!repo.clone().try_checkout(0));
}

#[test]
fn from_data_reads_the_clock() {
    let commit = Commit::from_data(files(&[("a", "a\n")]));
    assert_eq!(commit.name, "");
    assert!(commit.timestamp > 0);
    assert_eq!(commit.created.get("a"), Some(&"a\n".to_string()));
    assert!(commit.deleted.is_empty());
    assert!(commit.filemods.is_empty());
}

#[test]
fn create_and_commit_read_the_clock() {
    let mut repo =
        Repository::create("demo", "/work".to_string(), Some(files(&[("/work/a", "a\n")])))
            .unwrap();
    assert_eq!(repo.commits.len(), 1);
    assert_eq!(repo.commits[0].name, "init");
    assert!(repo.commits[0].timestamp > 0);
    assert_eq!(repo.checkout.get("/work/a"), Some(&"a\n".to_string()));

    let disk = files(&[("/work/a", "a\n"), ("/work/b", "b\n")]);
    let made = Commit::create("second", &mut repo, &disk).unwrap();
    assert_eq!(made.name, "second");
    assert!(made.timestamp > 0);
    assert!(made.created.contains("/work/b"));

    assert_eq!(repo.commit("second", &disk), Ok(()));
    assert_eq!(repo.commits.len(), 2);
    assert!(repo.commits[1].timestamp > 0);
    assert_eq!(repo.checkout.len(), 2);
    assert_eq!(repo.commit("third", &disk), Err(rvc::repository::CommitError::NoChanges));
    assert_eq!(
        Commit::create("third", &mut repo, &disk).err(),
        Some("There are no changes in the repository".to_string())
    );
}
