use rvc::dirs::Dirs;
use rvc::rcv::repository::Repository;
use rvc::rcv::Rcv;

fn state() -> Rcv {
    Rcv::new(Dirs {
        working_directory: "/home/u/work".to_string(),
        rcv: "/home/u/.rcv".to_string(),
    })
}

fn entry(name: &str, path: &str) -> Repository {
    Repository { name: name.to_string(), path: path.to_string() }
}

#[test]
fn new_state_knows_no_repository() {
    let rcv = state();
    assert!(!rcv.changed_state);
    assert!(rcv.repositories.is_empty());
    assert_eq!(rcv.dirs.working_directory, "/home/u/work");
    assert_eq!(rcv.dirs.rcv, "/home/u/.rcv");
    assert_eq!(rcv.current_repository(), None);
}

#[test]
fn repository_new_keeps_name_and_path() {
    assert_eq!(Repository::new("demo", "/srv/demo"), entry("demo", "/srv/demo"));
    assert_eq!(entry("demo", "/srv/demo").clone(), entry("demo", "/srv/demo"));
}

#[test]
fn create_repository_adds_at_the_given_path() {
    let mut rcv = state();
    assert!(rcv.create_repository("one", &Some("/srv/one".to_string())));
    assert!(rcv.changed_state);
    assert_eq!(rcv.repositories, vec![entry("one", "/srv/one")]);
    assert_eq!(rcv.current_repository(), None);
}

#[test]
fn create_repository_defaults_to_the_working_directory() {
    let mut rcv = state();
    assert!(rcv.create_repository("here", &None));
    assert_eq!(rcv.repositories, vec![entry("here", "/home/u/work")]);
    assert_eq!(rcv.current_repository(), Some(entry("here", "/home/u/work")));
}

#[test]
fn create_repository_refuses_a_taken_path() {
    let mut rcv = state();
    assert!(rcv.create_repository("one", &Some("/srv/one".to_string())));
    rcv.changed_state = false;
    assert!(!rcv.create_repository("two", &Some("/srv/one".to_string())));
    assert!(!rcv.changed_state);
    assert_eq!(rcv.repositories, vec![entry("one", "/srv/one")]);
    assert!(rcv.create_repository("one", &Some("/srv/other".to_string())));
    assert_eq!(rcv.repositories.len(), 2);
}

#[test]
fn delete_repository_takes_the_first_of_that_name() {
    let mut rcv = state();
    rcv.repositories = vec![entry("a", "/1"), entry("b", "/2"), entry("a", "/3")];
    assert!(rcv.delete_repository("a"));
    assert!(rcv.changed_state);
    assert_eq!(rcv.repositories, vec![entry("b", "/2"), entry("a", "/3")]);
    rcv.changed_state = false;
    assert!(!rcv.delete_repository("zz"));
    assert!(!rcv.changed_state);
    assert_eq!(rcv.repositories.len(), 2);
}

#[test]
fn current_repository_is_the_first_at_the_working_directory() {
    let mut rcv = state();
    rcv.repositories =
        vec![entry("a", "/1"), entry("b", "/home/u/work"), entry("c", "/home/u/work")];
    assert_eq!(rcv.current_repository(), Some(entry("b", "/home/u/work")));
}
