//! The list of the repositories that are known on this machine.

pub mod repository;

use crate::dirs::{Dirs, DirsView};
use crate::rcv::repository::{Repository, RepositoryView};
use crate::seqs::views;
use vstd::prelude::*;

verus! {

/// The state of the program between two runs: the directories of this run,
/// whether the list has changed since it was read, and the known repositories
/// in the order in which they were added.
#[derive(Debug, PartialEq, Eq)]
pub struct Rcv {
    pub dirs: Dirs,
    pub changed_state: bool,
    pub repositories: Vec<Repository>,
}

/// What an `Rcv` stands for.
pub struct RcvView {
    pub dirs: DirsView,
    pub changed_state: bool,
    pub repositories: Seq<RepositoryView>,
}

impl View for Rcv {
    type V = RcvView;

    open spec fn view(&self) -> RcvView {
        RcvView {
            dirs: self.dirs@,
            changed_state: self.changed_state,
            repositories: views(self.repositories@),
        }
    }
}

impl Clone for Rcv {
    fn clone(&self) -> (copy: Rcv)
        ensures
            copy@ == self@,
    {
        let repositories = self.repositories.clone();
        proof {
            assert forall|i: int| 0 <= i < repositories.len() implies repositories@[i]@
                == self.repositories@[i]@ by {
                assert(cloned::<Repository>(self.repositories@[i], repositories@[i]));
            }
            assert(views(repositories@) =~= views(self.repositories@));
        }
        Rcv { dirs: self.dirs.clone(), changed_state: self.changed_state, repositories }
    }
}

/// The place of the first of `repositories` whose root is at `path`, or
/// their number where none is.
pub open spec fn place_of_path(repositories: Seq<RepositoryView>, path: Seq<char>) -> int
    decreases repositories.len(),
{
    if repositories.len() == 0 {
        0
    } else if repositories.first().path == path {
        0
    } else {
        1 + place_of_path(repositories.drop_first(), path)
    }
}

/// The place of the first of `repositories` that is named `name`, or their
/// number where none is.
pub open spec fn place_of_name(repositories: Seq<RepositoryView>, name: Seq<char>) -> int
    decreases repositories.len(),
{
    if repositories.len() == 0 {
        0
    } else if repositories.first().name == name {
        0
    } else {
        1 + place_of_name(repositories.drop_first(), name)
    }
}

proof fn lemma_place_of_path(repositories: Seq<RepositoryView>, path: Seq<char>, seen: int)
    requires
        0 <= seen <= repositories.len(),
        forall|j: int| 0 <= j < seen ==> repositories[j].path != path,
        seen < repositories.len() ==> repositories[seen].path == path,
    ensures
        place_of_path(repositories, path) == seen,
    decreases seen,
{
    if seen > 0 {
        let rest = repositories.drop_first();
        assert forall|j: int| 0 <= j < seen - 1 implies rest[j].path != path by {
            assert(rest[j] == repositories[j + 1]);
        }
        lemma_place_of_path(rest, path, seen - 1);
    }
}

proof fn lemma_place_of_name(repositories: Seq<RepositoryView>, name: Seq<char>, seen: int)
    requires
        0 <= seen <= repositories.len(),
        forall|j: int| 0 <= j < seen ==> repositories[j].name != name,
        seen < repositories.len() ==> repositories[seen].name == name,
    ensures
        place_of_name(repositories, name) == seen,
    decreases seen,
{
    if seen > 0 {
        let rest = repositories.drop_first();
        assert forall|j: int| 0 <= j < seen - 1 implies rest[j].name != name by {
            assert(rest[j] == repositories[j + 1]);
        }
        lemma_place_of_name(rest, name, seen - 1);
    }
}

impl Rcv {
    /// The state without any repository, for the directories `dirs`.
    pub fn new(dirs: Dirs) -> (state: Rcv)
        ensures
            state@ == (RcvView {
                dirs: dirs@,
                changed_state: false,
                repositories: Seq::<RepositoryView>::empty(),
            }),
    {
        let state = Rcv { dirs, changed_state: false, repositories: Vec::new() };
        assert(state@.repositories =~= Seq::<RepositoryView>::empty());
        state
    }

    /// The place of the first repository whose root is at `path`.
    fn find_path(&self, path: &String) -> (place: usize)
        ensures
            place == place_of_path(self@.repositories, path@),
            place <= self.repositories@.len(),
    {
        let mut i: usize = 0;
        while i < self.repositories.len()
            invariant
                i <= self.repositories@.len(),
                forall|j: int| 0 <= j < i ==> self@.repositories[j].path != path@,
            decreases self.repositories@.len() - i,
        {
            if self.repositories[i].path == *path {
                proof {
                    lemma_place_of_path(self@.repositories, path@, i as int);
                }
                return i;
            }
            i += 1;
        }
        proof {
            lemma_place_of_path(self@.repositories, path@, i as int);
        }
        i
    }

    /// Adds the repository named `name` whose root is at `path`, or at the
    /// working directory where `path` is `None`, and says whether it did: a
    /// root that a known repository has already is not taken a second time.
    pub fn create_repository(&mut self, name: &str, path: &Option<String>) -> (created: bool)
        ensures
            ({
                let root = match path {
                    Some(given) => given@,
                    None => old(self)@.dirs.working_directory,
                };
                let known = old(self)@.repositories;
                &&& created == (place_of_path(known, root) == known.len())
                &&& created ==> final(self)@ == (RcvView {
                    changed_state: true,
                    repositories: known.push(RepositoryView { name: name@, path: root }),
                    ..old(self)@
                })
                &&& !created ==> final(self)@ == old(self)@
            }),
    {
        let root = match path {
            Some(given) => given.clone(),
            None => self.dirs.working_directory.clone(),
        };
        if self.find_path(&root) == self.repositories.len() {
            let ghost known = self@.repositories;
            self.changed_state = true;
            self.repositories.push(Repository::new(name, root.as_str()));
            proof {
                assert(self@.repositories =~= known.push(
                    RepositoryView { name: name@, path: root@ },
                ));
            }
            true
        } else {
            false
        }
    }

    /// Takes the first repository named `name` off the list, and says whether
    /// there was one.
    pub fn delete_repository(&mut self, name: &str) -> (deleted: bool)
        ensures
            ({
                let known = old(self)@.repositories;
                let place = place_of_name(known, name@);
                &&& deleted == (place < known.len())
                &&& deleted ==> final(self)@ == (RcvView {
                    changed_state: true,
                    repositories: known.remove(place),
                    ..old(self)@
                })
                &&& !deleted ==> final(self)@ == old(self)@
            }),
    {
        let wanted = name.to_owned();
        let mut i: usize = 0;
        while i < self.repositories.len()
            invariant
                i <= self.repositories@.len(),
                *self == *old(self),
                wanted@ == name@,
                forall|j: int| 0 <= j < i ==> self@.repositories[j].name != name@,
            decreases self.repositories@.len() - i,
        {
            if self.repositories[i].name == wanted {
                let ghost known = self@.repositories;
                proof {
                    lemma_place_of_name(known, name@, i as int);
                }
                self.changed_state = true;
                self.repositories.remove(i);
                proof {
                    assert(self@.repositories =~= known.remove(i as int));
                }
                return true;
            }
            i += 1;
        }
        proof {
            lemma_place_of_name(self@.repositories, name@, i as int);
        }
        false
    }

    /// A copy of the first repository whose root is the working directory,
    /// if there is one.
    pub fn current_repository(&self) -> (current: Option<Repository>)
        ensures
            ({
                let known = self@.repositories;
                let place = place_of_path(known, self@.dirs.working_directory);
                match current {
                    Some(entry) => place < known.len() && entry@ == known[place],
                    None => place == known.len(),
                }
            }),
    {
        let place = self.find_path(&self.dirs.working_directory);
        if place < self.repositories.len() {
            Some(self.repositories[place].clone())
        } else {
            None
        }
    }
}

} // verus!
