//! An entry of the list of known repositories.

use vstd::prelude::*;

verus! {

/// A known repository: its name and the path of its root directory.
#[derive(Debug, PartialEq, Eq)]
pub struct Repository {
    pub name: String,
    pub path: String,
}

/// What such an entry stands for.
pub struct RepositoryView {
    pub name: Seq<char>,
    pub path: Seq<char>,
}

impl View for Repository {
    type V = RepositoryView;

    open spec fn view(&self) -> RepositoryView {
        RepositoryView { name: self.name@, path: self.path@ }
    }
}

impl Repository {
    /// The entry for the repository named `name` whose root is at `path`.
    pub fn new(name: &str, path: &str) -> (entry: Repository)
        ensures
            entry@ == (RepositoryView { name: name@, path: path@ }),
    {
        Repository { name: name.to_owned(), path: path.to_owned() }
    }
}

impl Clone for Repository {
    fn clone(&self) -> (copy: Repository)
        ensures
            copy@ == self@,
    {
        Repository { name: self.name.clone(), path: self.path.clone() }
    }
}

} // verus!
