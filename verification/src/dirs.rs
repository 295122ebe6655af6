//! The directories that a run of the program works with.

use vstd::prelude::*;

verus! {

/// The directory in which the program was started, and the path of the file
/// in which the list of known repositories is kept.
#[derive(Debug, PartialEq, Eq)]
pub struct Dirs {
    pub working_directory: String,
    pub rcv: String,
}

/// What a `Dirs` stands for.
pub struct DirsView {
    pub working_directory: Seq<char>,
    pub rcv: Seq<char>,
}

impl View for Dirs {
    type V = DirsView;

    open spec fn view(&self) -> DirsView {
        DirsView { working_directory: self.working_directory@, rcv: self.rcv@ }
    }
}

impl Clone for Dirs {
    fn clone(&self) -> (copy: Dirs)
        ensures
            copy@ == self@,
    {
        Dirs { working_directory: self.working_directory.clone(), rcv: self.rcv.clone() }
    }
}

} // verus!
