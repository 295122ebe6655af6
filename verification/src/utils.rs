//! What is done with a file's text once it has been read, and the walk over
//! a directory tree, one listing at a time.

use crate::seqs::views;
use crate::text::line_feed;
use vstd::prelude::*;

verus! {

/// The text that a file with the raw text `raw` is taken to hold: `raw`
/// itself if it ends in a line feed, else `raw` with a line feed added. The
/// empty text becomes a single line feed.
pub open spec fn loaded(raw: Seq<char>) -> Seq<char> {
    if raw.len() == 0 || raw.last() != line_feed() {
        raw.push(line_feed())
    } else {
        raw
    }
}

/// Completes the raw text that has been read from a file: a line feed is
/// added where the text is empty or does not end in one.
pub fn load_file(raw: String) -> (text: String)
    ensures
        text@ == loaded(raw@),
{
    let length = raw.as_str().unicode_len();
    if length == 0 || raw.as_str().get_char(length - 1) != '\n' {
        proof {
            reveal_strlit("\n");
        }
        let text = raw.concat("\n");
        assert(text@ =~= raw@.push(line_feed()));
        text
    } else {
        raw
    }
}

/// One entry of the listing of a directory.
#[derive(Debug, PartialEq, Eq)]
pub struct DirEntry {
    /// The path of the entry.
    pub path: String,
    /// Whether the entry is a directory.
    pub is_dir: bool,
}

/// What a `DirEntry` stands for.
pub struct DirEntryView {
    pub path: Seq<char>,
    pub is_dir: bool,
}

impl View for DirEntry {
    type V = DirEntryView;

    open spec fn view(&self) -> DirEntryView {
        DirEntryView { path: self.path@, is_dir: self.is_dir }
    }
}

impl Clone for DirEntry {
    fn clone(&self) -> (copy: DirEntry)
        ensures
            copy@ == self@,
    {
        DirEntry { path: self.path.clone(), is_dir: self.is_dir }
    }
}

/// A directory that waits to be listed, with the number of directories
/// between it and the root of the walk.
#[derive(Debug, PartialEq, Eq)]
pub struct Pending {
    pub path: String,
    pub depth: usize,
}

/// What a `Pending` stands for.
pub struct PendingView {
    pub path: Seq<char>,
    pub depth: nat,
}

impl View for Pending {
    type V = PendingView;

    open spec fn view(&self) -> PendingView {
        PendingView { path: self.path@, depth: self.depth as nat }
    }
}

impl Clone for Pending {
    fn clone(&self) -> (copy: Pending)
        ensures
            copy@ == self@,
    {
        Pending { path: self.path.clone(), depth: self.depth }
    }
}

/// A walk over a directory tree that is under way.
///
/// The walk itself reads nothing. It says which directory is to be listed
/// next, takes the listing, and keeps the files found so far and the
/// directories that are still to be listed. A directory that lies deeper than
/// `limit` directories below the root is not listed but kept in `refused`, so
/// that a tree that leads back into itself ends the walk.
#[derive(Debug, PartialEq, Eq)]
pub struct Walk {
    /// The directories still to be listed; the last one is listed next.
    pub pending: Vec<Pending>,
    /// The files found so far.
    pub files: Vec<String>,
    /// The directories that lie too deep to be listed.
    pub refused: Vec<String>,
    /// The depth below which no directory is listed.
    pub limit: usize,
}

/// What a `Walk` stands for.
pub struct WalkView {
    pub pending: Seq<PendingView>,
    pub files: Seq<Seq<char>>,
    pub refused: Seq<Seq<char>>,
    pub limit: nat,
}

impl View for Walk {
    type V = WalkView;

    open spec fn view(&self) -> WalkView {
        WalkView {
            pending: views(self.pending@),
            files: views(self.files@),
            refused: views(self.refused@),
            limit: self.limit as nat,
        }
    }
}

impl Clone for Walk {
    fn clone(&self) -> (copy: Walk)
        ensures
            copy@ == self@,
    {
        let pending = self.pending.clone();
        let files = self.files.clone();
        let refused = self.refused.clone();
        proof {
            assert forall|i: int| 0 <= i < pending.len() implies pending@[i]@
                == self.pending@[i]@ by {
                assert(cloned::<Pending>(self.pending@[i], pending@[i]));
            }
            assert(views(pending@) =~= views(self.pending@));
            assert forall|i: int| 0 <= i < files.len() implies files@[i]@ == self.files@[i]@ by {
                assert(cloned::<String>(self.files@[i], files@[i]));
            }
            assert(views(files@) =~= views(self.files@));
            assert forall|i: int| 0 <= i < refused.len() implies refused@[i]@
                == self.refused@[i]@ by {
                assert(cloned::<String>(self.refused@[i], refused@[i]));
            }
            assert(views(refused@) =~= views(self.refused@));
        }
        Walk { pending, files, refused, limit: self.limit }
    }
}

/// The paths of the entries of `entries` that are directories, if
/// `directories` holds, or that are none, if it does not, in order.
pub open spec fn paths_of_kind(entries: Seq<DirEntryView>, directories: bool) -> Seq<Seq<char>>
    decreases entries.len(),
{
    if entries.len() == 0 {
        Seq::<Seq<char>>::empty()
    } else if entries.last().is_dir == directories {
        paths_of_kind(entries.drop_last(), directories).push(entries.last().path)
    } else {
        paths_of_kind(entries.drop_last(), directories)
    }
}

/// The directories of `paths` as they wait at `depth`.
pub open spec fn waiting_at(paths: Seq<Seq<char>>, depth: nat) -> Seq<PendingView> {
    Seq::new(paths.len(), |i: int| PendingView { path: paths[i], depth })
}

/// The walk after the directory that was to be listed next has been listed
/// with `entries`: that directory no longer waits, the entries that are no
/// directories are files found, and those that are directories wait to be
/// listed, one level deeper, or are refused where that level is beyond the
/// limit.
pub open spec fn walk_step(walk: WalkView, entries: Seq<DirEntryView>) -> WalkView {
    let listed = walk.pending.last();
    let below = paths_of_kind(entries, true);
    let deeper = listed.depth + 1 <= walk.limit;
    WalkView {
        pending: if deeper {
            walk.pending.drop_last() + waiting_at(below, listed.depth + 1)
        } else {
            walk.pending.drop_last()
        },
        files: walk.files + paths_of_kind(entries, false),
        refused: if deeper {
            walk.refused
        } else {
            walk.refused + below
        },
        limit: walk.limit,
    }
}

/// Starts the walk over the tree under `dir`. There is no walk where `dir` is
/// no directory.
pub fn walk_dir(dir: String, is_dir: bool, limit: usize) -> (walk: Option<Walk>)
    ensures
        walk is Some == is_dir,
        is_dir ==> walk->0@ == (WalkView {
            pending: seq![PendingView { path: dir@, depth: 0 }],
            files: Seq::<Seq<char>>::empty(),
            refused: Seq::<Seq<char>>::empty(),
            limit: limit as nat,
        }),
{
    if is_dir {
        let mut pending: Vec<Pending> = Vec::new();
        pending.push(Pending { path: dir, depth: 0 });
        let walk = Walk { pending, files: Vec::new(), refused: Vec::new(), limit };
        proof {
            assert(walk@.pending =~= seq![PendingView { path: dir@, depth: 0 }]);
            assert(walk@.files =~= Seq::<Seq<char>>::empty());
            assert(walk@.refused =~= Seq::<Seq<char>>::empty());
        }
        Some(walk)
    } else {
        None
    }
}

impl Walk {
    /// The directory to be listed next, or nothing when the walk is over.
    pub fn next_directory(&self) -> (next: Option<&String>)
        ensures
            match next {
                Some(path) => self@.pending.len() > 0 && path@ == self@.pending.last().path,
                None => self@.pending.len() == 0,
            },
    {
        let waiting = self.pending.len();
        if waiting == 0 {
            None
        } else {
            Some(&self.pending[waiting - 1].path)
        }
    }

    /// Takes the listing of the directory that was to be listed next.
    pub fn listed(&mut self, entries: Vec<DirEntry>)
        requires
            old(self)@.pending.len() > 0,
        ensures
            final(self)@ == walk_step(old(self)@, views(entries@)),
    {
        let ghost before = self@;
        let ghost listing = views(entries@);
        let waiting = self.pending.len();
        let depth = self.pending[waiting - 1].depth;
        self.pending.truncate(waiting - 1);
        let deeper = depth < self.limit;
        proof {
            assert(self@.pending =~= before.pending.drop_last());
            assert(deeper == (before.pending.last().depth + 1 <= before.limit));
            assert(listing.take(0) =~= Seq::<DirEntryView>::empty());
            assert(self@.pending =~= before.pending.drop_last() + waiting_at(
                paths_of_kind(listing.take(0), true),
                (depth + 1) as nat,
            ));
            assert(self@.refused =~= before.refused + paths_of_kind(listing.take(0), true));
            assert(self@.files =~= before.files + paths_of_kind(listing.take(0), false));
        }
        let mut i: usize = 0;
        while i < entries.len()
            invariant
                i <= entries.len(),
                listing == views(entries@),
                self.limit == before.limit,
                deeper == (depth < self.limit),
                self@.files == before.files + paths_of_kind(listing.take(i as int), false),
                deeper ==> self@.pending == before.pending.drop_last() + waiting_at(
                    paths_of_kind(listing.take(i as int), true),
                    (depth + 1) as nat,
                ),
                deeper ==> self@.refused == before.refused,
                !deeper ==> self@.pending == before.pending.drop_last(),
                !deeper ==> self@.refused == before.refused + paths_of_kind(
                    listing.take(i as int),
                    true,
                ),
            decreases entries.len() - i,
        {
            let ghost seen = listing.take(i as int);
            let ghost next = listing.take(i + 1);
            let ghost held = self@;
            proof {
                assert(next.drop_last() =~= seen);
                assert(next.last() == entries@[i as int]@);
            }
            let entry = &entries[i];
            if entry.is_dir {
                if deeper {
                    self.pending.push(Pending { path: entry.path.clone(), depth: depth + 1 });
                    proof {
                        assert(self@.pending =~= held.pending.push(
                            PendingView { path: entry.path@, depth: (depth + 1) as nat },
                        ));
                        assert(self@.pending =~= before.pending.drop_last() + waiting_at(
                            paths_of_kind(next, true),
                            (depth + 1) as nat,
                        ));
                    }
                } else {
                    self.refused.push(entry.path.clone());
                    proof {
                        assert(self@.refused =~= held.refused.push(entry.path@));
                        assert(self@.refused =~= before.refused + paths_of_kind(next, true));
                    }
                }
            } else {
                self.files.push(entry.path.clone());
                proof {
                    assert(self@.files =~= held.files.push(entry.path@));
                    assert(self@.files =~= before.files + paths_of_kind(next, false));
                }
            }
            i += 1;
        }
        proof {
            assert(listing.take(entries.len() as int) =~= listing);
        }
    }

    /// Whether the walk is over and has listed every directory that it met.
    pub fn is_complete(&self) -> (complete: bool)
        ensures
            complete == (self@.pending.len() == 0 && self@.refused.len() == 0),
    {
        self.pending.len() == 0 && self.refused.len() == 0
    }
}

} // verus!
