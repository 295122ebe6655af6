//! Commits: what has changed between the last checkout and the tree on disk.

use crate::align::{all_kept, diff_fits, differ_lines, fits_diff, line_alignment, str_diff};
use crate::patch::{changes_from, FileChangeView, FileMod, FileModView};
use crate::repository::{metadata_path, Repository};
use crate::seqs::{lemma_take_next, views};
use crate::tree::FileTree;
use chrono::Utc;
use vstd::prelude::*;

verus! {

/// A named record of the difference between two snapshots: the files that
/// have come, with their content, the paths that are gone, and the edit
/// scripts of the files that both snapshots have with different content.
#[derive(Debug, PartialEq, Eq, Default)]
pub struct Commit {
    pub name: String,
    pub timestamp: i64,
    pub filemods: Vec<FileMod>,
    pub created: FileTree,
    pub deleted: Vec<String>,
}

/// What a `Commit` stands for.
pub struct CommitView {
    pub name: Seq<char>,
    pub timestamp: int,
    pub filemods: Seq<FileModView>,
    pub created: Map<Seq<char>, Seq<char>>,
    pub deleted: Seq<Seq<char>>,
}

impl View for Commit {
    type V = CommitView;

    open spec fn view(&self) -> CommitView {
        CommitView {
            name: self.name@,
            timestamp: self.timestamp as int,
            filemods: views(self.filemods@),
            created: self.created@,
            deleted: views(self.deleted@),
        }
    }
}

impl Clone for Commit {
    fn clone(&self) -> (copy: Commit)
        ensures
            copy@ == self@,
    {
        let filemods = self.filemods.clone();
        let deleted = self.deleted.clone();
        proof {
            assert forall|i: int| 0 <= i < filemods.len() implies filemods@[i]@
                == self.filemods@[i]@ by {
                assert(cloned::<FileMod>(self.filemods@[i], filemods@[i]));
            }
            assert(views(filemods@) =~= views(self.filemods@));
            assert forall|i: int| 0 <= i < deleted.len() implies deleted@[i]@
                == self.deleted@[i]@ by {
                assert(cloned::<String>(self.deleted@[i], deleted@[i]));
            }
            assert(views(deleted@) =~= views(self.deleted@));
        }
        Commit {
            name: self.name.clone(),
            timestamp: self.timestamp,
            filemods,
            created: self.created.clone(),
            deleted,
        }
    }
}

impl CommitView {
    /// Whether one of the edit scripts is for `path`.
    pub open spec fn modifies(self, path: Seq<char>) -> bool {
        exists|i: int| 0 <= i < self.filemods.len() && (#[trigger] self.filemods[i]).fpath == path
    }

    /// Whether no path is at once among the created, the deleted and the
    /// modified files, or among two of them.
    pub open spec fn keeps_apart(self) -> bool {
        &&& forall|path: Seq<char>| #[trigger]
            self.created.contains_key(path) ==> !self.deleted.contains(path)
        &&& forall|i: int|
            0 <= i < self.filemods.len() ==> {
                &&& !self.created.contains_key((#[trigger] self.filemods[i]).fpath)
                &&& !self.deleted.contains(self.filemods[i].fpath)
            }
    }

    /// Whether the commit records no change at all.
    pub open spec fn is_void(self) -> bool {
        &&& self.created == Map::<Seq<char>, Seq<char>>::empty()
        &&& self.deleted.len() == 0
        &&& self.filemods.len() == 0
    }
}

/// Whether `path` is a file that the snapshot `current` has, the snapshot `prior`
/// has not, and that is not the file at `metadata`.
pub open spec fn is_created(
    prior: Map<Seq<char>, Seq<char>>,
    current: Map<Seq<char>, Seq<char>>,
    metadata: Seq<char>,
    path: Seq<char>,
) -> bool {
    path != metadata && current.contains_key(path) && !prior.contains_key(path)
}

/// The files that `current` has and `prior` has not, but for the one at `metadata`.
pub open spec fn created_between(
    prior: Map<Seq<char>, Seq<char>>,
    current: Map<Seq<char>, Seq<char>>,
    metadata: Seq<char>,
) -> Map<Seq<char>, Seq<char>> {
    Map::new(
        |path: Seq<char>| is_created(prior, current, metadata, path),
        |path: Seq<char>| current[path],
    )
}

/// Whether `path` is a file that `prior` has, `current` has not, and that is not
/// the file at `metadata`.
pub open spec fn is_deleted(
    prior: Map<Seq<char>, Seq<char>>,
    current: Map<Seq<char>, Seq<char>>,
    metadata: Seq<char>,
    path: Seq<char>,
) -> bool {
    path != metadata && prior.contains_key(path) && !current.contains_key(path)
}

/// Whether both snapshots have a file at `path`, which is not the one at
/// `metadata`.
pub open spec fn is_common(
    prior: Map<Seq<char>, Seq<char>>,
    current: Map<Seq<char>, Seq<char>>,
    metadata: Seq<char>,
    path: Seq<char>,
) -> bool {
    path != metadata && prior.contains_key(path) && current.contains_key(path)
}

/// The edits that lead from the content that `prior` has at `path` to the one
/// that `current` has there.
pub open spec fn edits_between(
    prior: Map<Seq<char>, Seq<char>>,
    current: Map<Seq<char>, Seq<char>>,
    path: Seq<char>,
) -> Seq<FileChangeView> {
    changes_from(line_alignment(prior[path], current[path]))
}

/// Whether both snapshots have the file at `path` and the differ finds an
/// edit between its two contents.
pub open spec fn is_modified(
    prior: Map<Seq<char>, Seq<char>>,
    current: Map<Seq<char>, Seq<char>>,
    metadata: Seq<char>,
    path: Seq<char>,
) -> bool {
    is_common(prior, current, metadata, path) && edits_between(prior, current, path).len() > 0
}

/// Whether the differ can be run on every file that both snapshots have.
pub open spec fn comparable(
    prior: Map<Seq<char>, Seq<char>>,
    current: Map<Seq<char>, Seq<char>>,
    metadata: Seq<char>,
) -> bool {
    forall|path: Seq<char>| #[trigger]
        is_common(prior, current, metadata, path) ==> diff_fits(prior[path], current[path])
}

/// Whether nothing has changed between the two snapshots: no file has come,
/// none is gone, and the differ finds no edit in any file that both have.
pub open spec fn no_difference(
    prior: Map<Seq<char>, Seq<char>>,
    current: Map<Seq<char>, Seq<char>>,
    metadata: Seq<char>,
) -> bool {
    &&& forall|path: Seq<char>| !#[trigger] is_created(prior, current, metadata, path)
    &&& forall|path: Seq<char>| !#[trigger] is_deleted(prior, current, metadata, path)
    &&& forall|path: Seq<char>| !#[trigger] is_modified(prior, current, metadata, path)
}

/// Whether the scripts of `filemods` are those of the modified files among
/// `among`: one script for each such file, with the edits that the differ
/// finds, and no other script.
pub open spec fn scripts_cover(
    filemods: Seq<FileModView>,
    prior: Map<Seq<char>, Seq<char>>,
    current: Map<Seq<char>, Seq<char>>,
    metadata: Seq<char>,
    among: Seq<Seq<char>>,
) -> bool {
    &&& forall|i: int, j: int|
        0 <= i < j < filemods.len() ==> (#[trigger] filemods[i]).fpath != (
        #[trigger] filemods[j]).fpath
    &&& forall|i: int|
        0 <= i < filemods.len() ==> {
            &&& among.contains((#[trigger] filemods[i]).fpath)
            &&& is_modified(prior, current, metadata, filemods[i].fpath)
            &&& filemods[i].changes == edits_between(prior, current, filemods[i].fpath)
        }
    &&& forall|path: Seq<char>|
        among.contains(path) && #[trigger] is_modified(prior, current, metadata, path)
            ==> exists|i: int| 0 <= i < filemods.len() && (#[trigger] filemods[i]).fpath == path
}

/// Whether `deleted` names the deleted files among `among`, each once.
pub open spec fn names_deleted(
    deleted: Seq<Seq<char>>,
    prior: Map<Seq<char>, Seq<char>>,
    current: Map<Seq<char>, Seq<char>>,
    metadata: Seq<char>,
    among: Seq<Seq<char>>,
) -> bool {
    &&& deleted.no_duplicates()
    &&& forall|path: Seq<char>|
        #![trigger deleted.contains(path)]
        #![trigger is_deleted(prior, current, metadata, path)]
        deleted.contains(path) <==> among.contains(path) && is_deleted(
            prior,
            current,
            metadata,
            path,
        )
}

/// Whether a commit records the difference between the snapshots `prior` and
/// `current`, the file at `metadata` left aside: its created files are those
/// that only `current` has, with their content there; its deleted paths are those
/// that only `prior` has, each named once; and it holds one edit script for
/// each file that both have and in which the differ finds an edit, with the
/// edits found, and no other.
pub open spec fn records_difference(
    commit: CommitView,
    prior: Map<Seq<char>, Seq<char>>,
    current: Map<Seq<char>, Seq<char>>,
    metadata: Seq<char>,
) -> bool {
    &&& commit.created == created_between(prior, current, metadata)
    &&& commit.deleted.no_duplicates()
    &&& forall|path: Seq<char>|
        #![trigger commit.deleted.contains(path)]
        #![trigger is_deleted(prior, current, metadata, path)]
        commit.deleted.contains(path) <==> is_deleted(prior, current, metadata, path)
    &&& forall|i: int, j: int|
        0 <= i < j < commit.filemods.len() ==> (#[trigger] commit.filemods[i]).fpath != (
        #[trigger] commit.filemods[j]).fpath
    &&& forall|i: int|
        0 <= i < commit.filemods.len() ==> {
            &&& is_modified(prior, current, metadata, (#[trigger] commit.filemods[i]).fpath)
            &&& commit.filemods[i].changes == edits_between(
                prior,
                current,
                commit.filemods[i].fpath,
            )
        }
    &&& forall|path: Seq<char>| #[trigger]
        is_modified(prior, current, metadata, path) ==> commit.modifies(path)
}

/// The created files among `among`.
pub open spec fn created_among(
    prior: Map<Seq<char>, Seq<char>>,
    current: Map<Seq<char>, Seq<char>>,
    metadata: Seq<char>,
    among: Seq<Seq<char>>,
) -> Map<Seq<char>, Seq<char>> {
    Map::new(
        |path: Seq<char>| among.contains(path) && is_created(prior, current, metadata, path),
        |path: Seq<char>| current[path],
    )
}

/// Whether the differ finds no edit in any file among `among` that both
/// snapshots have with the same content.
pub open spec fn same_content_unmodified(
    prior: Map<Seq<char>, Seq<char>>,
    current: Map<Seq<char>, Seq<char>>,
    metadata: Seq<char>,
    among: Seq<Seq<char>>,
) -> bool {
    forall|path: Seq<char>|
        among.contains(path) && #[trigger] is_common(prior, current, metadata, path) && prior[path]
            == current[path] ==> edits_between(prior, current, path).len() == 0
}

/// The deleted paths among those of `walk`, in the order of `walk`.
pub open spec fn deleted_along(
    walk: Seq<Seq<char>>,
    prior: Map<Seq<char>, Seq<char>>,
    current: Map<Seq<char>, Seq<char>>,
    metadata: Seq<char>,
) -> Seq<Seq<char>>
    decreases walk.len(),
{
    if walk.len() == 0 {
        Seq::<Seq<char>>::empty()
    } else if is_deleted(prior, current, metadata, walk.last()) {
        deleted_along(walk.drop_last(), prior, current, metadata).push(walk.last())
    } else {
        deleted_along(walk.drop_last(), prior, current, metadata)
    }
}

/// The edit scripts of the modified files among those of `walk`, in the
/// order of `walk`.
pub open spec fn scripts_along(
    walk: Seq<Seq<char>>,
    prior: Map<Seq<char>, Seq<char>>,
    current: Map<Seq<char>, Seq<char>>,
    metadata: Seq<char>,
) -> Seq<FileModView>
    decreases walk.len(),
{
    if walk.len() == 0 {
        Seq::<FileModView>::empty()
    } else if is_modified(prior, current, metadata, walk.last()) {
        scripts_along(walk.drop_last(), prior, current, metadata).push(
            FileModView {
                fpath: walk.last(),
                changes: edits_between(prior, current, walk.last()),
            },
        )
    } else {
        scripts_along(walk.drop_last(), prior, current, metadata)
    }
}

/// The commit that leads from the tree `prior` to the tree `current`, the
/// file at `metadata` left aside: it creates the files that only `current`
/// has, deletes the paths that only `prior` has, in the order in which
/// `prior` holds them, and has the edit scripts of the files that both have
/// and in which the differ finds an edit, in the order in which `current`
/// holds them.
pub open spec fn difference(
    name: Seq<char>,
    timestamp: int,
    prior: FileTree,
    current: FileTree,
    metadata: Seq<char>,
) -> CommitView {
    CommitView {
        name,
        timestamp,
        filemods: scripts_along(current.order(), prior@, current@, metadata),
        created: created_between(prior@, current@, metadata),
        deleted: deleted_along(prior.order(), prior@, current@, metadata),
    }
}

/// Whether the two snapshots hold the same files with the same contents,
/// the file at `metadata` left aside.
pub open spec fn same_files(
    prior: Map<Seq<char>, Seq<char>>,
    current: Map<Seq<char>, Seq<char>>,
    metadata: Seq<char>,
) -> bool {
    prior.remove(metadata) == current.remove(metadata)
}

/// The message of the error that a commit without changes ends in.
pub open spec fn no_changes_message() -> Seq<char> {
    "There are no changes in the repository"@
}

/// Whether `result` is what making the commit named `name` at the time
/// `timestamp` gives, between the trees `prior` and `current` and with the
/// file at `metadata` left aside: the commit that leads from the one tree to
/// the other, or, where nothing has changed, the error that says so.
pub open spec fn is_commit_between(
    result: Result<Commit, String>,
    name: Seq<char>,
    timestamp: int,
    prior: FileTree,
    current: FileTree,
    metadata: Seq<char>,
) -> bool {
    match result {
        Ok(commit) => {
            &&& !no_difference(prior@, current@, metadata)
            &&& commit@ == difference(name, timestamp, prior, current, metadata)
        },
        Err(message) => {
            &&& no_difference(prior@, current@, metadata)
            &&& message@ == no_changes_message()
        },
    }
}

/// An alignment that keeps every line on both sides asks for no edit.
pub proof fn lemma_all_kept_no_changes(lines: Seq<Seq<char>>)
    ensures
        changes_from(all_kept(lines)).len() == 0,
    decreases lines.len(),
{
    if lines.len() > 0 {
        lemma_all_kept_no_changes(lines.drop_last());
        assert(all_kept(lines).drop_last() =~= all_kept(lines.drop_last()));
    }
}

/// A commit that records the difference between two snapshots keeps its
/// created, deleted and modified paths apart.
pub proof fn lemma_recorded_keeps_apart(
    commit: CommitView,
    prior: Map<Seq<char>, Seq<char>>,
    current: Map<Seq<char>, Seq<char>>,
    metadata: Seq<char>,
)
    requires
        records_difference(commit, prior, current, metadata),
    ensures
        commit.keeps_apart(),
{
    assert forall|path: Seq<char>| #[trigger]
        commit.created.contains_key(path) implies !commit.deleted.contains(path) by {
        if commit.deleted.contains(path) {
            assert(is_deleted(prior, current, metadata, path));
        }
    }
    assert forall|i: int| 0 <= i < commit.filemods.len() implies {
        &&& !commit.created.contains_key((#[trigger] commit.filemods[i]).fpath)
        &&& !commit.deleted.contains(commit.filemods[i].fpath)
    } by {
        let path = commit.filemods[i].fpath;
        assert(is_modified(prior, current, metadata, path));
        if commit.deleted.contains(path) {
            assert(is_deleted(prior, current, metadata, path));
        }
    }
}

/// Where two snapshots differ, a commit that records their difference
/// records something.
pub proof fn lemma_recorded_not_void(
    commit: CommitView,
    prior: Map<Seq<char>, Seq<char>>,
    current: Map<Seq<char>, Seq<char>>,
    metadata: Seq<char>,
)
    requires
        records_difference(commit, prior, current, metadata),
    ensures
        commit.is_void() <==> no_difference(prior, current, metadata),
{
    if commit.is_void() {
        assert forall|path: Seq<char>| !#[trigger] is_created(prior, current, metadata, path) by {
            if is_created(prior, current, metadata, path) {
                assert(created_between(prior, current, metadata).contains_key(path));
            }
        }
        assert forall|path: Seq<char>| !#[trigger] is_deleted(prior, current, metadata, path) by {
            if is_deleted(prior, current, metadata, path) {
                assert(commit.deleted.contains(path));
            }
        }
        assert forall|path: Seq<char>| !#[trigger] is_modified(prior, current, metadata, path) by {
            if is_modified(prior, current, metadata, path) {
                assert(commit.modifies(path));
            }
        }
    }
    if no_difference(prior, current, metadata) {
        assert(commit.created =~= Map::<Seq<char>, Seq<char>>::empty()) by {
            assert forall|path: Seq<char>| !commit.created.contains_key(path) by {
                assert(!is_created(prior, current, metadata, path));
                assert(commit.created.contains_key(path) == is_created(
                    prior,
                    current,
                    metadata,
                    path,
                ));
            }
        }
        if commit.deleted.len() > 0 {
            assert(commit.deleted.contains(commit.deleted[0]));
            assert(is_deleted(prior, current, metadata, commit.deleted[0]));
        }
        if commit.filemods.len() > 0 {
            assert(is_modified(prior, current, metadata, commit.filemods[0].fpath));
        }
    }
}

proof fn lemma_same_files_no_difference(
    prior: Map<Seq<char>, Seq<char>>,
    current: Map<Seq<char>, Seq<char>>,
    metadata: Seq<char>,
    among: Seq<Seq<char>>,
)
    requires
        same_files(prior, current, metadata),
        same_content_unmodified(prior, current, metadata, among),
        forall|path: Seq<char>| current.contains_key(path) <==> among.contains(path),
    ensures
        no_difference(prior, current, metadata),
{
    assert forall|path: Seq<char>| !#[trigger] is_created(prior, current, metadata, path) by {
        if path != metadata {
            lemma_same_at(prior, current, metadata, path);
        }
    }
    assert forall|path: Seq<char>| !#[trigger] is_deleted(prior, current, metadata, path) by {
        if path != metadata {
            lemma_same_at(prior, current, metadata, path);
        }
    }
    assert forall|path: Seq<char>| !#[trigger] is_modified(prior, current, metadata, path) by {
        if is_common(prior, current, metadata, path) {
            lemma_same_at(prior, current, metadata, path);
            assert(among.contains(path));
        }
    }
}

proof fn lemma_same_at(
    prior: Map<Seq<char>, Seq<char>>,
    current: Map<Seq<char>, Seq<char>>,
    metadata: Seq<char>,
    path: Seq<char>,
)
    requires
        same_files(prior, current, metadata),
        path != metadata,
    ensures
        prior.contains_key(path) <==> current.contains_key(path),
        prior.contains_key(path) ==> prior[path] == current[path],
{
    assert(prior.remove(metadata).contains_key(path) <==> prior.contains_key(path));
    assert(current.remove(metadata).contains_key(path) <==> current.contains_key(path));
    if prior.contains_key(path) {
        assert(prior.remove(metadata)[path] == prior[path]);
        assert(current.remove(metadata)[path] == current[path]);
    }
}

/// The edit script that leads from `before` to `after`, for the file at `path`.
fn script_for(path: &String, before: &String, after: &String) -> (script: FileMod)
    requires
        diff_fits(before@, after@),
    ensures
        script@.fpath == path@,
        script@.changes == changes_from(line_alignment(before@, after@)),
        before@ == after@ ==> script@.changes.len() == 0,
{
    let aligned = str_diff(before.as_str(), after.as_str());
    proof {
        if before@ == after@ {
            lemma_all_kept_no_changes(differ_lines(before@));
        }
    }
    FileMod::from_changes(path.clone(), aligned)
}

/// The files that only `current` has and the edit scripts of those that both
/// have, the file at `metadata` left aside.
fn created_and_modified(prior: &FileTree, current: &FileTree, metadata: &String) -> (found: (
    FileTree,
    Vec<FileMod>,
))
    requires
        comparable(prior@, current@, metadata@),
    ensures
        found.0@ == created_between(prior@, current@, metadata@),
        views(found.1@) == scripts_along(current.order(), prior@, current@, metadata@),
        scripts_cover(views(found.1@), prior@, current@, metadata@, current.order()),
        same_content_unmodified(prior@, current@, metadata@, current.order()),
        current.walkable(),
{
    let mut created = FileTree::new();
    let mut modified: Vec<FileMod> = Vec::new();
    let count = current.len();
    let mut i: usize = 0;
    proof {
        assert(created@ =~= created_among(prior@, current@, metadata@, current.order().take(0)));
        assert(views(modified@) =~= scripts_along(
            current.order().take(0),
            prior@,
            current@,
            metadata@,
        ));
    }
    while i < count
        invariant
            i <= count,
            count == current.order().len(),
            current.walkable(),
            comparable(prior@, current@, metadata@),
            views(modified@) == scripts_along(
                current.order().take(i as int),
                prior@,
                current@,
                metadata@,
            ),
            created@ == created_among(prior@, current@, metadata@, current.order().take(i as int)),
            scripts_cover(
                views(modified@),
                prior@,
                current@,
                metadata@,
                current.order().take(i as int),
            ),
            same_content_unmodified(prior@, current@, metadata@, current.order().take(i as int)),
        decreases count - i,
    {
        let path = current.path_at(i);
        let content = current.content_at(i);
        let ghost seen = current.order().take(i as int);
        let ghost next = current.order().take(i + 1);
        let ghost scripts = views(modified@);
        proof {
            lemma_take_next(current.order(), i as int);
            assert(next.drop_last() =~= seen);
            assert(next.last() == path@);
        }
        if *path == *metadata {
            proof {
                assert(created@ =~= created_among(prior@, current@, metadata@, next));
                assert(scripts_cover(scripts, prior@, current@, metadata@, next));
            }
        } else {
            match prior.get(path.as_str()) {
                None => {
                    created.insert(path.clone(), content.clone());
                    proof {
                        assert(is_created(prior@, current@, metadata@, path@));
                        assert(created@ =~= created_among(prior@, current@, metadata@, next));
                        assert(scripts_cover(scripts, prior@, current@, metadata@, next));
                    }
                },
                Some(before) => {
                    proof {
                        assert(is_common(prior@, current@, metadata@, path@));
                        assert(created@ =~= created_among(prior@, current@, metadata@, next));
                    }
                    let script = script_for(path, before, content);
                    if !script.is_empty() {
                        modified.push(script);
                        proof {
                            let grown = views(modified@);
                            assert(grown =~= scripts.push(script@));
                            assert(is_modified(prior@, current@, metadata@, path@));
                            assert forall|a: int, b: int| 0 <= a < b < grown.len() implies (
                            #[trigger] grown[a]).fpath != (#[trigger] grown[b]).fpath by {
                                if b == scripts.len() {
                                    assert(seen.contains(scripts[a].fpath));
                                }
                            }
                            assert forall|a: int| 0 <= a < grown.len() implies {
                                &&& next.contains((#[trigger] grown[a]).fpath)
                                &&& is_modified(prior@, current@, metadata@, grown[a].fpath)
                                &&& grown[a].changes == edits_between(
                                    prior@,
                                    current@,
                                    grown[a].fpath,
                                )
                            } by {
                                if a < scripts.len() {
                                    assert(seen.contains(scripts[a].fpath));
                                }
                            }
                            assert forall|p: Seq<char>|
                                next.contains(p) && #[trigger] is_modified(
                                    prior@,
                                    current@,
                                    metadata@,
                                    p,
                                ) implies exists|a: int|
                                0 <= a < grown.len() && (#[trigger] grown[a]).fpath == p by {
                                if p == path@ {
                                    assert(grown[scripts.len() as int].fpath == p);
                                } else {
                                    assert(seen.contains(p));
                                    let a = choose|a: int|
                                        0 <= a < scripts.len() && (#[trigger] scripts[a]).fpath
                                            == p;
                                    assert(grown[a].fpath == p);
                                }
                            }
                        }
                    } else {
                        proof {
                            assert(!is_modified(prior@, current@, metadata@, path@));
                            assert(scripts_cover(scripts, prior@, current@, metadata@, next));
                        }
                    }
                },
            }
        }
        i += 1;
    }
    proof {
        assert(current.order().take(count as int) =~= current.order());
        assert(created@ =~= created_between(prior@, current@, metadata@));
    }
    (created, modified)
}

/// Tests whether the differ can be run on every file that both trees have,
/// the file at `metadata` left aside.
pub fn can_compare(prior: &FileTree, current: &FileTree, metadata: &str) -> (fits: bool)
    ensures
        fits == comparable(prior@, current@, metadata@),
{
    let aside = metadata.to_owned();
    let count = current.len();
    let mut i: usize = 0;
    while i < count
        invariant
            i <= count,
            count == current.order().len(),
            current.walkable(),
            aside@ == metadata@,
            forall|path: Seq<char>|
                current.order().take(i as int).contains(path) && #[trigger] is_common(
                    prior@,
                    current@,
                    metadata@,
                    path,
                ) ==> diff_fits(prior@[path], current@[path]),
        decreases count - i,
    {
        let path = current.path_at(i);
        proof {
            lemma_take_next(current.order(), i as int);
        }
        if !(*path == aside) {
            match prior.get(path.as_str()) {
                Some(before) => {
                    if !fits_diff(before.as_str(), current.content_at(i).as_str()) {
                        proof {
                            assert(is_common(prior@, current@, metadata@, path@));
                        }
                        return false;
                    }
                },
                None => {},
            }
        }
        i += 1;
    }
    proof {
        assert(current.order().take(count as int) =~= current.order());
        assert forall|path: Seq<char>| #[trigger]
            is_common(prior@, current@, metadata@, path) implies diff_fits(
            prior@[path],
            current@[path],
        ) by {
            assert(current.order().contains(path));
        }
    }
    true
}

/// The paths that only `prior` has, the file at `metadata` left aside.
fn deleted_paths(prior: &FileTree, current: &FileTree, metadata: &String) -> (deleted: Vec<String>)
    ensures
        views(deleted@) == deleted_along(prior.order(), prior@, current@, metadata@),
        names_deleted(views(deleted@), prior@, current@, metadata@, prior.order()),
        prior.walkable(),
{
    let mut deleted: Vec<String> = Vec::new();
    let count = prior.len();
    let mut i: usize = 0;
    proof {
        assert(views(deleted@) =~= deleted_along(
            prior.order().take(0),
            prior@,
            current@,
            metadata@,
        ));
    }
    while i < count
        invariant
            i <= count,
            count == prior.order().len(),
            prior.walkable(),
            views(deleted@) == deleted_along(
                prior.order().take(i as int),
                prior@,
                current@,
                metadata@,
            ),
            names_deleted(
                views(deleted@),
                prior@,
                current@,
                metadata@,
                prior.order().take(i as int),
            ),
        decreases count - i,
    {
        let path = prior.path_at(i);
        let ghost seen = prior.order().take(i as int);
        let ghost next = prior.order().take(i + 1);
        let ghost names = views(deleted@);
        proof {
            lemma_take_next(prior.order(), i as int);
            assert(next.drop_last() =~= seen);
            assert(next.last() == path@);
        }
        if !(*path == *metadata) && !current.contains(path.as_str()) {
            deleted.push(path.clone());
            proof {
                let grown = views(deleted@);
                assert(grown =~= names.push(path@));
                assert(is_deleted(prior@, current@, metadata@, path@));
                assert forall|a: int, b: int|
                    0 <= a < grown.len() && 0 <= b < grown.len() && a != b implies grown[a]
                    != grown[b] by {
                    if a < names.len() {
                        assert(names.contains(names[a]));
                    }
                    if b < names.len() {
                        assert(names.contains(names[b]));
                    }
                }
                assert forall|p: Seq<char>|
                    #![trigger grown.contains(p)]
                    #![trigger is_deleted(prior@, current@, metadata@, p)]
                    grown.contains(p) <==> next.contains(p) && is_deleted(
                        prior@,
                        current@,
                        metadata@,
                        p,
                    ) by {
                    if grown.contains(p) {
                        let a = choose|a: int| 0 <= a < grown.len() && grown[a] == p;
                        if a < names.len() {
                            assert(names.contains(p));
                        }
                    }
                    if next.contains(p) && is_deleted(prior@, current@, metadata@, p) {
                        if p == path@ {
                            assert(grown[names.len() as int] == p);
                        } else {
                            assert(names.contains(p));
                            let a = choose|a: int| 0 <= a < names.len() && names[a] == p;
                            assert(grown[a] == p);
                        }
                    }
                }
                assert(grown.no_duplicates());
                assert(names_deleted(grown, prior@, current@, metadata@, next));
            }
        } else {
            proof {
                assert(!is_deleted(prior@, current@, metadata@, path@));
                assert forall|p: Seq<char>|
                    #![trigger names.contains(p)]
                    #![trigger is_deleted(prior@, current@, metadata@, p)]
                    names.contains(p) <==> next.contains(p) && is_deleted(
                        prior@,
                        current@,
                        metadata@,
                        p,
                    ) by {
                    if names.contains(p) {
                        assert(seen.contains(p));
                        assert(next.contains(p));
                    }
                    if next.contains(p) && is_deleted(prior@, current@, metadata@, p) {
                        assert(p != path@);
                        assert(seen.contains(p));
                    }
                }
                assert(names_deleted(names, prior@, current@, metadata@, next));
            }
        }
        i += 1;
    }
    proof {
        assert(prior.order().take(count as int) =~= prior.order());
    }
    deleted
}

/// Calls `chrono::Utc::now` and, on the time that it gives,
/// `chrono::DateTime::timestamp`: the seconds that the system clock counts
/// since the start of 1970. Nothing is claimed of the number, which differs
/// from call to call. `Utc::now` ends the program with a panic where the
/// system clock stands before 1970.
#[verifier::external_body]
pub(crate) fn seconds_now() -> (seconds: i64) {
    Utc::now().timestamp()
}

impl Commit {
    /// The commit without a name that creates the files of `data` and does
    /// nothing else, made now.
    pub fn from_data(data: FileTree) -> (commit: Commit)
        ensures
            commit@ == (CommitView {
                name: Seq::<char>::empty(),
                timestamp: commit@.timestamp,
                filemods: Seq::<FileModView>::empty(),
                created: data@,
                deleted: Seq::<Seq<char>>::empty(),
            }),
            commit@.keeps_apart(),
    {
        Commit::from_data_at(data, seconds_now())
    }

    /// The commit without a name that creates the files of `data` and does
    /// nothing else, made at `timestamp`.
    pub fn from_data_at(data: FileTree, timestamp: i64) -> (commit: Commit)
        ensures
            commit@ == (CommitView {
                name: Seq::<char>::empty(),
                timestamp: timestamp as int,
                filemods: Seq::<FileModView>::empty(),
                created: data@,
                deleted: Seq::<Seq<char>>::empty(),
            }),
            commit@.keeps_apart(),
    {
        let commit = Commit {
            name: String::new(),
            timestamp,
            filemods: Vec::new(),
            created: data,
            deleted: Vec::new(),
        };
        proof {
            assert(commit@.filemods =~= Seq::<FileModView>::empty());
            assert(commit@.deleted =~= Seq::<Seq<char>>::empty());
        }
        commit
    }

    /// The commit named `name`, made now, that leads from the checkout of
    /// `repo` to the tree `disk`, or the error that says that nothing has
    /// changed. The repository's own file is left aside on both sides.
    pub fn create(name: &str, repo: &mut Repository, disk: &FileTree) -> (result: Result<
        Commit,
        String,
    >)
        requires
            comparable(old(repo).checkout@, disk@, metadata_path(old(repo).path@)),
        ensures
            *final(repo) == *old(repo),
            exists|timestamp: int| #[trigger]
                is_commit_between(
                    result,
                    name@,
                    timestamp,
                    old(repo).checkout,
                    *disk,
                    metadata_path(old(repo).path@),
                ),
            result matches Ok(commit) ==> {
                &&& records_difference(
                    commit@,
                    old(repo).checkout@,
                    disk@,
                    metadata_path(old(repo).path@),
                )
                &&& commit@.keeps_apart()
                &&& !commit@.is_void()
            },
            same_files(old(repo).checkout@, disk@, metadata_path(old(repo).path@))
                ==> result is Err,
    {
        let seconds = seconds_now();
        let result = Commit::create_at(name, repo, disk, seconds);
        proof {
            assert(is_commit_between(
                result,
                name@,
                seconds as int,
                old(repo).checkout,
                *disk,
                metadata_path(old(repo).path@),
            ));
        }
        result
    }

    /// The commit named `name`, made at `timestamp`, that leads from the
    /// checkout of `repo` to the tree `disk`, or the error that says that
    /// nothing has changed. The repository's own file is left aside on both
    /// sides.
    pub fn create_at(name: &str, repo: &mut Repository, disk: &FileTree, timestamp: i64) -> (result:
        Result<Commit, String>)
        requires
            comparable(old(repo).checkout@, disk@, metadata_path(old(repo).path@)),
        ensures
            *final(repo) == *old(repo),
            is_commit_between(
                result,
                name@,
                timestamp as int,
                old(repo).checkout,
                *disk,
                metadata_path(old(repo).path@),
            ),
            result matches Ok(commit) ==> {
                &&& records_difference(
                    commit@,
                    old(repo).checkout@,
                    disk@,
                    metadata_path(old(repo).path@),
                )
                &&& commit@.keeps_apart()
                &&& !commit@.is_void()
            },
            same_files(old(repo).checkout@, disk@, metadata_path(old(repo).path@))
                ==> result is Err,
    {
        let metadata = repo.rvc_path();
        let (created, filemods) = created_and_modified(&repo.checkout, disk, &metadata);
        let deleted = deleted_paths(&repo.checkout, disk, &metadata);
        let void = created.is_empty() && deleted.len() == 0 && filemods.len() == 0;
        let ghost scripts = views(filemods@);
        let ghost names = views(deleted@);
        let commit = Commit { name: name.to_owned(), timestamp, filemods, created, deleted };
        proof {
            let prior = repo.checkout@;
            let current = disk@;
            let m = metadata@;
            assert(commit@.filemods == scripts);
            assert(commit@.deleted == names);
            assert forall|path: Seq<char>| #[trigger]
                is_modified(prior, current, m, path) implies commit@.modifies(path) by {
                assert(current.contains_key(path));
                assert(disk.order().contains(path));
                let i = choose|i: int|
                    0 <= i < scripts.len() && (#[trigger] scripts[i]).fpath == path;
                assert(commit@.filemods[i].fpath == path);
            }
            assert forall|path: Seq<char>|
                commit@.deleted.contains(path) <==> #[trigger] is_deleted(
                    prior,
                    current,
                    m,
                    path,
                ) by {
                if is_deleted(prior, current, m, path) {
                    assert(prior.contains_key(path));
                    assert(repo.checkout.order().contains(path));
                }
            }
            assert(records_difference(commit@, prior, current, m));
            lemma_recorded_keeps_apart(commit@, prior, current, m);
            lemma_recorded_not_void(commit@, prior, current, m);
            if same_files(prior, current, m) {
                lemma_same_files_no_difference(prior, current, m, disk.order());
            }
        }
        if void {
            Err("There are no changes in the repository".to_owned())
        } else {
            Ok(commit)
        }
    }
}

} // verus!
