//! The repository: a log of commits and the checkout that replaying it gives.

use crate::commit::{
    comparable, difference, is_created, is_deleted, is_modified, no_difference,
    records_difference, same_files, seconds_now, Commit, CommitView,
};
use crate::patch::{applied, FileMod, FileModView};
use crate::seqs::{lemma_take_next, views};
use crate::tree::FileTree;
use vstd::prelude::*;

verus! {

/// A repository: its name, the path of its root directory, written with `/`
/// between the names of the directories, its commits from the first to the
/// latest, and the files of the revision that was checked out last.
#[derive(Debug, PartialEq, Eq)]
pub struct Repository {
    pub name: String,
    pub path: String,
    pub commits: Vec<Commit>,
    pub checkout: FileTree,
}

/// What a `Repository` stands for.
pub struct RepositoryView {
    pub name: Seq<char>,
    pub path: Seq<char>,
    pub commits: Seq<CommitView>,
    pub checkout: Map<Seq<char>, Seq<char>>,
}

impl View for Repository {
    type V = RepositoryView;

    open spec fn view(&self) -> RepositoryView {
        RepositoryView {
            name: self.name@,
            path: self.path@,
            commits: views(self.commits@),
            checkout: self.checkout@,
        }
    }
}

impl Clone for Repository {
    fn clone(&self) -> (copy: Repository)
        ensures
            copy@ == self@,
    {
        let commits = self.commits.clone();
        proof {
            assert forall|i: int| 0 <= i < commits.len() implies commits@[i]@
                == self.commits@[i]@ by {
                assert(cloned::<Commit>(self.commits@[i], commits@[i]));
            }
            assert(views(commits@) =~= views(self.commits@));
        }
        Repository {
            name: self.name.clone(),
            path: self.path.clone(),
            commits,
            checkout: self.checkout.clone(),
        }
    }
}

/// The path of the file in which a repository rooted at `root` keeps its own
/// state: the file `.rvc` directly under the root.
pub open spec fn metadata_path(root: Seq<char>) -> Seq<char> {
    if root.len() == 0 || root.last() == '/' {
        root + ".rvc"@
    } else {
        root + "/.rvc"@
    }
}

/// Why a commit was not made.
#[derive(Debug, Clone, Copy, PartialEq, Eq)]
pub enum CommitError {
    /// Nothing has changed since the last checkout.
    NoChanges,
    /// The log with the new commit at its end cannot be replayed.
    Unreplayable,
}

/// The name of the commit that a new repository starts with.
pub open spec fn initial_commit_name() -> Seq<char> {
    "init"@
}

/// The message of the error that a root which is no directory ends in.
pub open spec fn invalid_path_message() -> Seq<char> {
    "The path is not valid"@
}

/// The message of the error that a root which holds a repository ends in.
pub open spec fn occupied_message() -> Seq<char> {
    "A repository already exists in the given path"@
}

/// The repository that is made of a directory with the files `files`: its
/// log holds the one commit that creates them, and they are checked out.
pub open spec fn initial_repository(
    name: Seq<char>,
    path: Seq<char>,
    files: Map<Seq<char>, Seq<char>>,
    timestamp: int,
) -> RepositoryView {
    RepositoryView {
        name,
        path,
        commits: seq![
            CommitView {
                name: initial_commit_name(),
                timestamp,
                filemods: Seq::<FileModView>::empty(),
                created: files,
                deleted: Seq::<Seq<char>>::empty(),
            },
        ],
        checkout: files,
    }
}

/// Whether `result` is what making a repository named `name` at the time
/// `timestamp` gives, of the directory at `path` with the files of `disk`:
/// the repository with its first commit, or the error that says why there is
/// none.
pub open spec fn is_made_repository(
    result: Result<Repository, String>,
    name: Seq<char>,
    path: Seq<char>,
    disk: Option<FileTree>,
    timestamp: int,
) -> bool {
    match result {
        Ok(repo) => {
            &&& disk matches Some(tree)
            &&& !tree@.contains_key(metadata_path(path))
            &&& repo@ == initial_repository(name, path, tree@, timestamp)
        },
        Err(message) => match disk {
            None => message@ == invalid_path_message(),
            Some(tree) => tree@.contains_key(metadata_path(path)) && message@ == occupied_message(),
        },
    }
}

/// Whether `after` and `result` are what committing the tree `disk` to
/// `before` gives, under the name `name` and the time `timestamp`. The commit
/// that leads from the checkout to `disk` goes to the end of the log, and the
/// log is replayed to it. Where nothing has changed, or where the log with
/// that commit at its end cannot be replayed, log and checkout stay as they
/// were and the error says which of the two it was.
pub open spec fn is_committed(
    before: Repository,
    after: Repository,
    result: Result<(), CommitError>,
    name: Seq<char>,
    disk: FileTree,
    timestamp: int,
) -> bool {
    let aside = metadata_path(before.path@);
    let made = difference(name, timestamp, before.checkout, disk, aside);
    let log = before@.commits.push(made);
    match result {
        Ok(_) => {
            &&& !no_difference(before.checkout@, disk@, aside)
            &&& after.commits@.drop_last() == before.commits@
            &&& after@.commits == log
            &&& replayed(log, log.len()) == Some(after.checkout@)
        },
        Err(CommitError::NoChanges) => {
            &&& no_difference(before.checkout@, disk@, aside)
            &&& after.commits@ == before.commits@
            &&& after.checkout == before.checkout
        },
        Err(CommitError::Unreplayable) => {
            &&& !no_difference(before.checkout@, disk@, aside)
            &&& replayed(log, log.len()) is None
            &&& after.commits@ == before.commits@
            &&& after.checkout == before.checkout
        },
    }
}

/// The files after the edit scripts of `filemods` have been applied in
/// order, each to the content that the files then have at its path. There is
/// no result where a script's path is not among the files, or where one of
/// its edits finds no place.
pub open spec fn with_patched(
    files: Map<Seq<char>, Seq<char>>,
    filemods: Seq<FileModView>,
) -> Option<Map<Seq<char>, Seq<char>>>
    decreases filemods.len(),
{
    if filemods.len() == 0 {
        Some(files)
    } else {
        let first = filemods.first();
        if !files.contains_key(first.fpath) {
            None
        } else {
            match applied(first, files[first.fpath]) {
                Some(text) => with_patched(files.insert(first.fpath, text), filemods.drop_first()),
                None => None,
            }
        }
    }
}

/// The files after one commit: its created files are put in, in place of
/// what was at their paths, then its deleted paths are taken out, then its
/// edit scripts are applied.
pub open spec fn after_commit(files: Map<Seq<char>, Seq<char>>, commit: CommitView) -> Option<
    Map<Seq<char>, Seq<char>>,
> {
    with_patched(
        files.union_prefer_right(commit.created).remove_keys(commit.deleted.to_set()),
        commit.filemods,
    )
}

/// The files after the first `count` commits of `log`, starting from no file
/// at all. There is no result where the log has fewer commits, or where one
/// of them has none.
pub open spec fn replayed(log: Seq<CommitView>, count: nat) -> Option<Map<Seq<char>, Seq<char>>>
    decreases count,
{
    if count == 0 {
        Some(Map::<Seq<char>, Seq<char>>::empty())
    } else if count > log.len() {
        None
    } else {
        match replayed(log, (count - 1) as nat) {
            Some(files) => after_commit(files, log[count - 1]),
            None => None,
        }
    }
}

impl RepositoryView {
    /// Whether the checkout is what replaying the log to one of its
    /// revisions gives, or the empty tree that stands before the first.
    pub open spec fn in_step(self) -> bool {
        exists|count: nat|
            count <= self.commits.len() && #[trigger] replayed(self.commits, count) == Some(
                self.checkout,
            )
    }
}

/// Whether `after` is `before` with the revision of index `i` checked out.
pub open spec fn checked_out(before: RepositoryView, after: RepositoryView, i: nat) -> bool {
    &&& replayed(before.commits, i + 1) is Some
    &&& after == (RepositoryView { checkout: replayed(before.commits, i + 1)->0, ..before })
}

/// Once the replay of a log has failed, it fails for every later revision.
pub proof fn lemma_replay_stays_failed(log: Seq<CommitView>, failed: nat, count: nat)
    requires
        replayed(log, failed) is None,
        failed <= count,
    ensures
        replayed(log, count) is None,
    decreases count,
{
    if failed < count {
        lemma_replay_stays_failed(log, failed, (count - 1) as nat);
    }
}

/// A replay reads only the commits that it covers.
pub proof fn lemma_replay_prefix(log: Seq<CommitView>, longer: Seq<CommitView>, count: nat)
    requires
        count <= log.len() <= longer.len(),
        forall|k: int| 0 <= k < log.len() ==> log[k] == longer[k],
    ensures
        replayed(log, count) == replayed(longer, count),
    decreases count,
{
    if count > 0 {
        lemma_replay_prefix(log, longer, (count - 1) as nat);
    }
}

/// Checking out a revision twice leaves what checking it out once leaves:
/// the second replay of the log to the same index gives the same files.
pub proof fn lemma_replay_idempotent(
    before: RepositoryView,
    once: RepositoryView,
    twice: RepositoryView,
    i: nat,
)
    requires
        checked_out(before, once, i),
        checked_out(once, twice, i),
    ensures
        twice == once,
        twice.checkout == replayed(before.commits, i + 1)->0,
{
}

/// Puts the created files of `commit` into `files`.
fn put_created(files: &mut FileTree, created: &FileTree)
    ensures
        final(files)@ == old(files)@.union_prefer_right(created@),
{
    let ghost start = files@;
    let count = created.len();
    let mut j: usize = 0;
    proof {
        assert(files@ =~= start.union_prefer_right(
            created@.restrict(created.order().take(0).to_set()),
        ));
    }
    while j < count
        invariant
            j <= count,
            count == created.order().len(),
            created.walkable(),
            files@ == start.union_prefer_right(
                created@.restrict(created.order().take(j as int).to_set()),
            ),
        decreases count - j,
    {
        let ghost seen = created.order().take(j as int);
        let ghost next = created.order().take(j + 1);
        proof {
            lemma_take_next(created.order(), j as int);
        }
        files.insert(created.path_at(j).clone(), created.content_at(j).clone());
        proof {
            let path = created.order()[j as int];
            assert forall|p: Seq<char>|
                next.to_set().contains(p) <==> seen.to_set().contains(p) || p == path by {
                assert(next.to_set().contains(p) == next.contains(p));
                assert(seen.to_set().contains(p) == seen.contains(p));
            }
            assert(files@ =~= start.union_prefer_right(created@.restrict(next.to_set())));
        }
        j += 1;
    }
    proof {
        assert(created.order().take(count as int) =~= created.order());
        assert(created@.restrict(created.order().to_set()) =~= created@) by {
            assert forall|p: Seq<char>| created@.contains_key(p) implies created.order().to_set()
                .contains(p) by {
                assert(created.order().contains(p));
            }
        }
    }
}

/// Takes the paths of `deleted` out of `files`.
fn take_deleted(files: &mut FileTree, deleted: &Vec<String>)
    ensures
        final(files)@ == old(files)@.remove_keys(views(deleted@).to_set()),
{
    let ghost start = files@;
    let ghost names = views(deleted@);
    let mut j: usize = 0;
    proof {
        assert(files@ =~= start.remove_keys(names.take(0).to_set()));
    }
    while j < deleted.len()
        invariant
            j <= deleted.len(),
            names == views(deleted@),
            files@ == start.remove_keys(names.take(j as int).to_set()),
        decreases deleted.len() - j,
    {
        let ghost seen = names.take(j as int);
        let ghost next = names.take(j + 1);
        proof {
            lemma_take_next(names, j as int);
        }
        files.remove(deleted[j].as_str());
        proof {
            let path = names[j as int];
            assert forall|p: Seq<char>|
                next.to_set().contains(p) <==> seen.to_set().contains(p) || p == path by {
                assert(next.to_set().contains(p) == next.contains(p));
                assert(seen.to_set().contains(p) == seen.contains(p));
            }
            assert(files@ =~= start.remove_keys(next.to_set()));
        }
        j += 1;
    }
    proof {
        assert(names.take(deleted.len() as int) =~= names);
    }
}

/// Applies the edit scripts of `filemods` to `files`, and says whether each
/// found its file and its places. Where one did not, `files` is left as the
/// scripts before it have made it.
fn patch_files(files: &mut FileTree, filemods: &Vec<FileMod>) -> (done: bool)
    ensures
        match with_patched(old(files)@, views(filemods@)) {
            Some(patched) => done && final(files)@ == patched,
            None => !done,
        },
{
    let ghost start = files@;
    let ghost scripts = views(filemods@);
    let mut j: usize = 0;
    proof {
        assert(scripts.skip(0) =~= scripts);
    }
    while j < filemods.len()
        invariant
            j <= filemods.len(),
            scripts == views(filemods@),
            start == old(files)@,
            with_patched(start, scripts) == with_patched(files@, scripts.skip(j as int)),
        decreases filemods.len() - j,
    {
        let script = &filemods[j];
        proof {
            assert(scripts.skip(j as int).first() == script@);
            assert(scripts.skip(j as int).drop_first() =~= scripts.skip(j + 1));
        }
        let patched = match files.get(script.fpath.as_str()) {
            Some(content) => script.try_apply(content.as_str()),
            None => None,
        };
        match patched {
            Some(text) => {
                files.insert(script.fpath.clone(), text);
            },
            None => {
                return false;
            },
        }
        j += 1;
    }
    true
}

/// Carries `files` over one commit, and says whether the commit could be
/// replayed.
fn apply_commit(files: &mut FileTree, commit: &Commit) -> (done: bool)
    ensures
        match after_commit(old(files)@, commit@) {
            Some(after) => done && final(files)@ == after,
            None => !done,
        },
{
    put_created(files, &commit.created);
    take_deleted(files, &commit.deleted);
    patch_files(files, &commit.filemods)
}

/// Replays the first `count` commits of a log, starting from no file at all.
/// There is no result where the log is shorter than that, where an edit script
/// is for a file that is not there, or where an edit finds no place.
pub fn replay(commits: &Vec<Commit>, count: usize) -> (files: Option<FileTree>)
    ensures
        match files {
            Some(tree) => replayed(views(commits@), count as nat) == Some(tree@),
            None => replayed(views(commits@), count as nat) is None,
        },
{
    if count > commits.len() {
        return None;
    }
    let ghost log = views(commits@);
    let mut files = FileTree::new();
    let mut k: usize = 0;
    while k < count
        invariant
            k <= count <= commits.len(),
            log == views(commits@),
            replayed(log, k as nat) == Some(files@),
        decreases count - k,
    {
        if !apply_commit(&mut files, &commits[k]) {
            proof {
                assert(replayed(log, (k + 1) as nat) is None);
                lemma_replay_stays_failed(log, (k + 1) as nat, count as nat);
            }
            return None;
        }
        k += 1;
    }
    Some(files)
}

impl Repository {
    /// The path of the file in which the repository keeps its own state.
    pub fn rvc_path(&self) -> (path: String)
        ensures
            path@ == metadata_path(self.path@),
    {
        let length = self.path.as_str().unicode_len();
        if length == 0 || self.path.as_str().get_char(length - 1) == '/' {
            self.path.clone().concat(".rvc")
        } else {
            self.path.clone().concat("/.rvc")
        }
    }

    /// The repository named `name` and rooted at `path` that has no commit
    /// and no file checked out.
    pub fn new(name: &str, path: String) -> (repo: Repository)
        ensures
            repo@ == (RepositoryView {
                name: name@,
                path: path@,
                commits: Seq::<CommitView>::empty(),
                checkout: Map::<Seq<char>, Seq<char>>::empty(),
            }),
            repo@.in_step(),
    {
        let repo = Repository {
            name: name.to_owned(),
            path,
            commits: Vec::new(),
            checkout: FileTree::new(),
        };
        proof {
            assert(repo@.commits =~= Seq::<CommitView>::empty());
            assert(replayed(repo@.commits, 0) == Some(repo@.checkout));
        }
        repo
    }

    /// Makes a repository named `name` of the directory at `path`, whose
    /// files are those of `disk`; `disk` is `None` where there is no directory
    /// at `path`. The repository starts with one commit, named `init` and made
    /// now, that creates every file of the directory, and has these files
    /// checked out. A directory that holds a repository's own file already is
    /// refused.
    pub fn create(name: &str, path: String, disk: Option<FileTree>) -> (result: Result<
        Repository,
        String,
    >)
        ensures
            exists|timestamp: int| #[trigger] is_made_repository(result, name@, path@, disk, timestamp),
            result matches Ok(repo) ==> repo@.in_step(),
    {
        let seconds = seconds_now();
        let result = Repository::create_at(name, path, disk, seconds);
        proof {
            assert(is_made_repository(result, name@, path@, disk, seconds as int));
        }
        result
    }

    /// Makes a repository as `create` does, with a first commit made at
    /// `timestamp`.
    pub fn create_at(name: &str, path: String, disk: Option<FileTree>, timestamp: i64) -> (result:
        Result<Repository, String>)
        ensures
            is_made_repository(result, name@, path@, disk, timestamp as int),
            result matches Ok(repo) ==> repo@.in_step(),
    {
        match disk {
            None => Err("The path is not valid".to_owned()),
            Some(tree) => {
                let mut repo = Repository::new(name, path);
                let metadata = repo.rvc_path();
                if tree.contains(metadata.as_str()) {
                    return Err("A repository already exists in the given path".to_owned());
                }
                let ghost nothing = Map::<Seq<char>, Seq<char>>::empty();
                let first = match Commit::create_at("init", &mut repo, &tree, timestamp) {
                    Ok(commit) => commit,
                    Err(_) => Commit {
                        name: "init".to_owned(),
                        timestamp,
                        filemods: Vec::new(),
                        created: FileTree::new(),
                        deleted: Vec::new(),
                    },
                };
                proof {
                    let made = first@;
                    assert(made.created =~= tree@) by {
                        if no_difference(nothing, tree@, metadata@) {
                            assert forall|p: Seq<char>| !tree@.contains_key(p) by {
                                assert(!is_created(nothing, tree@, metadata@, p));
                            }
                        } else {
                            assert forall|p: Seq<char>| tree@.contains_key(p) implies is_created(
                                nothing,
                                tree@,
                                metadata@,
                                p,
                            ) by {}
                        }
                    }
                    if made.deleted.len() > 0 {
                        assert(made.deleted.contains(made.deleted[0]));
                        assert(is_deleted(nothing, tree@, metadata@, made.deleted[0]));
                    }
                    if made.filemods.len() > 0 {
                        assert(is_modified(nothing, tree@, metadata@, made.filemods[0].fpath));
                    }
                    assert(made.deleted =~= Seq::<Seq<char>>::empty());
                    assert(made.filemods =~= Seq::<FileModView>::empty());
                }
                repo.push_commit(first);
                proof {
                    let log = repo@.commits;
                    assert(log =~= initial_repository(
                        name@,
                        path@,
                        tree@,
                        timestamp as int,
                    ).commits);
                    assert(replayed(log, 0) == Some(nothing));
                    assert(nothing.union_prefer_right(tree@) =~= tree@);
                    assert(Seq::<Seq<char>>::empty().to_set() =~= Set::<Seq<char>>::empty());
                    assert(tree@.remove_keys(Set::<Seq<char>>::empty()) =~= tree@);
                    assert(after_commit(nothing, log[0]) == Some(tree@));
                    assert(replayed(log, 1) == Some(tree@));
                }
                repo.checkout_lastest();
                proof {
                    assert(replayed(repo@.commits, 1) == Some(repo@.checkout));
                }
                Ok(repo)
            },
        }
    }

    /// Commits what has changed between the checkout and the tree `disk`,
    /// under the name `name` and the time of now: the commit that records the
    /// difference goes to the end of the log, and the log is replayed to it.
    /// Where nothing has changed, or where the log with the new commit cannot
    /// be replayed, the repository is left as it was.
    pub fn commit(&mut self, name: &str, disk: &FileTree) -> (result: Result<(), CommitError>)
        requires
            comparable(old(self).checkout@, disk@, metadata_path(old(self).path@)),
        ensures
            final(self).name == old(self).name,
            final(self).path == old(self).path,
            exists|timestamp: int| #[trigger]
                is_committed(*old(self), *final(self), result, name@, *disk, timestamp),
            result is Ok ==> {
                &&& records_difference(
                    final(self)@.commits.last(),
                    old(self).checkout@,
                    disk@,
                    metadata_path(old(self).path@),
                )
                &&& final(self)@.commits.last().keeps_apart()
            },
            same_files(old(self).checkout@, disk@, metadata_path(old(self).path@)) ==> result
                == Err::<(), CommitError>(CommitError::NoChanges),
            result is Ok || old(self)@.in_step() ==> final(self)@.in_step(),
    {
        let seconds = seconds_now();
        let result = self.commit_at(name, disk, seconds);
        proof {
            assert(is_committed(*old(self), *self, result, name@, *disk, seconds as int));
        }
        result
    }

    /// Commits as `commit` does, under the time `timestamp`.
    pub fn commit_at(&mut self, name: &str, disk: &FileTree, timestamp: i64) -> (result: Result<
        (),
        CommitError,
    >)
        requires
            comparable(old(self).checkout@, disk@, metadata_path(old(self).path@)),
        ensures
            final(self).name == old(self).name,
            final(self).path == old(self).path,
            is_committed(*old(self), *final(self), result, name@, *disk, timestamp as int),
            result is Ok ==> {
                &&& records_difference(
                    final(self)@.commits.last(),
                    old(self).checkout@,
                    disk@,
                    metadata_path(old(self).path@),
                )
                &&& final(self)@.commits.last().keeps_apart()
            },
            same_files(old(self).checkout@, disk@, metadata_path(old(self).path@)) ==> result
                == Err::<(), CommitError>(CommitError::NoChanges),
            result is Ok || old(self)@.in_step() ==> final(self)@.in_step(),
    {
        let made = match Commit::create_at(name, self, disk, timestamp) {
            Ok(commit) => commit,
            Err(_) => {
                return Err(CommitError::NoChanges);
            },
        };
        let ghost record = made@;
        let ghost log = self@.commits;
        self.commits.push(made);
        proof {
            assert(self@.commits =~= log.push(record));
        }
        match replay(&self.commits, self.commits.len()) {
            Some(files) => {
                self.checkout = files;
                proof {
                    assert(self.commits@.drop_last() =~= old(self).commits@);
                }
                Ok(())
            },
            None => {
                self.commits.pop();
                proof {
                    assert(self.commits@ =~= old(self).commits@);
                    assert(self@ == old(self)@);
                }
                Err(CommitError::Unreplayable)
            },
        }
    }

    /// Adds `commit` at the end of the log.
    pub fn push_commit(&mut self, commit: Commit)
        ensures
            final(self).commits@ == old(self).commits@.push(commit),
            final(self).name == old(self).name,
            final(self).path == old(self).path,
            final(self).checkout == old(self).checkout,
            old(self)@.in_step() ==> final(self)@.in_step(),
    {
        let ghost log = self@.commits;
        self.commits.push(commit);
        proof {
            assert(self@.commits =~= log.push(commit@));
            if old(self)@.in_step() {
                let count = choose|count: nat|
                    count <= log.len() && #[trigger] replayed(log, count) == Some(self.checkout@);
                lemma_replay_prefix(log, self@.commits, count);
            }
        }
    }

    /// Checks out the revision of index `i`: the files that replaying the
    /// commits up to and with that index gives.
    pub fn checkout(&mut self, i: usize)
        requires
            i < old(self).commits@.len(),
            replayed(old(self)@.commits, (i + 1) as nat) is Some,
        ensures
            checked_out(old(self)@, final(self)@, i as nat),
            final(self).commits == old(self).commits,
            final(self)@.in_step(),
    {
        assert(i < self.commits.len());
        match replay(&self.commits, i + 1) {
            Some(files) => {
                self.checkout = files;
            },
            None => {},
        }
    }

    /// Checks out the revision of index `i` where there is one and it can be
    /// replayed, and says whether it did. Where it did not, the repository is
    /// left as it was.
    pub fn try_checkout(&mut self, i: usize) -> (done: bool)
        ensures
            done == (i < old(self).commits@.len() && replayed(old(self)@.commits, (i + 1) as nat)
                is Some),
            done ==> checked_out(old(self)@, final(self)@, i as nat),
            !done ==> final(self)@ == old(self)@ && final(self).checkout == old(self).checkout,
            final(self).commits == old(self).commits,
            done || old(self)@.in_step() ==> final(self)@.in_step(),
    {
        if i >= self.commits.len() {
            return false;
        }
        match replay(&self.commits, i + 1) {
            Some(files) => {
                self.checkout = files;
                true
            },
            None => false,
        }
    }

    /// Checks out the latest revision.
    pub fn checkout_lastest(&mut self)
        requires
            old(self).commits@.len() > 0,
            replayed(old(self)@.commits, old(self).commits@.len()) is Some,
        ensures
            checked_out(old(self)@, final(self)@, (old(self).commits@.len() - 1) as nat),
            final(self).commits == old(self).commits,
            final(self)@.in_step(),
    {
        let latest = self.commits.len() - 1;
        self.checkout(latest)
    }
}

} // verus!
