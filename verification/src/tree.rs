//! A snapshot of a directory tree: the text of each file under its path.

use vstd::prelude::*;

verus! {

/// The paths of a sequence of entries, in order.
spec fn paths_of(entries: Seq<(String, String)>) -> Seq<Seq<char>> {
    Seq::new(entries.len(), |i: int| entries[i].0@)
}

/// The map that a sequence of entries stands for.
spec fn map_of(entries: Seq<(String, String)>) -> Map<Seq<char>, Seq<char>> {
    Map::new(
        |path: Seq<char>| paths_of(entries).contains(path),
        |path: Seq<char>| entries[paths_of(entries).index_of(path)].1@,
    )
}

proof fn lemma_slot(entries: Seq<(String, String)>, i: int)
    requires
        paths_of(entries).no_duplicates(),
        0 <= i < entries.len(),
    ensures
        map_of(entries).contains_key(entries[i].0@),
        map_of(entries)[entries[i].0@] == entries[i].1@,
{
    let path = paths_of(entries)[i];
    assert(paths_of(entries).contains(path));
    let j = paths_of(entries).index_of(path);
    assert(paths_of(entries)[j] == path);
}

proof fn lemma_key_place(entries: Seq<(String, String)>, path: Seq<char>) -> (i: int)
    requires
        map_of(entries).contains_key(path),
    ensures
        0 <= i < entries.len(),
        entries[i].0@ == path,
{
    let i = paths_of(entries).index_of(path);
    assert(paths_of(entries)[i] == path);
    i
}

proof fn lemma_put(
    before: Seq<(String, String)>,
    after: Seq<(String, String)>,
    i: int,
    entry: (String, String),
)
    requires
        paths_of(before).no_duplicates(),
        0 <= i < before.len(),
        before[i].0@ == entry.0@,
        after == before.update(i, entry),
    ensures
        paths_of(after).no_duplicates(),
        map_of(after) == map_of(before).insert(entry.0@, entry.1@),
{
    assert(paths_of(after) =~= paths_of(before));
    lemma_slot(before, i);
    assert forall|p: Seq<char>| #[trigger] map_of(after).contains_key(p) implies map_of(after)[p]
        == map_of(before).insert(entry.0@, entry.1@)[p] by {
        let j = lemma_key_place(after, p);
        lemma_slot(after, j);
        lemma_slot(before, j);
        if j != i {
            assert(paths_of(before)[j] != paths_of(before)[i]);
        }
    }
    assert(map_of(after).dom() =~= map_of(before).insert(entry.0@, entry.1@).dom());
    assert(map_of(after) =~= map_of(before).insert(entry.0@, entry.1@));
}

proof fn lemma_push(before: Seq<(String, String)>, entry: (String, String))
    requires
        paths_of(before).no_duplicates(),
        !paths_of(before).contains(entry.0@),
    ensures
        paths_of(before.push(entry)).no_duplicates(),
        map_of(before.push(entry)) == map_of(before).insert(entry.0@, entry.1@),
{
    let after = before.push(entry);
    assert(paths_of(after) =~= paths_of(before).push(entry.0@));
    assert forall|a: int, b: int|
        0 <= a < paths_of(after).len() && 0 <= b < paths_of(after).len() && a
            != b implies paths_of(after)[a] != paths_of(after)[b] by {
        if a < before.len() {
            assert(paths_of(before).contains(paths_of(before)[a]));
        }
        if b < before.len() {
            assert(paths_of(before).contains(paths_of(before)[b]));
        }
    }
    assert forall|p: Seq<char>| map_of(after).contains_key(p) implies #[trigger] map_of(after)[p]
        == map_of(before).insert(entry.0@, entry.1@)[p] && map_of(before).insert(
        entry.0@,
        entry.1@,
    ).contains_key(p) by {
        let j = lemma_key_place(after, p);
        lemma_slot(after, j);
        if j < before.len() {
            lemma_slot(before, j);
        }
    }
    assert forall|p: Seq<char>|
        map_of(before).insert(entry.0@, entry.1@).contains_key(p) implies map_of(
        after,
    ).contains_key(p) by {
        if p == entry.0@ {
            lemma_slot(after, before.len() as int);
        } else {
            let j = lemma_key_place(before, p);
            lemma_slot(after, j);
        }
    }
    assert(map_of(after) =~= map_of(before).insert(entry.0@, entry.1@));
}

proof fn lemma_take_out(before: Seq<(String, String)>, i: int)
    requires
        paths_of(before).no_duplicates(),
        0 <= i < before.len(),
    ensures
        paths_of(before.remove(i)).no_duplicates(),
        map_of(before.remove(i)) == map_of(before).remove(before[i].0@),
{
    let after = before.remove(i);
    let gone = before[i].0@;
    assert forall|a: int, b: int|
        0 <= a < paths_of(after).len() && 0 <= b < paths_of(after).len() && a
            != b implies paths_of(after)[a] != paths_of(after)[b] by {
        let a0 = if a < i { a } else { a + 1 };
        let b0 = if b < i { b } else { b + 1 };
        assert(paths_of(after)[a] == paths_of(before)[a0]);
        assert(paths_of(after)[b] == paths_of(before)[b0]);
    }
    assert forall|p: Seq<char>| #[trigger] map_of(after).contains_key(p) implies map_of(
        before,
    ).remove(gone).contains_key(p) && map_of(after)[p] == map_of(before).remove(gone)[p] by {
        let j = lemma_key_place(after, p);
        let j0 = if j < i { j } else { j + 1 };
        assert(paths_of(before)[j0] == p);
        assert(paths_of(before)[i] == gone);
        lemma_slot(after, j);
        lemma_slot(before, j0);
    }
    assert forall|p: Seq<char>| #[trigger]
        map_of(before).remove(gone).contains_key(p) implies map_of(after).contains_key(p) by {
        let j0 = lemma_key_place(before, p);
        let j = if j0 < i { j0 } else { j0 - 1 };
        lemma_slot(after, j);
    }
    assert(map_of(after).dom() =~= map_of(before).remove(gone).dom());
    assert(map_of(after) =~= map_of(before).remove(gone));
}

/// A finite map from file paths to file contents.
///
/// The entries are held in a vector in which no path occurs twice. The view
/// is the map itself; `order` names the paths in the order in which the
/// vector holds them, which is the order in which `path_at` and `content_at`
/// walk the tree.
#[derive(Debug)]
pub struct FileTree {
    entries: Vec<(String, String)>,
}

impl Default for FileTree {
    fn default() -> (tree: FileTree)
        ensures
            tree@ == Map::<Seq<char>, Seq<char>>::empty(),
    {
        FileTree::new()
    }
}

impl Clone for FileTree {
    /// A second tree with the same files, walked in the same order.
    fn clone(&self) -> (copy: FileTree)
        ensures
            copy@ == self@,
            copy.order() == self.order(),
    {
        proof {
            use_type_invariant(self);
        }
        let mut entries: Vec<(String, String)> = Vec::new();
        let mut i: usize = 0;
        while i < self.entries.len()
            invariant
                i <= self.entries@.len(),
                entries@.len() == i,
                forall|j: int|
                    0 <= j < i ==> (#[trigger] entries@[j]).0@ == self.entries@[j].0@
                        && entries@[j].1@ == self.entries@[j].1@,
            decreases self.entries@.len() - i,
        {
            entries.push((self.entries[i].0.clone(), self.entries[i].1.clone()));
            i += 1;
        }
        proof {
            assert(paths_of(entries@) =~= paths_of(self.entries@));
            assert(map_of(entries@) =~= map_of(self.entries@));
        }
        FileTree { entries }
    }
}

impl PartialEq for FileTree {
    /// Two trees are equal where they hold the same files with the same
    /// contents, in whatever order they hold them.
    fn eq(&self, other: &FileTree) -> (same: bool) {
        self.same_files(other)
    }
}

impl vstd::std_specs::cmp::PartialEqSpecImpl for FileTree {
    open spec fn obeys_eq_spec() -> bool {
        true
    }

    open spec fn eq_spec(&self, other: &FileTree) -> bool {
        self@ == other@
    }
}

impl Eq for FileTree {

}

impl View for FileTree {
    type V = Map<Seq<char>, Seq<char>>;

    closed spec fn view(&self) -> Map<Seq<char>, Seq<char>> {
        map_of(self.entries@)
    }
}

impl FileTree {
    /// The paths of the tree in the order in which it holds them.
    pub closed spec fn order(&self) -> Seq<Seq<char>> {
        paths_of(self.entries@)
    }

    #[verifier::type_invariant]
    spec fn distinct_paths(&self) -> bool {
        paths_of(self.entries@).no_duplicates()
    }

    /// What the walk and the view have to do with each other: the walk meets
    /// each path of the map once.
    pub open spec fn walkable(&self) -> bool {
        &&& self.order().no_duplicates()
        &&& self@.dom().finite()
        &&& self.order().len() == self@.len()
        &&& forall|path: Seq<char>| self@.contains_key(path) <==> self.order().contains(path)
    }

    /// The tree without any file.
    pub fn new() -> (tree: FileTree)
        ensures
            tree@ == Map::<Seq<char>, Seq<char>>::empty(),
            tree.order().len() == 0,
    {
        let tree = FileTree { entries: Vec::new() };
        assert(tree@ =~= Map::<Seq<char>, Seq<char>>::empty());
        tree
    }

    /// The number of files.
    pub fn len(&self) -> (count: usize)
        ensures
            count == self.order().len(),
            self.walkable(),
    {
        proof {
            use_type_invariant(self);
            self.order().unique_seq_to_set();
            assert(self@.dom() =~= self.order().to_set());
            vstd::seq_lib::seq_to_set_is_finite(self.order());
        }
        self.entries.len()
    }

    /// Whether the tree holds no file.
    pub fn is_empty(&self) -> (empty: bool)
        ensures
            empty == (self@ == Map::<Seq<char>, Seq<char>>::empty()),
            empty == (self.order().len() == 0),
    {
        let count = self.len();
        proof {
            if count == 0 {
                assert(self@ =~= Map::<Seq<char>, Seq<char>>::empty());
            } else {
                assert(self.order().contains(self.order()[0]));
                assert(self@.contains_key(self.order()[0]));
            }
        }
        count == 0
    }

    /// The path at place `i` of the walk.
    pub fn path_at(&self, i: usize) -> (path: &String)
        requires
            i < self.order().len(),
        ensures
            path@ == self.order()[i as int],
            self@.contains_key(path@),
    {
        proof {
            use_type_invariant(self);
            lemma_slot(self.entries@, i as int);
        }
        &self.entries[i].0
    }

    /// The content of the file at place `i` of the walk.
    pub fn content_at(&self, i: usize) -> (content: &String)
        requires
            i < self.order().len(),
        ensures
            content@ == self@[self.order()[i as int]],
    {
        proof {
            use_type_invariant(self);
            lemma_slot(self.entries@, i as int);
        }
        &self.entries[i].1
    }

    fn find(&self, path: &String) -> (place: Option<usize>)
        ensures
            match place {
                Some(i) => i < self.entries@.len() && self.entries@[i as int].0@ == path@,
                None => !paths_of(self.entries@).contains(path@),
            },
    {
        let mut i: usize = 0;
        while i < self.entries.len()
            invariant
                i <= self.entries@.len(),
                forall|j: int| 0 <= j < i ==> paths_of(self.entries@)[j] != path@,
            decreases self.entries@.len() - i,
        {
            if self.entries[i].0 == *path {
                return Some(i);
            }
            i += 1;
        }
        None
    }

    /// Whether the tree holds a file at `path`.
    pub fn contains(&self, path: &str) -> (held: bool)
        ensures
            held == self@.contains_key(path@),
    {
        let key = path.to_owned();
        let place = self.find(&key);
        proof {
            if let Some(i) = place {
                use_type_invariant(self);
                lemma_slot(self.entries@, i as int);
            }
        }
        place.is_some()
    }

    /// The content of the file at `path`, if the tree holds one.
    pub fn get(&self, path: &str) -> (content: Option<&String>)
        ensures
            match content {
                Some(text) => self@.contains_key(path@) && text@ == self@[path@],
                None => !self@.contains_key(path@),
            },
    {
        let key = path.to_owned();
        match self.find(&key) {
            Some(i) => {
                proof {
                    use_type_invariant(self);
                    lemma_slot(self.entries@, i as int);
                }
                Some(&self.entries[i].1)
            },
            None => None,
        }
    }

    /// Puts `content` at `path`, in place of what was there if anything was.
    pub fn insert(&mut self, path: String, content: String)
        ensures
            final(self)@ == old(self)@.insert(path@, content@),
    {
        proof {
            use_type_invariant(&*self);
        }
        let found = self.find(&path);
        let mut entries: Vec<(String, String)> = Vec::new();
        core::mem::swap(&mut self.entries, &mut entries);
        let ghost before = entries@;
        match found {
            Some(i) => {
                proof {
                    lemma_put(
                        before,
                        before.update(i as int, (path, content)),
                        i as int,
                        (path, content),
                    );
                }
                entries.set(i, (path, content));
            },
            None => {
                proof {
                    lemma_push(before, (path, content));
                }
                entries.push((path, content));
            },
        }
        self.entries = entries;
    }

    /// Takes the file at `path` out of the tree, if it holds one.
    pub fn remove(&mut self, path: &str)
        ensures
            final(self)@ == old(self)@.remove(path@),
    {
        proof {
            use_type_invariant(&*self);
        }
        let key = path.to_owned();
        match self.find(&key) {
            Some(i) => {
                let mut entries: Vec<(String, String)> = Vec::new();
                core::mem::swap(&mut self.entries, &mut entries);
                proof {
                    lemma_take_out(entries@, i as int);
                }
                entries.remove(i);
                self.entries = entries;
            },
            None => {
                assert(self@ =~= self@.remove(path@));
            },
        }
    }

    /// Whether two trees hold the same files with the same contents, in
    /// whatever order they hold them.
    pub fn same_files(&self, other: &FileTree) -> (same: bool)
        ensures
            same == (self@ == other@),
    {
        let count = self.len();
        if count != other.len() {
            return false;
        }
        let mut i: usize = 0;
        while i < count
            invariant
                i <= count,
                count == self.order().len(),
                count == other.order().len(),
                self.walkable(),
                other.walkable(),
                forall|j: int|
                    0 <= j < i ==> other@.contains_key(#[trigger] self.order()[j])
                        && other@[self.order()[j]] == self@[self.order()[j]],
            decreases count - i,
        {
            let path = self.path_at(i);
            match other.get(path.as_str()) {
                Some(content) => {
                    if !(*content == *self.content_at(i)) {
                        return false;
                    }
                },
                None => {
                    return false;
                },
            }
            i += 1;
        }
        proof {
            assert forall|p: Seq<char>| #[trigger]
                self@.contains_key(p) implies other@.contains_key(p) && other@[p] == self@[p] by {
                assert(self.order().contains(p));
                let j = choose|j: int| 0 <= j < self.order().len() && self.order()[j] == p;
                assert(other@.contains_key(self.order()[j]));
            }
            assert(self@.dom().subset_of(other@.dom()));
            vstd::set_lib::lemma_subset_equality(self@.dom(), other@.dom());
            assert(self@ =~= other@);
        }
        true
    }
}

} // verus!
