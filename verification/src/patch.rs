//! The edit script of one file: how it is read off an alignment and how it
//! is applied to the file's previous content.

use crate::align::{differ_lines, left_lines, right_lines, Aligned, DiffLine};
use crate::seqs::views;
use crate::text::{
    join_lines, lemma_join_split, lemma_split_lines_nonempty, line_feed, lines_of, render_lines,
    split_lines, write_lines,
};
use vstd::prelude::*;

verus! {

/// What happens at a line.
#[derive(Debug, PartialEq, Eq, Default)]
pub enum Change {
    /// A line with this text is put in.
    Added(String),
    /// The line is taken out.
    #[default]
    Deleted,
}

/// What a `Change` stands for.
pub enum ChangeView {
    Added(Seq<char>),
    Deleted,
}

impl View for Change {
    type V = ChangeView;

    open spec fn view(&self) -> ChangeView {
        match self {
            Change::Added(text) => ChangeView::Added(text@),
            Change::Deleted => ChangeView::Deleted,
        }
    }
}

impl Clone for Change {
    fn clone(&self) -> (copy: Change)
        ensures
            copy@ == self@,
    {
        match self {
            Change::Added(text) => Change::Added(text.clone()),
            Change::Deleted => Change::Deleted,
        }
    }
}

/// One edit of one line: the line's number, counted from 1 along the
/// alignment that the edit was read off, and what happens there.
#[derive(Debug, PartialEq, Eq, Default)]
pub struct FileChange {
    pub line: usize,
    pub change: Change,
}

/// What a `FileChange` stands for.
pub struct FileChangeView {
    pub line: nat,
    pub change: ChangeView,
}

impl View for FileChange {
    type V = FileChangeView;

    open spec fn view(&self) -> FileChangeView {
        FileChangeView { line: self.line as nat, change: self.change@ }
    }
}

impl Clone for FileChange {
    fn clone(&self) -> (copy: FileChange)
        ensures
            copy@ == self@,
    {
        FileChange { line: self.line, change: self.change.clone() }
    }
}

/// The edit script of one file.
#[derive(Debug, PartialEq, Eq, Default)]
pub struct FileMod {
    pub fpath: String,
    pub changes: Vec<FileChange>,
}

/// What a `FileMod` stands for.
pub struct FileModView {
    pub fpath: Seq<char>,
    pub changes: Seq<FileChangeView>,
}

impl View for FileMod {
    type V = FileModView;

    open spec fn view(&self) -> FileModView {
        FileModView { fpath: self.fpath@, changes: views(self.changes@) }
    }
}

/// The edits that an alignment asks for. Every entry of the alignment
/// counts as a line, the first as line 1. An entry that only the old text has
/// gives a deletion at its number, one that only the new text has gives an
/// addition of its text at its number, and one that both have gives nothing.
pub open spec fn changes_from(aligned: Seq<Aligned>) -> Seq<FileChangeView>
    decreases aligned.len(),
{
    if aligned.len() == 0 {
        Seq::<FileChangeView>::empty()
    } else {
        let before = changes_from(aligned.drop_last());
        match aligned.last() {
            Aligned::Left(_) => before.push(
                FileChangeView { line: aligned.len(), change: ChangeView::Deleted },
            ),
            Aligned::Both(_) => before,
            Aligned::Right(text) => before.push(
                FileChangeView { line: aligned.len(), change: ChangeView::Added(text) },
            ),
        }
    }
}

/// `sorted` with `change` put behind the last edit whose line is not below
/// that of `change`.
pub open spec fn placed(sorted: Seq<FileChangeView>, change: FileChangeView) -> Seq<
    FileChangeView,
>
    decreases sorted.len(),
{
    if sorted.len() == 0 || sorted.last().line >= change.line {
        sorted.push(change)
    } else {
        placed(sorted.drop_last(), change).push(sorted.last())
    }
}

/// The edits in descending order of their lines, those of one line in the
/// order in which `changes` has them.
pub open spec fn by_line_descending(changes: Seq<FileChangeView>) -> Seq<FileChangeView>
    decreases changes.len(),
{
    if changes.len() == 0 {
        Seq::<FileChangeView>::empty()
    } else {
        placed(by_line_descending(changes.drop_last()), changes.last())
    }
}

/// The lines after a walk along `changes` that starts with `offset`. An
/// addition at line `n` puts its text in at place `n - 1 + offset` and raises
/// the offset by one; a deletion at line `n` takes out the line at that place
/// and lowers the offset by one. There is no result where a place lies
/// outside the lines.
pub open spec fn patched(
    lines: Seq<Seq<char>>,
    changes: Seq<FileChangeView>,
    offset: int,
) -> Option<Seq<Seq<char>>>
    decreases changes.len(),
{
    if changes.len() == 0 {
        Some(lines)
    } else {
        let at = changes.first().line - 1 + offset;
        match changes.first().change {
            ChangeView::Added(text) => if 0 <= at <= lines.len() {
                patched(lines.insert(at, text), changes.drop_first(), offset + 1)
            } else {
                None
            },
            ChangeView::Deleted => if 0 <= at < lines.len() {
                patched(lines.remove(at), changes.drop_first(), offset - 1)
            } else {
                None
            },
        }
    }
}

/// The content that an edit script makes of a file's previous content: the
/// content is cut at its line feeds, the edits are walked in descending order
/// of their lines, and the lines that are left are written out.
pub open spec fn applied(edits: FileModView, content: Seq<char>) -> Option<Seq<char>> {
    match patched(split_lines(content), by_line_descending(edits.changes), 0) {
        Some(lines) => Some(render_lines(lines)),
        None => None,
    }
}

/// The edits of `changes` that are at `line`, in order.
pub open spec fn edits_at(changes: Seq<FileChangeView>, line: nat) -> Seq<FileChangeView>
    decreases changes.len(),
{
    if changes.len() == 0 {
        Seq::<FileChangeView>::empty()
    } else if changes.last().line == line {
        edits_at(changes.drop_last(), line).push(changes.last())
    } else {
        edits_at(changes.drop_last(), line)
    }
}

/// Whether no edit stands before one of a higher line.
pub open spec fn descends(changes: Seq<FileChangeView>) -> bool {
    forall|i: int, j: int| 0 <= i < j < changes.len() ==> changes[i].line >= changes[j].line
}

proof fn lemma_placed_descends(sorted: Seq<FileChangeView>, change: FileChangeView)
    requires
        descends(sorted),
    ensures
        descends(placed(sorted, change)),
        placed(sorted, change).len() == sorted.len() + 1,
        forall|k: int|
            0 <= k < sorted.len() + 1 ==> (#[trigger] placed(sorted, change)[k]) == change || (
            exists|m: int| 0 <= m < sorted.len() && sorted[m] == placed(sorted, change)[k]),
    decreases sorted.len(),
{
    let result = placed(sorted, change);
    if sorted.len() == 0 || sorted.last().line >= change.line {
        assert forall|i: int, j: int| 0 <= i < j < result.len() implies result[i].line
            >= result[j].line by {
            if j == sorted.len() {
                assert(sorted[i].line >= sorted.last().line);
            }
        }
        assert forall|k: int| 0 <= k < sorted.len() + 1 implies (#[trigger] result[k]) == change
            || (exists|m: int| 0 <= m < sorted.len() && sorted[m] == result[k]) by {
            if k < sorted.len() {
                assert(sorted[k] == result[k]);
            }
        }
    } else {
        let shorter = sorted.drop_last();
        let inner = placed(shorter, change);
        lemma_placed_descends(shorter, change);
        assert forall|k: int| 0 <= k < sorted.len() + 1 implies (#[trigger] result[k]) == change
            || (exists|m: int| 0 <= m < sorted.len() && sorted[m] == result[k]) by {
            if k < inner.len() {
                assert(result[k] == inner[k]);
                if inner[k] != change {
                    let m = choose|m: int| 0 <= m < shorter.len() && shorter[m] == inner[k];
                    assert(sorted[m] == result[k]);
                }
            } else {
                assert(sorted[sorted.len() - 1] == result[k]);
            }
        }
        assert forall|i: int, j: int| 0 <= i < j < result.len() implies result[i].line
            >= result[j].line by {
            if j == inner.len() {
                assert(result[i] == inner[i]);
                if inner[i] != change {
                    let m = choose|m: int| 0 <= m < shorter.len() && shorter[m] == inner[i];
                    assert(sorted[m].line >= sorted.last().line);
                }
            } else {
                assert(result[i] == inner[i] && result[j] == inner[j]);
            }
        }
    }
}

proof fn lemma_placed_edits_at(sorted: Seq<FileChangeView>, change: FileChangeView, line: nat)
    ensures
        edits_at(placed(sorted, change), line) == if change.line == line {
            edits_at(sorted, line).push(change)
        } else {
            edits_at(sorted, line)
        },
    decreases sorted.len(),
{
    let result = placed(sorted, change);
    if sorted.len() == 0 || sorted.last().line >= change.line {
        assert(result.drop_last() =~= sorted);
    } else {
        let shorter = sorted.drop_last();
        lemma_placed_edits_at(shorter, change, line);
        assert(result.drop_last() =~= placed(shorter, change));
        if sorted.last().line == line && change.line == line {
            assert(false);
        }
    }
}

/// The order that `by_line_descending` gives is descending.
pub proof fn lemma_by_line_descending_descends(changes: Seq<FileChangeView>)
    ensures
        descends(by_line_descending(changes)),
        by_line_descending(changes).len() == changes.len(),
    decreases changes.len(),
{
    if changes.len() > 0 {
        lemma_by_line_descending_descends(changes.drop_last());
        lemma_placed_descends(by_line_descending(changes.drop_last()), changes.last());
    }
}

/// The order that `by_line_descending` gives keeps the edits of each line,
/// and keeps them in the order in which they were given. With
/// `lemma_by_line_descending_descends` this says that it is the stable sort
/// of the edits by descending line.
pub proof fn lemma_by_line_descending_keeps(changes: Seq<FileChangeView>, line: nat)
    ensures
        edits_at(by_line_descending(changes), line) == edits_at(changes, line),
    decreases changes.len(),
{
    if changes.len() > 0 {
        lemma_by_line_descending_keeps(changes.drop_last(), line);
        lemma_placed_edits_at(by_line_descending(changes.drop_last()), changes.last(), line);
    }
}

proof fn lemma_placed_at(sorted: Seq<FileChangeView>, change: FileChangeView, at: int)
    requires
        0 <= at <= sorted.len(),
        at > 0 ==> sorted[at - 1].line >= change.line,
        forall|j: int| at <= j < sorted.len() ==> sorted[j].line < change.line,
    ensures
        placed(sorted, change) == sorted.insert(at, change),
    decreases sorted.len(),
{
    if at == sorted.len() {
        assert(sorted.insert(at, change) =~= sorted.push(change));
    } else {
        lemma_placed_at(sorted.drop_last(), change, at);
        assert(sorted.insert(at, change) =~= sorted.drop_last().insert(at, change).push(
            sorted.last(),
        ));
    }
}

/// What an alignment with at most one edit says of its two sides: without an
/// edit they are the same lines, and the one edit, made at the place one
/// before its line, turns the left side into the right one.
proof fn lemma_single_edit(aligned: Seq<Aligned>)
    requires
        changes_from(aligned).len() <= 1,
    ensures
        changes_from(aligned).len() == 0 ==> left_lines(aligned) == right_lines(aligned)
            && left_lines(aligned).len() == aligned.len(),
        changes_from(aligned).len() == 1 ==> {
            let edit = changes_from(aligned)[0];
            let at = edit.line - 1;
            match edit.change {
                ChangeView::Added(text) => 0 <= at <= left_lines(aligned).len() && left_lines(
                    aligned,
                ).insert(at, text) == right_lines(aligned),
                ChangeView::Deleted => 0 <= at < left_lines(aligned).len() && left_lines(
                    aligned,
                ).remove(at) == right_lines(aligned),
            }
        },
    decreases aligned.len(),
{
    if aligned.len() > 0 {
        let init = aligned.drop_last();
        let left = left_lines(init);
        let right = right_lines(init);
        match aligned.last() {
            Aligned::Both(line) => {
                lemma_single_edit(init);
                if changes_from(init).len() == 1 {
                    let edit = changes_from(init)[0];
                    let at = edit.line - 1;
                    match edit.change {
                        ChangeView::Added(text) => {
                            assert(left.push(line).insert(at, text) =~= left.insert(at, text).push(
                                line,
                            ));
                        },
                        ChangeView::Deleted => {
                            assert(left.push(line).remove(at) =~= left.remove(at).push(line));
                        },
                    }
                }
            },
            Aligned::Left(line) => {
                assert(changes_from(init).len() == 0);
                lemma_single_edit(init);
                assert(left.push(line).remove(init.len() as int) =~= left);
            },
            Aligned::Right(line) => {
                assert(changes_from(init).len() == 0);
                lemma_single_edit(init);
                assert(left.insert(init.len() as int, line) =~= left.push(line));
            },
        }
    }
}

/// Whether the differ reads the lines of `text` as they stand: the text is
/// not empty, and none of its lines that a line feed ends has a carriage
/// return at its end.
pub open spec fn reads_plainly(text: Seq<char>) -> bool {
    differ_lines(text) == split_lines(text)
}

/// A piece of a text holds no character that the text does not hold.
proof fn lemma_pieces_hold_only(text: Seq<char>, c: char)
    requires
        !text.contains(c),
    ensures
        forall|i: int|
            0 <= i < split_lines(text).len() ==> !(#[trigger] split_lines(text)[i]).contains(c),
    decreases text.len(),
{
    if text.len() > 0 {
        let shorter = text.drop_last();
        assert(!shorter.contains(c)) by {
            if shorter.contains(c) {
                let j = choose|j: int| 0 <= j < shorter.len() && shorter[j] == c;
                assert(text[j] == c);
            }
        }
        lemma_pieces_hold_only(shorter, c);
        let before = split_lines(shorter);
        let pieces = split_lines(text);
        lemma_split_lines_nonempty(shorter);
        assert forall|i: int| 0 <= i < pieces.len() implies !(#[trigger] pieces[i]).contains(c) by {
            if pieces[i].contains(c) {
                let j = choose|j: int| 0 <= j < pieces[i].len() && pieces[i][j] == c;
                if text.last() == line_feed() {
                    assert(i < before.len());
                    assert(before[i][j] == c);
                } else if i == before.len() - 1 {
                    assert(text[text.len() - 1] == text.last());
                    if j < before[i].len() {
                        assert(before[i][j] == c);
                    }
                } else {
                    assert(before[i][j] == c);
                }
            }
        }
    }
}

/// The differ reads the lines of a text as they stand where the text is not
/// empty and holds no carriage return.
pub proof fn lemma_reads_plainly(text: Seq<char>)
    requires
        text.len() > 0,
        !text.contains('\r'),
    ensures
        reads_plainly(text),
{
    lemma_pieces_hold_only(text, '\r');
    let pieces = split_lines(text);
    assert forall|i: int| 0 <= i < pieces.len() implies differ_lines(text)[i] == pieces[i] by {
        if pieces[i].len() > 0 && pieces[i].last() == '\r' {
            assert(pieces[i][pieces[i].len() - 1] == '\r');
        }
    }
    assert(differ_lines(text) =~= pieces);
}

/// Applying the edits of an alignment of two texts to the first text gives
/// the second one, where the alignment asks for one edit at most.
///
/// The alignment is one of the two texts as the differ makes it: its two
/// sides are the lines that the differ reads in them. The differ must read
/// the lines of the first text as they stand, unless both texts are empty,
/// and the second text must be empty or end in a line feed and be read as it
/// stands. With two edits or more the walk of `patched` misses the places of
/// all but the first, so nothing is claimed then.
pub proof fn lemma_patch_round_trip(
    fpath: Seq<char>,
    prior: Seq<char>,
    current: Seq<char>,
    aligned: Seq<Aligned>,
)
    requires
        left_lines(aligned) == differ_lines(prior),
        right_lines(aligned) == differ_lines(current),
        changes_from(aligned).len() <= 1,
        reads_plainly(prior) || (prior.len() == 0 && current.len() == 0),
        current.len() == 0 || (reads_plainly(current) && current.last() == line_feed()),
    ensures
        applied(FileModView { fpath, changes: changes_from(aligned) }, prior) == Some(current),
{
    let edits = changes_from(aligned);
    let lines = split_lines(prior);
    let sorted = by_line_descending(edits);
    lemma_single_edit(aligned);
    lemma_join_split(current);
    let written = if current.len() == 0 {
        Seq::<Seq<char>>::empty()
    } else {
        split_lines(current)
    };
    assert(render_lines(written) == current);
    assert(right_lines(aligned) == written);
    if edits.len() == 0 {
        assert(patched(lines, sorted, 0) == Some(lines));
        if prior.len() == 0 {
            assert(join_lines(lines) =~= Seq::<char>::empty());
            assert(render_lines(lines) == current);
        }
    } else {
        assert(left_lines(aligned).len() > 0 || written.len() > 0);
        assert(lines == left_lines(aligned));
        assert(by_line_descending(edits.drop_last()).len() == 0);
        assert(sorted =~= seq![edits[0]]);
        let rest = sorted.drop_first();
        assert(rest.len() == 0);
        let at = edits[0].line - 1;
        match edits[0].change {
            ChangeView::Added(text) => {
                assert(patched(lines.insert(at, text), rest, 1) == Some(lines.insert(at, text)));
                assert(patched(lines, sorted, 0) == Some(written));
            },
            ChangeView::Deleted => {
                assert(patched(lines.remove(at), rest, -1) == Some(lines.remove(at)));
                assert(patched(lines, sorted, 0) == Some(written));
            },
        }
    }
}

/// The edits of `changes` in descending order of their lines.
fn sorted_changes(changes: &Vec<FileChange>) -> (sorted: Vec<FileChange>)
    ensures
        views(sorted@) == by_line_descending(views(changes@)),
{
    let mut sorted: Vec<FileChange> = Vec::new();
    let mut i: usize = 0;
    while i < changes.len()
        invariant
            i <= changes.len(),
            views(sorted@) == by_line_descending(views(changes@).take(i as int)),
        decreases changes.len() - i,
    {
        let change = changes[i].clone();
        let mut at: usize = sorted.len();
        while at > 0 && sorted[at - 1].line < change.line
            invariant
                at <= sorted.len(),
                forall|j: int| at <= j < sorted.len() ==> sorted@[j].line < change.line,
            decreases at,
        {
            at -= 1;
        }
        proof {
            let done = views(changes@).take(i as int);
            let next = views(changes@).take(i + 1);
            assert(next.drop_last() =~= done);
            assert(next.last() == change@);
            lemma_placed_at(views(sorted@), change@, at as int);
            assert(views(sorted@.insert(at as int, change)) =~= views(sorted@).insert(
                at as int,
                change@,
            ));
        }
        sorted.insert(at, change);
        i += 1;
    }
    assert(views(changes@).take(changes.len() as int) =~= views(changes@));
    sorted
}

/// Walks `changes` over `lines`, starting with the offset 0.
fn patch_lines(given: Vec<String>, changes: &Vec<FileChange>) -> (result: Option<
    Vec<String>,
>)
    ensures
        match result {
            Some(after) => patched(views(given@), views(changes@), 0) == Some(views(after@)),
            None => patched(views(given@), views(changes@), 0) is None,
        },
{
    let ghost start = views(given@);
    let mut lines = given;
    let mut offset: i128 = 0;
    let mut k: usize = 0;
    assert(views(changes@).skip(0) =~= views(changes@));
    while k < changes.len()
        invariant
            k <= changes.len(),
            -(k as int) <= offset <= k as int,
            start == views(given@),
            patched(start, views(changes@), 0) == patched(
                views(lines@),
                views(changes@).skip(k as int),
                offset as int,
            ),
        decreases changes.len() - k,
    {
        let ghost rest = views(changes@).skip(k as int);
        proof {
            assert(rest.first() == changes@[k as int]@);
            assert(rest.drop_first() =~= views(changes@).skip(k + 1));
        }
        let at: i128 = changes[k].line as i128 - 1 + offset;
        match &changes[k].change {
            Change::Added(text) => {
                if at < 0 || at > lines.len() as i128 {
                    return None;
                }
                proof {
                    assert(views(lines@.insert(at as int, *text)) =~= views(lines@).insert(
                        at as int,
                        text@,
                    ));
                }
                lines.insert(at as usize, text.clone());
                offset = offset + 1;
            },
            Change::Deleted => {
                if at < 0 || at >= lines.len() as i128 {
                    return None;
                }
                proof {
                    assert(views(lines@.remove(at as int)) =~= views(lines@).remove(at as int));
                }
                lines.remove(at as usize);
                offset = offset - 1;
            },
        }
        k += 1;
    }
    Some(lines)
}

impl FileMod {
    /// Reads the edit script of the file at `fpath` off an alignment of its
    /// previous content with its present one.
    pub fn from_changes(fpath: String, changes: Vec<DiffLine>) -> (edits: FileMod)
        ensures
            edits@.fpath == fpath@,
            edits@.changes == changes_from(views(changes@)),
    {
        let mut found: Vec<FileChange> = Vec::new();
        let mut i: usize = 0;
        while i < changes.len()
            invariant
                i <= changes.len(),
                views(found@) == changes_from(views(changes@).take(i as int)),
            decreases changes.len() - i,
        {
            proof {
                let done = views(changes@).take(i as int);
                let next = views(changes@).take(i + 1);
                assert(next.drop_last() =~= done);
                assert(next.last() == changes@[i as int]@);
            }
            let ghost before = views(found@);
            match &changes[i] {
                DiffLine::Left(_) => {
                    found.push(FileChange { line: i + 1, change: Change::Deleted });
                    assert(views(found@) =~= before.push(
                        FileChangeView { line: (i + 1) as nat, change: ChangeView::Deleted },
                    ));
                },
                DiffLine::Both(_) => {},
                DiffLine::Right(text) => {
                    found.push(FileChange { line: i + 1, change: Change::Added(text.clone()) });
                    assert(views(found@) =~= before.push(
                        FileChangeView { line: (i + 1) as nat, change: ChangeView::Added(text@) },
                    ));
                },
            }
            i += 1;
        }
        assert(views(changes@).take(changes.len() as int) =~= views(changes@));
        FileMod { fpath, changes: found }
    }

    /// Whether the script holds no edit.
    pub fn is_empty(&self) -> (empty: bool)
        ensures
            empty == (self@.changes.len() == 0),
    {
        self.changes.len() == 0
    }

    /// Applies the script to `content` where every edit finds its place, and
    /// gives nothing where one does not.
    pub fn try_apply(&self, content: &str) -> (result: Option<String>)
        ensures
            match result {
                Some(text) => applied(self@, content@) == Some(text@),
                None => applied(self@, content@) is None,
            },
    {
        let sorted = sorted_changes(&self.changes);
        match patch_lines(lines_of(content), &sorted) {
            Some(lines) => Some(write_lines(&lines)),
            None => None,
        }
    }

    /// Applies the script to `content`.
    pub fn apply(&self, content: &str) -> (text: String)
        requires
            applied(self@, content@) is Some,
        ensures
            applied(self@, content@) == Some(text@),
    {
        match self.try_apply(content) {
            Some(text) => text,
            None => {
                proof {
                    assert(false);
                }
                String::new()
            },
        }
    }
}

impl Clone for FileMod {
    fn clone(&self) -> (copy: FileMod)
        ensures
            copy@ == self@,
    {
        let changes = self.changes.clone();
        proof {
            assert forall|i: int| 0 <= i < changes.len() implies changes@[i]@
                == self.changes@[i]@ by {
                assert(cloned::<FileChange>(self.changes@[i], changes@[i]));
            }
            assert(views(changes@) =~= views(self.changes@));
        }
        FileMod { fpath: self.fpath.clone(), changes }
    }
}

} // verus!
