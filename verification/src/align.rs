//! The line differ: how the lines of two texts are laid side by side.

use crate::seqs::views;
use crate::text::{lines_of, split_lines};
use vstd::prelude::*;

verus! {

/// One line of an alignment of an old text with a new one.
#[derive(Debug, PartialEq, Eq)]
pub enum DiffLine {
    /// A line that only the old text has.
    Left(String),
    /// A line that both texts have.
    Both(String),
    /// A line that only the new text has.
    Right(String),
}

/// What a `DiffLine` stands for.
pub enum Aligned {
    Left(Seq<char>),
    Both(Seq<char>),
    Right(Seq<char>),
}

impl View for DiffLine {
    type V = Aligned;

    open spec fn view(&self) -> Aligned {
        match self {
            DiffLine::Left(line) => Aligned::Left(line@),
            DiffLine::Both(line) => Aligned::Both(line@),
            DiffLine::Right(line) => Aligned::Right(line@),
        }
    }
}

impl Clone for DiffLine {
    fn clone(&self) -> (copy: DiffLine)
        ensures
            copy@ == self@,
    {
        match self {
            DiffLine::Left(line) => DiffLine::Left(line.clone()),
            DiffLine::Both(line) => DiffLine::Both(line.clone()),
            DiffLine::Right(line) => DiffLine::Right(line.clone()),
        }
    }
}

/// The lines of the old text that an alignment accounts for, in order.
pub open spec fn left_lines(aligned: Seq<Aligned>) -> Seq<Seq<char>>
    decreases aligned.len(),
{
    if aligned.len() == 0 {
        Seq::<Seq<char>>::empty()
    } else {
        let before = left_lines(aligned.drop_last());
        match aligned.last() {
            Aligned::Left(line) => before.push(line),
            Aligned::Both(line) => before.push(line),
            Aligned::Right(_) => before,
        }
    }
}

/// The lines of the new text that an alignment accounts for, in order.
pub open spec fn right_lines(aligned: Seq<Aligned>) -> Seq<Seq<char>>
    decreases aligned.len(),
{
    if aligned.len() == 0 {
        Seq::<Seq<char>>::empty()
    } else {
        let before = right_lines(aligned.drop_last());
        match aligned.last() {
            Aligned::Left(_) => before,
            Aligned::Both(line) => before.push(line),
            Aligned::Right(line) => before.push(line),
        }
    }
}

/// The alignment that keeps every one of `lines` on both sides.
pub open spec fn all_kept(lines: Seq<Seq<char>>) -> Seq<Aligned> {
    Seq::new(lines.len(), |i: int| Aligned::Both(lines[i]))
}

/// `piece` without a carriage return at its end, if it has one there.
pub open spec fn without_carriage_return(piece: Seq<char>) -> Seq<char> {
    if piece.len() > 0 && piece.last() == '\r' {
        piece.drop_last()
    } else {
        piece
    }
}

/// The lines that the differ reads in `text`: none in the empty text, and
/// else the pieces between its line feeds, each piece that a line feed ends
/// taken without a carriage return just before that line feed.
pub open spec fn differ_lines(text: Seq<char>) -> Seq<Seq<char>> {
    if text.len() == 0 {
        Seq::<Seq<char>>::empty()
    } else {
        let pieces = split_lines(text);
        Seq::new(
            pieces.len(),
            |i: int|
                if i + 1 < pieces.len() {
                    without_carriage_return(pieces[i])
                } else {
                    pieces[i]
                },
        )
    }
}

/// Whether two texts are small enough for the differ. The differ fills a
/// table with one cell of four bytes for each pair of a line of the one text
/// and a line of the other, and one more row and column, and it reserves
/// room for a result with as many entries as the longer text has lines. Below
/// this bound neither is more than a vector can hold.
pub open spec fn diff_fits(left: Seq<char>, right: Seq<char>) -> bool {
    (split_lines(left).len() + 1) * (split_lines(right).len() + 1) <= usize::MAX / 128
}

/// The alignment that the differ computes for two texts. It is given no
/// definition here: what is known of it is what `str_diff` says of its result.
pub uninterp spec fn line_alignment(left: Seq<char>, right: Seq<char>) -> Seq<Aligned>;

/// Calls `diff::lines` on the two texts and copies each entry of its result
/// into a `DiffLine`.
///
/// The result is a function of the two texts; `line_alignment` names it. Of
/// that alignment the contract claims what the source of `diff::lines` shows
/// of every result: the entries of the left and both kinds are, in order, the
/// lines of `s1`; those of the right and both kinds are the lines of `s2`; and
/// two equal texts, which are all common prefix, give entries of the both
/// kind only. Which common lines a result keeps where the texts differ is not
/// stated. The texts must be small enough for the differ's table.
#[verifier::external_body]
pub fn str_diff(s1: &str, s2: &str) -> (aligned: Vec<DiffLine>)
    requires
        diff_fits(s1@, s2@),
    ensures
        views(aligned@) == line_alignment(s1@, s2@),
        left_lines(views(aligned@)) == differ_lines(s1@),
        right_lines(views(aligned@)) == differ_lines(s2@),
        s1@ == s2@ ==> views(aligned@) == all_kept(differ_lines(s1@)),
{
    let mut aligned = Vec::new();
    for entry in diff::lines(s1, s2) {
        aligned.push(
            match entry {
                diff::Result::Left(line) => DiffLine::Left(line.to_owned()),
                diff::Result::Both(line, _) => DiffLine::Both(line.to_owned()),
                diff::Result::Right(line) => DiffLine::Right(line.to_owned()),
            },
        );
    }
    aligned
}

/// Tests whether two texts are small enough for `str_diff`.
pub fn fits_diff(s1: &str, s2: &str) -> (fits: bool)
    ensures
        fits == diff_fits(s1@, s2@),
{
    let rows: usize = lines_of(s1).len();
    let columns: usize = lines_of(s2).len();
    let limit: usize = usize::MAX / 128;
    if rows >= limit || columns >= limit {
        assert((rows + 1) * (columns + 1) > limit) by (nonlinear_arith)
            requires
                rows >= 1,
                columns >= 1,
                rows >= limit || columns >= limit,
        ;
        false
    } else {
        match (rows + 1).checked_mul(columns + 1) {
            Some(cells) => cells <= limit,
            None => false,
        }
    }
}

} // verus!
