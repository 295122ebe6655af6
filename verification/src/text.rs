//! Texts as sequences of lines: how a text is cut at its line feeds and how
//! a sequence of lines is written out again.

use crate::seqs::views;
use regex::Regex;
use vstd::prelude::*;

verus! {

/// The character that ends a line.
pub open spec fn line_feed() -> char {
    '\n'
}

/// The pieces of `text` between its line feeds, in order. A text without a
/// line feed is a single piece, and a final line feed is followed by an empty
/// piece, so the result is never empty.
pub open spec fn split_lines(text: Seq<char>) -> Seq<Seq<char>>
    decreases text.len(),
{
    if text.len() == 0 {
        seq![Seq::<char>::empty()]
    } else {
        let before = split_lines(text.drop_last());
        if text.last() == line_feed() {
            before.push(Seq::<char>::empty())
        } else {
            before.update(before.len() - 1, before.last().push(text.last()))
        }
    }
}

/// The lines with one line feed between each two neighbours.
pub open spec fn join_lines(lines: Seq<Seq<char>>) -> Seq<char>
    decreases lines.len(),
{
    if lines.len() == 0 {
        Seq::<char>::empty()
    } else if lines.len() == 1 {
        lines[0]
    } else {
        join_lines(lines.drop_last()).push(line_feed()) + lines.last()
    }
}

/// The text that a sequence of lines is written out as: the lines joined by
/// line feeds, with one more line feed at the end where the joined text is not
/// empty and does not end in one already.
pub open spec fn render_lines(lines: Seq<Seq<char>>) -> Seq<char> {
    terminated(join_lines(lines))
}

/// `text` itself if it is empty or ends in a line feed, else `text` with a
/// line feed added.
pub open spec fn terminated(text: Seq<char>) -> Seq<char> {
    if text.len() > 0 && text.last() != line_feed() {
        text.push(line_feed())
    } else {
        text
    }
}

/// A text has at least one piece.
pub proof fn lemma_split_lines_nonempty(text: Seq<char>)
    ensures
        split_lines(text).len() >= 1,
    decreases text.len(),
{
    if text.len() > 0 {
        lemma_split_lines_nonempty(text.drop_last());
    }
}

/// Joining the pieces of a text gives the text back.
pub proof fn lemma_join_split(text: Seq<char>)
    ensures
        join_lines(split_lines(text)) == text,
    decreases text.len(),
{
    if text.len() == 0 {
        assert(join_lines(split_lines(text)) =~= text);
    } else {
        let shorter = text.drop_last();
        let before = split_lines(shorter);
        lemma_split_lines_nonempty(shorter);
        lemma_join_split(shorter);
        if text.last() == line_feed() {
            let all = before.push(Seq::<char>::empty());
            assert(all.drop_last() =~= before);
            assert(join_lines(all) =~= shorter.push(line_feed()));
            assert(shorter.push(text.last()) =~= text);
        } else {
            let grown = before.last().push(text.last());
            let all = before.update(before.len() - 1, grown);
            if before.len() == 1 {
                assert(join_lines(before) == before[0]);
                assert(join_lines(all) =~= shorter.push(text.last()));
            } else {
                assert(all.drop_last() =~= before.drop_last());
                assert(join_lines(all) =~= (join_lines(before.drop_last()).push(line_feed())
                    + before.last()).push(text.last()));
            }
            assert(shorter.push(text.last()) =~= text);
        }
    }
}

/// Calls `regex::Regex::new` on `pattern` and `regex::Regex::split` on `text`,
/// and copies each piece into a `String` of its own. The contract is claimed
/// for the one pattern that matches a single line feed: the pieces are then
/// the parts of `text` between its line feeds, with an empty piece before a
/// leading, between two neighbouring and after a final line feed, and the
/// whole text as the only piece where it holds no line feed.
#[verifier::external_body]
fn split_by_pattern(pattern: &str, text: &str) -> (pieces: Vec<String>)
    requires
        pattern@ == seq![line_feed()],
    ensures
        views(pieces@) == split_lines(text@),
{
    let mut pieces = Vec::new();
    for piece in Regex::new(pattern).unwrap().split(text) {
        pieces.push(piece.to_string());
    }
    pieces
}

/// Cuts `text` at its line feeds.
pub fn lines_of(text: &str) -> (lines: Vec<String>)
    ensures
        views(lines@) == split_lines(text@),
        lines@.len() == split_lines(text@).len(),
        lines@.len() >= 1,
{
    proof {
        reveal_strlit("\n");
        assert("\n"@ =~= seq![line_feed()]);
        lemma_split_lines_nonempty(text@);
    }
    let lines = split_by_pattern("\n", text);
    assert(views(lines@).len() == lines@.len());
    lines
}

/// Adds a line feed to `text` unless `text` is empty or ends in one.
pub fn terminate(text: String) -> (ended: String)
    ensures
        ended@ == terminated(text@),
{
    let length = text.as_str().unicode_len();
    if length > 0 && text.as_str().get_char(length - 1) != '\n' {
        proof {
            reveal_strlit("\n");
        }
        let ended = text.concat("\n");
        assert(ended@ =~= text@.push(line_feed()));
        ended
    } else {
        text
    }
}

/// Writes the lines out as one text.
pub fn write_lines(lines: &Vec<String>) -> (text: String)
    ensures
        text@ == render_lines(views(lines@)),
{
    let mut joined = String::new();
    let mut i: usize = 0;
    while i < lines.len()
        invariant
            i <= lines.len(),
            joined@ == join_lines(views(lines@).take(i as int)),
        decreases lines.len() - i,
    {
        let ghost done = views(lines@).take(i as int);
        let ghost next = views(lines@).take(i + 1);
        proof {
            reveal_strlit("\n");
            assert(next.drop_last() =~= done);
            assert(next.last() == lines@[i as int]@);
        }
        if i > 0 {
            joined.append("\n");
        }
        joined.append(lines[i].as_str());
        proof {
            if i == 0 {
                assert(joined@ =~= next[0]);
            } else {
                assert(joined@ =~= join_lines(done).push(line_feed()) + next.last());
            }
        }
        i += 1;
    }
    assert(views(lines@).take(lines.len() as int) =~= views(lines@));
    terminate(joined)
}

} // verus!
