//! Text primitives shared by the indexer and the rewriter: character access,
//! splitting at a separator, joining with one, and the lines of a text.

use vstd::prelude::*;
use vstd::string::StringExecFns;

verus! {

/// `String::push` of the standard library: the character is appended at the
/// end and nothing else changes.
pub assume_specification[ String::push ](s: &mut String, ch: char)
    ensures
        final(s)@ == old(s)@.push(ch),
;

/// The characters of `s`, in order.
pub fn chars_of(s: &str) -> (out: Vec<char>)
    ensures
        out@ == s@,
{
    let mut out: Vec<char> = Vec::new();
    for c in it: s.chars()
        invariant
            it.seq() == s@,
            out@ == it.seq().take(it.index()),
    {
        out.push(c);
        assert(it.seq().take(it.index() + 1) =~= it.seq().take(it.index()).push(c));
    }
    assert(s@.take(s@.len() as int) =~= s@);
    out
}

/// The pieces of `s` between the occurrences of `sep`: one more piece than
/// there are separators, each free of `sep`, empty pieces included.
pub open spec fn split_on(s: Seq<char>, sep: char) -> Seq<Seq<char>>
    decreases s.len(),
{
    if s.len() == 0 {
        seq![Seq::<char>::empty()]
    } else {
        let before = split_on(s.drop_last(), sep);
        if s.last() == sep {
            before.push(Seq::<char>::empty())
        } else {
            before.drop_last().push(before.last().push(s.last()))
        }
    }
}

/// The pieces, each followed by `sep` except the last.
pub open spec fn join_with(parts: Seq<Seq<char>>, sep: char) -> Seq<char>
    decreases parts.len(),
{
    if parts.len() == 0 {
        Seq::<char>::empty()
    } else if parts.len() == 1 {
        parts[0]
    } else {
        join_with(parts.drop_last(), sep).push(sep) + parts.last()
    }
}

/// Splitting yields at least one piece, none of which holds the separator,
/// and joining the pieces gives the text back.
pub proof fn lemma_split_join(s: Seq<char>, sep: char)
    ensures
        split_on(s, sep).len() >= 1,
        forall|i: int| 0 <= i < split_on(s, sep).len() ==> !(#[trigger] split_on(s, sep)[i]).contains(sep),
        join_with(split_on(s, sep), sep) == s,
    decreases s.len(),
{
    let pieces = split_on(s, sep);
    if s.len() == 0 {
        assert(join_with(pieces, sep) =~= s);
    } else {
        let before = split_on(s.drop_last(), sep);
        lemma_split_join(s.drop_last(), sep);
        if s.last() == sep {
            assert(pieces.drop_last() =~= before);
            assert(join_with(pieces, sep) =~= join_with(before, sep).push(sep));
            assert(s =~= s.drop_last().push(sep));
        } else {
            let grown = before.last().push(s.last());
            assert forall|i: int| 0 <= i < pieces.len() implies !(#[trigger] pieces[i]).contains(sep) by {
                if i < pieces.len() - 1 {
                    assert(pieces[i] == before[i]);
                } else {
                    if grown.contains(sep) {
                        let k = choose|k: int| 0 <= k < grown.len() && grown[k] == sep;
                        assert(before.last()[k] == sep);
                        assert(before.last().contains(sep));
                    }
                }
            }
            if before.len() == 1 {
                assert(join_with(before, sep) == before[0]);
                assert(join_with(pieces, sep) =~= s.drop_last().push(s.last()));
            } else {
                assert(pieces.drop_last() =~= before.drop_last());
                assert(join_with(pieces, sep) =~= (join_with(before.drop_last(), sep).push(sep)
                    + before.last()).push(s.last()));
            }
            assert(s =~= s.drop_last().push(s.last()));
        }
    }
}

/// A text followed by a separator and a piece without separator splits into
/// the pieces of the text and that piece.
proof fn lemma_split_extended(text: Seq<char>, sep: char, piece: Seq<char>)
    requires
        !piece.contains(sep),
    ensures
        split_on(text.push(sep) + piece, sep) == split_on(text, sep).push(piece),
    decreases piece.len(),
{
    let whole = text.push(sep) + piece;
    if piece.len() == 0 {
        assert(whole =~= text.push(sep));
        assert(whole.drop_last() =~= text);
        assert(piece =~= Seq::<char>::empty());
    } else {
        let shorter = piece.drop_last();
        if shorter.contains(sep) {
            let k = choose|k: int| 0 <= k < shorter.len() && shorter[k] == sep;
            assert(piece[k] == sep);
        }
        lemma_split_extended(text, sep, shorter);
        assert(whole.drop_last() =~= text.push(sep) + shorter);
        assert(whole.last() == piece.last());
        assert(piece[piece.len() - 1] != sep);
        let before = split_on(text, sep).push(shorter);
        assert(before.drop_last() =~= split_on(text, sep));
        assert(shorter.push(piece.last()) =~= piece);
    }
}

/// Splitting undoes joining: pieces without separator, joined and split
/// again, come back as they were. So the pieces of a text are the only
/// pieces without separator that join to it.
pub proof fn lemma_join_split(parts: Seq<Seq<char>>, sep: char)
    requires
        parts.len() >= 1,
        forall|i: int| 0 <= i < parts.len() ==> !(#[trigger] parts[i]).contains(sep),
    ensures
        split_on(join_with(parts, sep), sep) == parts,
    decreases parts.len(),
{
    if parts.len() == 1 {
        lemma_split_single(parts[0], sep);
        assert(parts =~= seq![parts[0]]);
    } else {
        let front = parts.drop_last();
        assert forall|i: int| 0 <= i < front.len() implies !(#[trigger] front[i]).contains(sep) by {
            assert(front[i] == parts[i]);
        }
        lemma_join_split(front, sep);
        assert(!parts[parts.len() - 1].contains(sep));
        lemma_split_extended(join_with(front, sep), sep, parts.last());
        assert(front.push(parts.last()) =~= parts);
    }
}

/// A text without separator is a single piece.
proof fn lemma_split_single(text: Seq<char>, sep: char)
    requires
        !text.contains(sep),
    ensures
        split_on(text, sep) == seq![text],
    decreases text.len(),
{
    if text.len() == 0 {
        assert(text =~= Seq::<char>::empty());
    } else {
        let shorter = text.drop_last();
        if shorter.contains(sep) {
            let k = choose|k: int| 0 <= k < shorter.len() && shorter[k] == sep;
            assert(text[k] == sep);
        }
        lemma_split_single(shorter, sep);
        assert(text[text.len() - 1] != sep);
        assert(shorter.push(text.last()) =~= text);
        assert(seq![shorter].drop_last().push(text) =~= seq![text]);
    }
}

/// Splits `s` at every occurrence of `sep`.
pub fn split_str(s: &str, sep: char) -> (pieces: Vec<String>)
    ensures
        pieces.deep_view() == split_on(s@, sep),
{
    let mut done: Vec<String> = Vec::new();
    let mut piece = String::new();
    assert(done.deep_view().push(piece@) =~= split_on(s@.take(0), sep));
    for c in it: s.chars()
        invariant
            it.seq() == s@,
            done.deep_view().push(piece@) == split_on(s@.take(it.index()), sep),
    {
        let ghost seen = s@.take(it.index());
        let ghost next = s@.take(it.index() + 1);
        let ghost shown = done.deep_view();
        let ghost open = piece@;
        assert(next.drop_last() =~= seen && next.last() == c);
        if c == sep {
            done.push(piece);
            piece = String::new();
            assert(done.deep_view() =~= shown.push(open));
        } else {
            piece.push(c);
            assert(shown.push(open).drop_last() =~= shown);
        }
        assert(done.deep_view().push(piece@) =~= split_on(next, sep));
    }
    assert(s@.take(s@.len() as int) =~= s@);
    let ghost shown = done.deep_view();
    done.push(piece);
    assert(done.deep_view() =~= shown.push(piece@));
    done
}

/// Joins `parts`, putting `sep` between neighbours.
pub fn join_strs(parts: &Vec<String>, sep: char) -> (joined: String)
    ensures
        joined@ == join_with(parts.deep_view(), sep),
{
    let mut joined = String::new();
    let ghost all = parts.deep_view();
    let mut i: usize = 0;
    while i < parts.len()
        invariant
            i <= parts.len(),
            all == parts.deep_view(),
            joined@ == join_with(all.take(i as int), sep),
        decreases parts.len() - i,
    {
        let ghost so_far = joined@;
        if i > 0 {
            joined.push(sep);
        }
        joined.append(parts[i].as_str());
        proof {
            let upto = all.take(i + 1);
            assert(upto.drop_last() =~= all.take(i as int));
            assert(upto.last() == parts@[i as int]@);
            if i == 0 {
                assert(joined@ =~= upto[0]);
            } else {
                assert(joined@ =~= so_far.push(sep) + upto.last());
            }
        }
        i += 1;
    }
    assert(all.take(parts.len() as int) =~= all);
    joined
}

/// `line` without one trailing carriage return.
pub open spec fn strip_cr(line: Seq<char>) -> Seq<char> {
    if line.len() > 0 && line.last() == '\r' {
        line.drop_last()
    } else {
        line
    }
}

/// The lines of a text. A line ends at a line feed; a carriage return just
/// before that line feed belongs to the line ending. The last line needs no
/// line ending, and an empty text has no lines.
pub open spec fn lines_of(text: Seq<char>) -> Seq<Seq<char>> {
    let pieces = split_on(text, '\n');
    let ended = Seq::new((pieces.len() - 1) as nat, |i: int| strip_cr(pieces[i]));
    if pieces.last().len() == 0 {
        ended
    } else {
        ended.push(pieces.last())
    }
}

/// Every piece but the last was ended by a separator, so the pieces and the
/// characters of the last piece together are not more than the characters of
/// the text and one.
pub proof fn lemma_split_len(s: Seq<char>, sep: char)
    ensures
        split_on(s, sep).len() >= 1,
        split_on(s, sep).len() + split_on(s, sep).last().len() <= s.len() + 1,
    decreases s.len(),
{
    if s.len() > 0 {
        lemma_split_len(s.drop_last(), sep);
    }
}

/// A text has no more lines than characters.
pub proof fn lemma_lines_len(text: Seq<char>)
    ensures
        lines_of(text).len() <= text.len(),
{
    lemma_split_len(text, '\n');
}

/// Splits a text into its lines.
pub fn split_lines(text: &str) -> (lines: Vec<String>)
    ensures
        lines.deep_view() == lines_of(text@),
{
    let mut lines: Vec<String> = Vec::new();
    let mut line = String::new();
    let mut held_cr = false;
    proof {
        lemma_split_join(text@.take(0), '\n');
        assert(split_on(text@.take(0), '\n') =~= seq![Seq::<char>::empty()]);
        assert(lines.deep_view() =~= Seq::new(0, |i: int| strip_cr(split_on(text@.take(0), '\n')[i])));
    }
    for c in it: text.chars()
        invariant
            it.seq() == text@,
            split_on(text@.take(it.index()), '\n').len() >= 1,
            lines.deep_view() == Seq::new(
                (split_on(text@.take(it.index()), '\n').len() - 1) as nat,
                |i: int| strip_cr(split_on(text@.take(it.index()), '\n')[i]),
            ),
            split_on(text@.take(it.index()), '\n').last() == (if held_cr {
                line@.push('\r')
            } else {
                line@
            }),
            !held_cr ==> strip_cr(line@) == line@,
    {
        let ghost seen = text@.take(it.index());
        let ghost next = text@.take(it.index() + 1);
        let ghost before = split_on(seen, '\n');
        let ghost after = split_on(next, '\n');
        let ghost shown = lines.deep_view();
        let ghost open = line@;
        proof {
            assert(next.drop_last() =~= seen && next.last() == c);
            lemma_split_join(next, '\n');
        }
        if c == '\n' {
            // The held carriage return, if any, is part of this line ending.
            lines.push(line);
            line = String::new();
            held_cr = false;
            proof {
                assert(after == before.push(Seq::<char>::empty()));
                assert(strip_cr(before.last()) == open) by {
                    if before.last() == open.push('\r') {
                        assert(open.push('\r').drop_last() =~= open);
                    }
                }
                assert(lines.deep_view() =~= shown.push(open));
                assert(lines.deep_view() =~= Seq::new(
                    (after.len() - 1) as nat,
                    |i: int| strip_cr(after[i]),
                ));
            }
        } else {
            if held_cr {
                line.push('\r');
            }
            if c == '\r' {
                held_cr = true;
            } else {
                line.push(c);
                held_cr = false;
            }
            proof {
                assert(after == before.drop_last().push(before.last().push(c)));
                assert(lines.deep_view() =~= Seq::new(
                    (after.len() - 1) as nat,
                    |i: int| strip_cr(after[i]),
                ));
            }
        }
    }
    assert(text@.take(text@.len() as int) =~= text@);
    if held_cr {
        line.push('\r');
    }
    let ghost shown = lines.deep_view();
    if !line.as_str().is_empty() {
        lines.push(line);
        assert(lines.deep_view() =~= shown.push(line@));
    }
    lines
}

} // verus!
