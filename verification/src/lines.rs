//! Text and its lines: how a text falls into lines at its line breaks, and
//! how lines are put together into a text.
use vstd::prelude::*;
use crate::nested::nested_rows;

verus! {

/// The number of characters of `t` before its first line break, or the
/// length of `t` where it has no line break.
pub open spec fn line_end(t: Seq<char>) -> int
    decreases t.len(),
{
    if t.len() == 0 || t[0] == '\n' {
        0
    } else {
        1 + line_end(t.drop_first())
    }
}

/// Whether `line` holds no line break.
pub open spec fn unbroken(line: Seq<char>) -> bool {
    forall|i: int| 0 <= i < line.len() ==> line[i] != '\n'
}

/// Whether `line` ends with a carriage return.
pub open spec fn ends_with_return(line: Seq<char>) -> bool {
    line.len() > 0 && line.last() == '\r'
}

/// `line` without the carriage return at its end, where it has one.
pub open spec fn without_return(line: Seq<char>) -> Seq<char> {
    if ends_with_return(line) {
        line.drop_last()
    } else {
        line
    }
}

/// The pieces into which the line breaks of `t` cut it: what stands before
/// each line break, and what follows the last one unless that is empty.
/// With `strip`, a carriage return right before a line break goes with the
/// line break and not with the piece.
pub open spec fn pieces(t: Seq<char>, strip: bool) -> Seq<Seq<char>>
    decreases t.len(),
{
    let end = line_end(t);
    if t.len() == 0 {
        Seq::empty()
    } else if 0 <= end < t.len() {
        seq![if strip { without_return(t.take(end)) } else { t.take(end) }] + pieces(t.skip(end + 1), strip)
    } else {
        seq![t]
    }
}

/// The lines of `t`, as `str::lines` gives them. A line ends at a line break,
/// or at a carriage return followed by a line break, neither of which
/// belongs to the line; what follows the last line break is a line too,
/// unless it is empty.
pub open spec fn lines_of(t: Seq<char>) -> Seq<Seq<char>> {
    pieces(t, true)
}

/// The rows one after the other, each followed by a line break.
pub open spec fn stacked(rows: Seq<Seq<char>>) -> Seq<char>
    decreases rows.len(),
{
    if rows.len() == 0 {
        Seq::empty()
    } else {
        stacked(rows.drop_last()) + rows.last() + seq!['\n']
    }
}

/// The rows joined by single line breaks: every row but the last is followed
/// by a line break.
pub open spec fn joined(rows: Seq<Seq<char>>) -> Seq<char> {
    if rows.len() == 0 {
        Seq::empty()
    } else {
        stacked(rows.drop_last()) + rows.last()
    }
}

/// `line_end` is where the first line break stands.
pub proof fn lemma_line_end(t: Seq<char>, end: int)
    requires
        0 <= end <= t.len(),
        forall|i: int| 0 <= i < end ==> t[i] != '\n',
        end < t.len() ==> t[end] == '\n',
    ensures
        line_end(t) == end,
    decreases t.len(),
{
    if end > 0 {
        let rest = t.drop_first();
        assert forall|i: int| 0 <= i < end - 1 implies rest[i] != '\n' by {
            assert(rest[i] == t[i + 1]);
        }
        lemma_line_end(rest, end - 1);
    }
}

/// No line break stands before `line_end`, and one stands there unless the
/// text ends there.
pub proof fn lemma_line_end_first(t: Seq<char>)
    ensures
        0 <= line_end(t) <= t.len(),
        forall|i: int| 0 <= i < line_end(t) ==> t[i] != '\n',
        line_end(t) < t.len() ==> t[line_end(t)] == '\n',
    decreases t.len(),
{
    if t.len() > 0 && t[0] != '\n' {
        let rest = t.drop_first();
        lemma_line_end_first(rest);
        assert forall|i: int| 0 <= i < line_end(t) implies t[i] != '\n' by {
            if i > 0 {
                assert(t[i] == rest[i - 1]);
            }
        }
    }
}

/// A text that starts with an unbroken line and a line break has that line
/// as its first piece, and the pieces of the rest after it.
pub proof fn lemma_pieces_first(line: Seq<char>, rest: Seq<char>, strip: bool)
    requires
        unbroken(line),
    ensures
        pieces(line + seq!['\n'] + rest, strip) == seq![if strip { without_return(line) } else { line }] + pieces(
            rest,
            strip,
        ),
{
    let t = line + seq!['\n'] + rest;
    let end = line.len() as int;
    lemma_line_end(t, end);
    assert(t.take(end) =~= line);
    assert(t.skip(end + 1) =~= rest);
}

/// The pieces of an unbroken line: the line itself, unless it is empty.
pub proof fn lemma_pieces_unbroken(line: Seq<char>, strip: bool)
    requires
        unbroken(line),
    ensures
        pieces(line, strip) == if line.len() == 0 { Seq::<Seq<char>>::empty() } else { seq![line] },
{
    lemma_line_end(line, line.len() as int);
}

/// After a text that is empty or ends with a line break, the pieces of what
/// follows come after the pieces of the text.
pub proof fn lemma_pieces_concat(t: Seq<char>, u: Seq<char>, strip: bool)
    requires
        t.len() == 0 || t.last() == '\n',
    ensures
        pieces(t + u, strip) == pieces(t, strip) + pieces(u, strip),
    decreases t.len(),
{
    if t.len() == 0 {
        assert(t + u =~= u);
        assert(pieces(t, strip) + pieces(u, strip) =~= pieces(u, strip));
    } else {
        let end = line_end(t);
        lemma_line_end_first(t);
        assert(end < t.len()) by {
            if end == t.len() {
                assert(t[t.len() - 1] != '\n');
            }
        }
        let whole = t + u;
        lemma_line_end(whole, end);
        let tail = t.skip(end + 1);
        assert(whole.take(end) =~= t.take(end));
        assert(whole.skip(end + 1) =~= tail + u);
        if tail.len() > 0 {
            assert(tail.last() == t.last());
        }
        lemma_pieces_concat(tail, u, strip);
        let first = seq![if strip { without_return(t.take(end)) } else { t.take(end) }];
        assert(first + (pieces(tail, strip) + pieces(u, strip)) =~= (first + pieces(tail, strip)) + pieces(u, strip));
    }
}

/// Stacked rows are empty or end with a line break.
pub proof fn lemma_stacked_ends(rows: Seq<Seq<char>>)
    ensures
        stacked(rows).len() == 0 || stacked(rows).last() == '\n',
        rows.len() == 0 ==> stacked(rows).len() == 0,
{
}

/// The pieces of stacked rows are the rows, where no row holds a line break
/// and, with `strip`, none ends with a carriage return.
pub proof fn lemma_pieces_of_stacked(rows: Seq<Seq<char>>, strip: bool)
    requires
        forall|j: int| 0 <= j < rows.len() ==> unbroken(#[trigger] rows[j]),
        strip ==> forall|j: int| 0 <= j < rows.len() ==> !ends_with_return(#[trigger] rows[j]),
    ensures
        pieces(stacked(rows), strip) == rows,
    decreases rows.len(),
{
    if rows.len() > 0 {
        let head = rows.drop_last();
        let last = rows.last();
        assert forall|j: int| 0 <= j < head.len() implies unbroken(#[trigger] head[j]) by {
            assert(head[j] == rows[j]);
        }
        if strip {
            assert forall|j: int| 0 <= j < head.len() implies !ends_with_return(#[trigger] head[j]) by {
                assert(head[j] == rows[j]);
            }
        }
        lemma_pieces_of_stacked(head, strip);
        lemma_stacked_ends(head);
        assert(stacked(rows) =~= stacked(head) + (last + seq!['\n']));
        lemma_pieces_concat(stacked(head), last + seq!['\n'], strip);
        lemma_pieces_first(last, Seq::<char>::empty(), strip);
        assert(last + seq!['\n'] + Seq::<char>::empty() =~= last + seq!['\n']);
        assert(unbroken(last));
        assert(!strip || !ends_with_return(last));
        assert(pieces(last + seq!['\n'], strip) =~= seq![last]);
        assert(head + seq![last] =~= rows);
    }
}

/// The pieces of joined rows are the rows, without the last row if that is
/// empty, where no row holds a line break and, with `strip`, no row but the
/// last ends with a carriage return.
pub proof fn lemma_pieces_of_joined(rows: Seq<Seq<char>>, strip: bool)
    requires
        rows.len() > 0,
        forall|j: int| 0 <= j < rows.len() ==> unbroken(#[trigger] rows[j]),
        strip ==> forall|j: int| 0 <= j < rows.len() - 1 ==> !ends_with_return(#[trigger] rows[j]),
    ensures
        pieces(joined(rows), strip) == if rows.last().len() == 0 { rows.drop_last() } else { rows },
{
    let head = rows.drop_last();
    let last = rows.last();
    assert forall|j: int| 0 <= j < head.len() implies unbroken(#[trigger] head[j]) by {
        assert(head[j] == rows[j]);
    }
    if strip {
        assert forall|j: int| 0 <= j < head.len() implies !ends_with_return(#[trigger] head[j]) by {
            assert(head[j] == rows[j]);
        }
    }
    lemma_pieces_of_stacked(head, strip);
    lemma_stacked_ends(head);
    lemma_pieces_concat(stacked(head), last, strip);
    assert(unbroken(last));
    lemma_pieces_unbroken(last, strip);
    if last.len() == 0 {
        assert(head + Seq::<Seq<char>>::empty() =~= head);
    } else {
        assert(head + seq![last] =~= rows);
    }
}

/// No piece of a text holds a line break.
pub proof fn lemma_pieces_unbroken_each(t: Seq<char>, strip: bool)
    ensures
        forall|j: int| 0 <= j < pieces(t, strip).len() ==> unbroken(#[trigger] pieces(t, strip)[j]),
    decreases t.len(),
{
    let end = line_end(t);
    lemma_line_end_first(t);
    if t.len() > 0 && end < t.len() {
        let rest = pieces(t.skip(end + 1), strip);
        lemma_pieces_unbroken_each(t.skip(end + 1), strip);
        let first = if strip { without_return(t.take(end)) } else { t.take(end) };
        assert(unbroken(t.take(end)));
        assert(unbroken(first));
        assert forall|j: int| 0 <= j < pieces(t, strip).len() implies unbroken(#[trigger] pieces(t, strip)[j]) by {
            if j > 0 {
                assert(pieces(t, strip)[j] == rest[j - 1]);
            }
        }
    }
}

/// Splits `text` into its lines.
pub fn split_lines(text: &str) -> (rows: Vec<Vec<char>>)
    ensures
        nested_rows(rows) == lines_of(text@),
{
    let mut rows: Vec<Vec<char>> = Vec::new();
    let mut line: Vec<char> = Vec::new();
    let ghost mut start: int = 0;
    assert(text@.skip(0) =~= text@);
    assert(nested_rows(rows) + lines_of(text@) =~= lines_of(text@));
    for c in it: text.chars()
        invariant
            0 <= start <= it.index(),
            it.seq() == text@,
            line@ == text@.subrange(start, it.index() as int),
            forall|i: int| start <= i < it.index() ==> text@[i] != '\n',
            lines_of(text@) == nested_rows(rows) + lines_of(text@.skip(start)),
    {
        let ghost at = it.index() as int;
        if c == '\n' {
            let n = line.len();
            if n > 0 && line[n - 1] == '\r' {
                line.pop();
            }
            proof {
                let rest = text@.skip(start);
                lemma_line_end(rest, at - start);
                assert(rest.take(at - start) =~= text@.subrange(start, at));
                assert(rest.skip(at - start + 1) =~= text@.skip(at + 1));
                start = at + 1;
            }
            let ghost done = rows;
            rows.push(line);
            assert(nested_rows(rows) =~= nested_rows(done).push(line@));
            line = Vec::new();
        } else {
            line.push(c);
        }
        assert(line@ =~= text@.subrange(start, at + 1));
    }
    proof {
        let rest = text@.skip(start);
        lemma_line_end(rest, rest.len() as int);
        assert(line@ =~= rest);
    }
    if line.len() > 0 {
        let ghost done = rows;
        rows.push(line);
        assert(nested_rows(rows) =~= nested_rows(done).push(line@));
    }
    rows
}

/// Joins `rows` by single line breaks.
pub fn join_lines(rows: &Vec<Vec<char>>) -> (text: String)
    ensures
        text@ == joined(nested_rows(*rows)),
{
    let mut text = String::new();
    let ghost all = nested_rows(*rows);
    let mut j: usize = 0;
    while j < rows.len()
        invariant
            j <= rows.len(),
            all == nested_rows(*rows),
            text@ == joined(all.take(j as int)),
        decreases rows.len() - j,
    {
        if j > 0 {
            text.push('\n');
        }
        let row = &rows[j];
        let ghost head = text@;
        proof {
            assert(all.take(j + 1).drop_last() =~= all.take(j as int));
            if j > 0 {
                assert(all.take(j as int).drop_last() =~= all.take(j - 1));
                assert(head =~= stacked(all.take(j as int)));
            } else {
                assert(head =~= stacked(all.take(j as int)));
            }
        }
        let mut i: usize = 0;
        while i < row.len()
            invariant
                i <= row.len(),
                text@ == head + row@.take(i as int),
            decreases row.len() - i,
        {
            text.push(row[i]);
            assert(row@.take(i + 1) =~= row@.take(i as int).push(row@[i as int]));
            i += 1;
        }
        proof {
            assert(row@.take(row@.len() as int) =~= row@);
            assert(all.take(j + 1).last() == row@);
        }
        j += 1;
    }
    assert(all.take(rows.len() as int) =~= all);
    text
}

} // verus!
