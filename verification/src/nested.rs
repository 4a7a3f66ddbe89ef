//! Growable buffers: a vector of rows, each row a vector of elements.
//!
//! Rows need not have the same length.
use vstd::prelude::*;
use vstd::utf8::*;
use std::fmt::Display;
use std::string::FromUtf8Error;
use crate::render::{
    display_row, grid_text, lemma_renders_rows, renders_rows, shows_as, shows_rows, texts_of, write_layout,
};
use crate::stamp::{stampable, stamped, target, Stroke};
use crate::{DisplayGrid, GridWriter};

verus! {

/// The rows of a growable buffer, top to bottom, each left to right.
pub open spec fn nested_rows<T>(grid: Vec<Vec<T>>) -> Seq<Seq<T>> {
    Seq::new(grid@.len(), |j: int| grid@[j]@)
}

/// Whether `cell` is a clone of a value that `T::default()` returns: what a
/// row is padded with when a write lands beyond its end.
pub open spec fn is_padding<T: Default + Clone>(cell: T) -> bool {
    exists|d: T| call_ensures(T::default, (), d) && #[trigger] cloned(d, cell)
}

/// Row `y` of `rows`, or the empty row where there is no such row yet.
pub open spec fn row_or_empty<T>(rows: Seq<Seq<T>>, y: int) -> Seq<T> {
    if 0 <= y < rows.len() {
        rows[y]
    } else {
        Seq::empty()
    }
}

/// Whether `after` is the rows `before` once `element` was written at column
/// `x` of row `y`: missing rows were appended empty, row `y` was padded up to
/// column `x`, the element stands at `x`, and nothing else changed.
pub open spec fn nested_wrote<T: Default + Clone>(
    before: Seq<Seq<T>>,
    x: int,
    y: int,
    element: T,
    after: Seq<Seq<T>>,
) -> bool {
    let row = row_or_empty(before, y);
    &&& after.len() == if y < before.len() { before.len() as int } else { y + 1 }
    &&& forall|j: int| 0 <= j < after.len() && j != y ==> #[trigger] after[j] == row_or_empty(before, j)
    &&& after[y].len() == if x < row.len() { row.len() as int } else { x + 1 }
    &&& after[y][x] == element
    &&& forall|i: int| 0 <= i < row.len() && i != x ==> #[trigger] after[y][i] == row[i]
    &&& forall|i: int| row.len() <= i < x ==> is_padding(#[trigger] after[y][i])
}

impl<T: Display + Default + Clone> GridWriter for Vec<Vec<T>> {
    type Element = T;

    /// A growable buffer takes every write whose row and column count fit in `usize`.
    open spec fn accepts(&self, position: (usize, usize)) -> bool {
        position.0 < usize::MAX && position.1 < usize::MAX
    }

    open spec fn wrote(&self, position: (usize, usize), element: T, after: &Self) -> bool {
        nested_wrote(nested_rows(*self), position.0 as int, position.1 as int, element, nested_rows(*after))
    }

    /// Sets the element at the given `(x, y)` position, growing the buffer to
    /// reach it.
    fn set(&mut self, position: (usize, usize), element: T) {
        let (x, y) = position;
        while self.len() <= y
            invariant
                y < usize::MAX,
                old(self)@.len() <= self@.len(),
                self@.len() <= old(self)@.len() || self@.len() <= y + 1,
                forall|j: int| 0 <= j < old(self)@.len() ==> self@[j] == old(self)@[j],
                forall|j: int| old(self)@.len() <= j < self@.len() ==> (#[trigger] self@[j])@.len() == 0,
            decreases y + 1 - self@.len(),
        {
            self.push(Vec::new());
        }
        let ghost grown = self@;
        if x >= self[y].len() {
            let pad = T::default();
            self[y].resize(x + 1, pad);
        }
        self[y][x] = element;
        proof {
            let before = nested_rows(*old(self));
            let after = nested_rows(*self);
            let row = row_or_empty(before, y as int);
            assert(grown[y as int]@ =~= row);
            assert forall|j: int| 0 <= j < after.len() && j != y implies #[trigger] after[j]
                == row_or_empty(before, j) by {
                assert(self@[j] == grown[j]);
                if j >= before.len() {
                    assert(after[j] =~= Seq::empty());
                }
            }
        }
    }
}

/// A write at or below the end of a growable buffer leaves it with exactly
/// the rows up to the one written: the rows it had are as before, and the
/// rows added above the one written are empty.
pub proof fn lemma_nested_grows_rows<T: Display + Default + Clone>(
    before: Vec<Vec<T>>,
    position: (usize, usize),
    element: T,
    after: Vec<Vec<T>>,
)
    requires
        before.accepts(position),
        before.wrote(position, element, &after),
        position.1 >= before@.len(),
    ensures
        after@.len() == position.1 + 1,
        forall|j: int| 0 <= j < before@.len() ==> #[trigger] after@[j]@ == before@[j]@,
        forall|j: int| before@.len() <= j < position.1 ==> (#[trigger] after@[j])@.len() == 0,
{
    let rows = nested_rows(after);
    assert(rows.len() == position.1 + 1);
    assert forall|j: int| 0 <= j < before@.len() implies #[trigger] after@[j]@ == before@[j]@ by {
        assert(rows[j] == row_or_empty(nested_rows(before), j));
    }
    assert forall|j: int| before@.len() <= j < position.1 implies (#[trigger] after@[j])@.len() == 0 by {
        assert(rows[j] == row_or_empty(nested_rows(before), j));
    }
}

/// A write at or beyond the end of a row of a growable buffer leaves the row
/// with exactly the cells up to the one written: the cells it had are as
/// before, the cells added before the one written hold default values, and
/// the cell written holds the element.
pub proof fn lemma_nested_pads_row<T: Display + Default + Clone>(
    before: Vec<Vec<T>>,
    position: (usize, usize),
    element: T,
    after: Vec<Vec<T>>,
)
    requires
        before.accepts(position),
        before.wrote(position, element, &after),
        position.0 >= row_or_empty(nested_rows(before), position.1 as int).len(),
    ensures
        position.1 < after@.len(),
        after@[position.1 as int]@.len() == position.0 + 1,
        after@[position.1 as int]@[position.0 as int] == element,
        forall|i: int|
            0 <= i < row_or_empty(nested_rows(before), position.1 as int).len() ==> #[trigger] after@[position.1 as int]@[i]
                == row_or_empty(nested_rows(before), position.1 as int)[i],
        forall|i: int|
            row_or_empty(nested_rows(before), position.1 as int).len() <= i < position.0 ==> is_padding(
                #[trigger] after@[position.1 as int]@[i],
            ),
{
    let rows = nested_rows(after);
    let y = position.1 as int;
    assert(rows[y] == after@[y]@);
}

/// A write to a growable buffer takes no row and no cell away, and leaves
/// every cell but the one written as it was.
pub proof fn lemma_nested_only_grows<T: Display + Default + Clone>(
    before: Vec<Vec<T>>,
    position: (usize, usize),
    element: T,
    after: Vec<Vec<T>>,
)
    requires
        before.accepts(position),
        before.wrote(position, element, &after),
    ensures
        before@.len() <= after@.len(),
        forall|j: int| 0 <= j < before@.len() ==> before@[j]@.len() <= (#[trigger] after@[j])@.len(),
        forall|j: int, i: int|
            0 <= j < before@.len() && 0 <= i < before@[j]@.len() && (i, j) != (position.0 as int, position.1 as int)
                ==> #[trigger] after@[j]@[i] == before@[j]@[i],
{
    let old_rows = nested_rows(before);
    let rows = nested_rows(after);
    let y = position.1 as int;
    assert forall|j: int| 0 <= j < before@.len() implies before@[j]@.len() <= (#[trigger] after@[j])@.len() by {
        assert(rows[j] == after@[j]@);
        if j != y {
            assert(rows[j] == row_or_empty(old_rows, j));
        }
    }
    assert forall|j: int, i: int|
        0 <= j < before@.len() && 0 <= i < before@[j]@.len() && (i, j) != (
            position.0 as int,
            position.1 as int,
        ) implies #[trigger] after@[j]@[i] == before@[j]@[i] by {
        assert(rows[j] == after@[j]@);
        if j != y {
            assert(rows[j] == row_or_empty(old_rows, j));
        } else {
            assert(rows[y][i] == row_or_empty(old_rows, y)[i]);
        }
    }
}

/// Writing the same element to the same cell of a growable buffer a second
/// time changes no row.
pub proof fn lemma_nested_write_twice<T: Display + Default + Clone>(
    before: Vec<Vec<T>>,
    position: (usize, usize),
    element: T,
    once: Vec<Vec<T>>,
    twice: Vec<Vec<T>>,
)
    requires
        before.accepts(position),
        before.wrote(position, element, &once),
        once.wrote(position, element, &twice),
    ensures
        nested_rows(twice) == nested_rows(once),
{
    let first = nested_rows(once);
    let second = nested_rows(twice);
    let y = position.1 as int;
    assert forall|j: int| 0 <= j < first.len() implies second[j] == first[j] by {
        if j == y {
            assert(second[y] =~= first[y]);
        } else {
            assert(second[j] == row_or_empty(first, j));
        }
    }
    assert(second =~= first);
}

/// A growable buffer takes a pattern whose strokes all go to rows and
/// columns below `usize::MAX`.
pub proof fn lemma_nested_stampable<T: Display + Default + Clone>(
    grid: Vec<Vec<T>>,
    at: (usize, usize),
    strokes: Seq<Stroke<T>>,
)
    requires
        forall|k: int|
            0 <= k < strokes.len() ==> at.0 + (#[trigger] strokes[k]).dx < usize::MAX && at.1 + strokes[k].dy
                < usize::MAX,
    ensures
        stampable(grid, at, strokes),
    decreases strokes.len(),
{
    if strokes.len() > 0 {
        let first = strokes[0];
        let rest = strokes.drop_first();
        let cell = ((at.0 + first.dx) as usize, (at.1 + first.dy) as usize);
        assert forall|k: int| 0 <= k < rest.len() implies at.0 + (#[trigger] rest[k]).dx < usize::MAX && at.1
            + rest[k].dy < usize::MAX by {
            assert(rest[k] == strokes[k + 1]);
        }
        assert forall|element: T, next: Vec<Vec<T>>|
            cloned(first.glyph, element) && #[trigger] grid.wrote(cell, element, &next) implies stampable(
            next,
            at,
            rest,
        ) by {
            lemma_nested_stampable(next, at, rest);
        }
    }
}

/// After a pattern that writes no cell twice was drawn onto a growable
/// buffer, no row and no cell is gone, the cell of each stroke holds a clone
/// of the glyph of that stroke, and a cell that was there before and that no
/// stroke went to is as before.
pub proof fn lemma_nested_stamped_once<T: Display + Default + Clone>(
    before: Vec<Vec<T>>,
    at: (usize, usize),
    strokes: Seq<Stroke<T>>,
    after: Vec<Vec<T>>,
)
    requires
        forall|k: int|
            0 <= k < strokes.len() ==> at.0 + (#[trigger] strokes[k]).dx < usize::MAX && at.1 + strokes[k].dy
                < usize::MAX,
        forall|k: int, l: int|
            0 <= k < l < strokes.len() ==> target(at, #[trigger] strokes[k]) != target(at, #[trigger] strokes[l]),
        stamped(before, at, strokes, after),
    ensures
        before@.len() <= after@.len(),
        forall|j: int| 0 <= j < before@.len() ==> before@[j]@.len() <= (#[trigger] after@[j])@.len(),
        forall|k: int|
            0 <= k < strokes.len() ==> {
                &&& at.1 + (#[trigger] strokes[k]).dy < after@.len()
                &&& at.0 + strokes[k].dx < after@[at.1 + strokes[k].dy]@.len()
                &&& cloned(strokes[k].glyph, after@[at.1 + strokes[k].dy]@[at.0 + strokes[k].dx])
            },
        forall|j: int, i: int|
            0 <= j < before@.len() && 0 <= i < before@[j]@.len() && (forall|k: int|
                0 <= k < strokes.len() ==> target(at, #[trigger] strokes[k]) != (i, j)) ==> #[trigger] after@[j]@[i]
                == before@[j]@[i],
    decreases strokes.len(),
{
    if strokes.len() > 0 {
        let last = strokes.last();
        let head = strokes.drop_last();
        let cell = ((at.0 + last.dx) as usize, (at.1 + last.dy) as usize);
        let (element, middle) = choose|element: T, middle: Vec<Vec<T>>|
            stamped(before, at, head, middle) && cloned(last.glyph, element) && #[trigger] middle.wrote(
                cell,
                element,
                &after,
            );
        assert forall|k: int| 0 <= k < head.len() implies at.0 + (#[trigger] head[k]).dx < usize::MAX && at.1
            + head[k].dy < usize::MAX by {
            assert(head[k] == strokes[k]);
        }
        assert forall|k: int, l: int| 0 <= k < l < head.len() implies target(at, #[trigger] head[k]) != target(
            at,
            #[trigger] head[l],
        ) by {
            assert(head[k] == strokes[k]);
            assert(head[l] == strokes[l]);
        }
        lemma_nested_stamped_once(before, at, head, middle);
        lemma_nested_only_grows(middle, cell, element, after);
        let rows = nested_rows(after);
        assert(rows[cell.1 as int] == after@[cell.1 as int]@);
        assert forall|j: int| 0 <= j < before@.len() implies before@[j]@.len() <= (#[trigger] after@[j])@.len() by {
            assert(before@[j]@.len() <= middle@[j]@.len());
            assert(middle@[j]@.len() <= after@[j]@.len());
        }
        assert forall|k: int| 0 <= k < strokes.len() implies {
            &&& at.1 + (#[trigger] strokes[k]).dy < after@.len()
            &&& at.0 + strokes[k].dx < after@[at.1 + strokes[k].dy]@.len()
            &&& cloned(strokes[k].glyph, after@[at.1 + strokes[k].dy]@[at.0 + strokes[k].dx])
        } by {
            if k < head.len() {
                assert(head[k] == strokes[k]);
                assert(target(at, strokes[k]) != target(at, strokes[strokes.len() - 1]));
                let j = at.1 + strokes[k].dy;
                let i = at.0 + strokes[k].dx;
                assert(middle@[j]@.len() <= after@[j]@.len());
                assert(after@[j]@[i] == middle@[j]@[i]);
            }
        }
        assert forall|j: int, i: int|
            0 <= j < before@.len() && 0 <= i < before@[j]@.len() && (forall|k: int|
                0 <= k < strokes.len() ==> target(at, #[trigger] strokes[k]) != (i, j)) implies #[trigger] after@[j]@[i]
            == before@[j]@[i] by {
            assert forall|k: int| 0 <= k < head.len() implies target(at, #[trigger] head[k]) != (i, j) by {
                assert(head[k] == strokes[k]);
            }
            assert(target(at, strokes[strokes.len() - 1]) != (i, j));
            assert(before@[j]@.len() <= middle@[j]@.len());
            assert(middle@[j]@[i] == before@[j]@[i]);
            assert(after@[j]@[i] == middle@[j]@[i]);
        }
    }
}

impl<T: Display + Default + Clone> DisplayGrid for Vec<Vec<T>> {
    /// The rows from the top down, each followed by a line break, in UTF-8.
    open spec fn renders(&self, bytes: Seq<u8>) -> bool {
        renders_rows(nested_rows(*self), bytes)
    }

    /// Returns the rendering as a string. What elements display as is text,
    /// so decoding it never fails.
    fn to_string(&self) -> (r: Result<String, FromUtf8Error>)
        ensures
            r matches Ok(text) && shows_as(nested_rows(*self), text@),
    {
        broadcast use {encode_utf8_valid_utf8, encode_utf8_decode_utf8};

        let mut output: Vec<u8> = Vec::new();
        self.write_to(&mut output);
        proof {
            let b = choose|b: Seq<u8>| #[trigger] self.renders(b) && output@ == Seq::<u8>::empty() + b;
            assert(output@ =~= b);
            lemma_renders_rows(nested_rows(*self), b);
        }
        String::from_utf8(output)
    }

    fn write_to(&self, stream: &mut Vec<u8>) {
        let mut texts: Vec<Vec<String>> = Vec::new();
        let mut j: usize = 0;
        while j < self.len()
            invariant
                j <= self.len(),
                texts@.len() == j,
                shows_rows(nested_rows(*self).take(j as int), texts_of(texts)),
            decreases self.len() - j,
        {
            let ghost done = texts_of(texts);
            let row = display_row(self[j].as_slice());
            texts.push(row);
            proof {
                let now = texts_of(texts);
                assert forall|k: int| 0 <= k < j implies #[trigger] now[k] == done[k] by {
                    assert(now[k] =~= done[k]);
                }
                assert(now[j as int].len() == self@[j as int]@.len());
            }
            j += 1;
        }
        assert(nested_rows(*self).take(self.len() as int) =~= nested_rows(*self));
        write_layout(&texts, stream);
        proof {
            let text = grid_text(texts_of(texts));
            assert(shows_as(nested_rows(*self), text));
            assert(self.renders(encode_utf8(text)));
        }
    }
}

} // verus!
