//! Fixed-size buffers: an array of `H` rows of `W` elements each.
use vstd::prelude::*;
use vstd::utf8::*;
use std::fmt::Display;
use std::string::FromUtf8Error;
use crate::render::{
    display_row, grid_text, lemma_renders_rows, renders_rows, shows, shows_as, shows_rows, texts_of, write_layout,
};
use crate::stamp::{last_stroke_at, lemma_last_stroke_at, stampable, stamped, strokes_inside, target, Stroke};
use crate::{DisplayGrid, GridWriter};

verus! {

/// The rows of a fixed buffer, top to bottom, each left to right.
pub open spec fn array_rows<T, const W: usize, const H: usize>(grid: [[T; W]; H]) -> Seq<Seq<T>> {
    Seq::new(H as nat, |j: int| grid@[j]@)
}

impl<const W: usize, const H: usize, T: Display> GridWriter for [[T; W]; H] {
    type Element = T;

    /// A fixed buffer takes a write inside its `W` columns and `H` rows only.
    open spec fn accepts(&self, position: (usize, usize)) -> bool {
        position.0 < W && position.1 < H
    }

    /// The cell at `position` holds the element and every other cell is as before.
    open spec fn wrote(&self, position: (usize, usize), element: T, after: &Self) -> bool {
        array_rows(*after) == array_rows(*self).update(
            position.1 as int,
            array_rows(*self)[position.1 as int].update(position.0 as int, element),
        )
    }

    /// Sets the element at the given `(x, y)` position, which lies inside
    /// the buffer.
    fn set(&mut self, position: (usize, usize), element: T) {
        let (x, y) = position;
        self[y][x] = element;
        assert(array_rows(*self) =~= array_rows(*old(self)).update(
            y as int,
            array_rows(*old(self))[y as int].update(x as int, element),
        ));
    }
}

/// After a write to a fixed buffer, the cell that was written holds the
/// element and every other cell holds what it held before.
pub proof fn lemma_fixed_wrote<T: Display, const W: usize, const H: usize>(
    before: [[T; W]; H],
    position: (usize, usize),
    element: T,
    after: [[T; W]; H],
)
    requires
        before.accepts(position),
        before.wrote(position, element, &after),
    ensures
        after[position.1 as int][position.0 as int] == element,
        forall|column: int, row: int|
            0 <= column < W && 0 <= row < H && (column, row) != (position.0 as int, position.1 as int)
                ==> #[trigger] after[row][column] == before[row][column],
{
    assert(array_rows(after)[position.1 as int][position.0 as int] == element);
    assert forall|column: int, row: int|
        0 <= column < W && 0 <= row < H && (column, row) != (
            position.0 as int,
            position.1 as int,
        ) implies #[trigger] after[row][column] == before[row][column] by {
        assert(array_rows(after)[row][column] == array_rows(before)[row][column]);
    }
}

/// Writing the same element to the same cell of a fixed buffer a second time
/// changes nothing.
pub proof fn lemma_fixed_write_twice<T: Display, const W: usize, const H: usize>(
    before: [[T; W]; H],
    position: (usize, usize),
    element: T,
    once: [[T; W]; H],
    twice: [[T; W]; H],
)
    requires
        before.accepts(position),
        before.wrote(position, element, &once),
        once.wrote(position, element, &twice),
    ensures
        twice == once,
{
    lemma_fixed_wrote(before, position, element, once);
    lemma_fixed_wrote(once, position, element, twice);
    assert forall|row: int| 0 <= row < H implies twice[row] == once[row] by {
        assert forall|column: int| 0 <= column < W implies twice[row][column] == once[row][column] by {
            if (column, row) != (position.0 as int, position.1 as int) {
                assert(twice[row][column] == once[row][column]);
            }
        }
        assert(twice[row] =~= once[row]);
    }
    assert(twice =~= once);
}

/// A rendering of a fixed buffer after a write lays out, cell for cell, what
/// the written element displays as where it was written, and what the
/// elements that were there before display as everywhere else.
pub proof fn lemma_fixed_write_then_render<T: Display, const W: usize, const H: usize>(
    before: [[T; W]; H],
    position: (usize, usize),
    element: T,
    after: [[T; W]; H],
    text: Seq<char>,
)
    requires
        before.accepts(position),
        before.wrote(position, element, &after),
        shows_as(array_rows(after), text),
    ensures
        exists|texts: Seq<Seq<Seq<char>>>|
            {
                &&& text == grid_text(texts)
                &&& #[trigger] texts.len() == H
                &&& forall|row: int| 0 <= row < H ==> (#[trigger] texts[row]).len() == W
                &&& shows(element, texts[position.1 as int][position.0 as int])
                &&& forall|column: int, row: int|
                    0 <= column < W && 0 <= row < H && (column, row) != (position.0 as int, position.1 as int)
                        ==> shows(before[row][column], #[trigger] texts[row][column])
            },
{
    let texts = choose|texts: Seq<Seq<Seq<char>>>|
        #[trigger] shows_rows(array_rows(after), texts) && text == grid_text(texts);
    lemma_fixed_wrote(before, position, element, after);
    let cells = array_rows(after);
    assert(cells[position.1 as int][position.0 as int] == element);
    assert forall|column: int, row: int|
        0 <= column < W && 0 <= row < H && (column, row) != (position.0 as int, position.1 as int) implies shows(
        before[row][column],
        #[trigger] texts[row][column],
    ) by {
        assert(cells[row][column] == before[row][column]);
    }
    assert(texts.len() == H);
}

impl<const W: usize, const H: usize, T: Display> DisplayGrid for [[T; W]; H] {
    /// The rows from the top down, each followed by a line break, in UTF-8.
    open spec fn renders(&self, bytes: Seq<u8>) -> bool {
        renders_rows(array_rows(*self), bytes)
    }

    /// Returns the rendering as a string. What elements display as is text,
    /// so decoding it never fails.
    fn to_string(&self) -> (r: Result<String, FromUtf8Error>)
        ensures
            r matches Ok(text) && shows_as(array_rows(*self), text@),
    {
        broadcast use {encode_utf8_valid_utf8, encode_utf8_decode_utf8};

        let mut output: Vec<u8> = Vec::new();
        self.write_to(&mut output);
        proof {
            let b = choose|b: Seq<u8>| #[trigger] self.renders(b) && output@ == Seq::<u8>::empty() + b;
            assert(output@ =~= b);
            lemma_renders_rows(array_rows(*self), b);
        }
        String::from_utf8(output)
    }

    fn write_to(&self, stream: &mut Vec<u8>) {
        let mut texts: Vec<Vec<String>> = Vec::new();
        let mut j: usize = 0;
        while j < H
            invariant
                j <= H,
                texts@.len() == j,
                shows_rows(array_rows(*self).take(j as int), texts_of(texts)),
            decreases H - j,
        {
            let ghost done = texts_of(texts);
            let row = display_row(self[j].as_slice());
            texts.push(row);
            proof {
                let now = texts_of(texts);
                assert forall|k: int| 0 <= k < j implies #[trigger] now[k] == done[k] by {
                    assert(now[k] =~= done[k]);
                }
                assert(now[j as int].len() == W);
            }
            j += 1;
        }
        assert(array_rows(*self).take(H as int) =~= array_rows(*self));
        write_layout(&texts, stream);
        proof {
            let text = grid_text(texts_of(texts));
            assert(shows_as(array_rows(*self), text));
            assert(self.renders(encode_utf8(text)));
        }
    }
}

/// A fixed buffer takes a pattern whose strokes all land inside it.
pub proof fn lemma_fixed_stampable<T: Display + Clone, const W: usize, const H: usize>(
    grid: [[T; W]; H],
    at: (usize, usize),
    strokes: Seq<Stroke<T>>,
)
    requires
        strokes_inside(at, strokes, W as int, H as int),
    ensures
        stampable(grid, at, strokes),
    decreases strokes.len(),
{
    if strokes.len() > 0 {
        let first = strokes[0];
        let rest = strokes.drop_first();
        let cell = ((at.0 + first.dx) as usize, (at.1 + first.dy) as usize);
        assert forall|k: int| 0 <= k < rest.len() implies at.0 + (#[trigger] rest[k]).dx < W && at.1
            + rest[k].dy < H by {
            assert(rest[k] == strokes[k + 1]);
        }
        assert forall|element: T, next: [[T; W]; H]|
            cloned(first.glyph, element) && #[trigger] grid.wrote(cell, element, &next) implies stampable(
            next,
            at,
            rest,
        ) by {
            lemma_fixed_stampable(next, at, rest);
        }
    }
}

/// After a pattern was drawn onto a fixed buffer, a cell that no stroke went
/// to is as before, and any other cell holds a clone of the glyph of the last
/// stroke that went to it.
pub proof fn lemma_fixed_stamped<T: Display + Clone, const W: usize, const H: usize>(
    before: [[T; W]; H],
    at: (usize, usize),
    strokes: Seq<Stroke<T>>,
    after: [[T; W]; H],
)
    requires
        strokes_inside(at, strokes, W as int, H as int),
        stamped(before, at, strokes, after),
    ensures
        forall|column: int, row: int|
            0 <= column < W && 0 <= row < H ==> {
                let hit = last_stroke_at(at, strokes, column, row);
                if hit < 0 {
                    #[trigger] array_rows(after)[row][column] == array_rows(before)[row][column]
                } else {
                    cloned(strokes[hit].glyph, array_rows(after)[row][column])
                }
            },
    decreases strokes.len(),
{
    if strokes.len() > 0 {
        let last = strokes.last();
        let head = strokes.drop_last();
        let cell = ((at.0 + last.dx) as usize, (at.1 + last.dy) as usize);
        let (element, middle) = choose|element: T, middle: [[T; W]; H]|
            stamped(before, at, head, middle) && cloned(last.glyph, element) && #[trigger] middle.wrote(
                cell,
                element,
                &after,
            );
        assert forall|k: int| 0 <= k < head.len() implies at.0 + (#[trigger] head[k]).dx < W && at.1
            + head[k].dy < H by {
            assert(head[k] == strokes[k]);
        }
        lemma_fixed_stamped(before, at, head, middle);
        assert forall|column: int, row: int| 0 <= column < W && 0 <= row < H implies {
            let hit = last_stroke_at(at, strokes, column, row);
            if hit < 0 {
                #[trigger] array_rows(after)[row][column] == array_rows(before)[row][column]
            } else {
                cloned(strokes[hit].glyph, array_rows(after)[row][column])
            }
        } by {
            let hit = last_stroke_at(at, head, column, row);
            lemma_last_stroke_at(at, head, column, row);
            if hit >= 0 {
                assert(head[hit] == strokes[hit]);
            }
            assert(array_rows(middle)[row][column] == array_rows(middle)[row][column]);
        }
    }
}

/// After a pattern that writes no cell twice was drawn onto a fixed buffer,
/// the cell of each stroke holds a clone of the glyph of that stroke, and a
/// cell that no stroke went to is as before.
pub proof fn lemma_fixed_stamped_once<T: Display + Clone, const W: usize, const H: usize>(
    before: [[T; W]; H],
    at: (usize, usize),
    strokes: Seq<Stroke<T>>,
    after: [[T; W]; H],
)
    requires
        strokes_inside(at, strokes, W as int, H as int),
        stamped(before, at, strokes, after),
        forall|k: int, l: int|
            0 <= k < l < strokes.len() ==> target(at, #[trigger] strokes[k]) != target(at, #[trigger] strokes[l]),
    ensures
        forall|k: int|
            0 <= k < strokes.len() ==> cloned(
                (#[trigger] strokes[k]).glyph,
                after[at.1 + strokes[k].dy][at.0 + strokes[k].dx],
            ),
        forall|column: int, row: int|
            0 <= column < W && 0 <= row < H && (forall|k: int|
                0 <= k < strokes.len() ==> target(at, #[trigger] strokes[k]) != (column, row)) ==> #[trigger] after[row][column]
                == before[row][column],
{
    lemma_fixed_stamped(before, at, strokes, after);
    assert forall|k: int| 0 <= k < strokes.len() implies cloned(
        (#[trigger] strokes[k]).glyph,
        after[at.1 + strokes[k].dy][at.0 + strokes[k].dx],
    ) by {
        let column = at.0 + strokes[k].dx;
        let row = at.1 + strokes[k].dy;
        lemma_last_stroke_at(at, strokes, column, row);
        let hit = last_stroke_at(at, strokes, column, row);
        assert(hit == k) by {
            if hit < k {
                assert(target(at, strokes[k]) != (column, row));
            } else if hit > k {
                assert(target(at, strokes[k]) != target(at, strokes[hit]));
            }
        }
        assert(array_rows(after)[row][column] == after[row][column]);
    }
    assert forall|column: int, row: int|
        0 <= column < W && 0 <= row < H && (forall|k: int|
            0 <= k < strokes.len() ==> target(at, #[trigger] strokes[k]) != (column, row)) implies #[trigger] after[row][column]
        == before[row][column] by {
        lemma_last_stroke_at(at, strokes, column, row);
        let hit = last_stroke_at(at, strokes, column, row);
        if hit >= 0 {
            assert(target(at, strokes[hit]) == (column, row));
        }
        assert(array_rows(after)[row][column] == array_rows(before)[row][column]);
    }
}

} // verus!
