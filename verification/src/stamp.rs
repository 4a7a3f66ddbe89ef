//! What it means to write a pattern of elements onto a buffer, one element
//! after the other.
use vstd::prelude::*;
use crate::GridWriter;

verus! {

/// One write of a pattern: the cell it goes to, as an offset from where the
/// pattern is placed, and the element that is cloned into that cell.
pub ghost struct Stroke<E> {
    pub dx: nat,
    pub dy: nat,
    pub glyph: E,
}

/// The column and row that `stroke` reaches when its pattern is placed at `at`.
pub open spec fn target<E>(at: (usize, usize), stroke: Stroke<E>) -> (int, int) {
    (at.0 + stroke.dx, at.1 + stroke.dy)
}

/// Whether the cell that `stroke` reaches from `at` has coordinates that fit in `usize`.
pub open spec fn in_reach<E>(at: (usize, usize), stroke: Stroke<E>) -> bool {
    at.0 + stroke.dx <= usize::MAX && at.1 + stroke.dy <= usize::MAX
}

/// Whether every stroke of `strokes`, placed at `at`, lands inside the first
/// `columns` columns and the first `rows` rows.
pub open spec fn strokes_inside<E>(at: (usize, usize), strokes: Seq<Stroke<E>>, columns: int, rows: int) -> bool {
    forall|k: int|
        0 <= k < strokes.len() ==> at.0 + (#[trigger] strokes[k]).dx < columns && at.1 + strokes[k].dy < rows
}

/// The number of the last stroke of `strokes`, placed at `at`, that goes to
/// the cell at `column` and `row`, or -1 where none goes there.
pub open spec fn last_stroke_at<E>(at: (usize, usize), strokes: Seq<Stroke<E>>, column: int, row: int) -> int
    decreases strokes.len(),
{
    if strokes.len() == 0 {
        -1
    } else if target(at, strokes.last()) == (column, row) {
        strokes.len() - 1
    } else {
        last_stroke_at(at, strokes.drop_last(), column, row)
    }
}

/// `last_stroke_at` is the number of a stroke that goes to the cell and that
/// no stroke to the same cell follows, or it is -1 and no stroke goes there.
pub proof fn lemma_last_stroke_at<E>(at: (usize, usize), strokes: Seq<Stroke<E>>, column: int, row: int)
    ensures
        -1 <= last_stroke_at(at, strokes, column, row) < strokes.len(),
        last_stroke_at(at, strokes, column, row) >= 0 ==> target(
            at,
            strokes[last_stroke_at(at, strokes, column, row)],
        ) == (column, row),
        forall|k: int|
            last_stroke_at(at, strokes, column, row) < k < strokes.len() ==> target(at, #[trigger] strokes[k]) != (
                column,
                row,
            ),
    decreases strokes.len(),
{
    if strokes.len() > 0 && target(at, strokes.last()) != (column, row) {
        lemma_last_stroke_at(at, strokes.drop_last(), column, row);
        let found = last_stroke_at(at, strokes.drop_last(), column, row);
        assert forall|k: int| found < k < strokes.len() implies target(at, #[trigger] strokes[k]) != (
            column,
            row,
        ) by {
            if k < strokes.len() - 1 {
                assert(strokes[k] == strokes.drop_last()[k]);
            }
        }
    }
}

/// Whether `grid` takes every write of `strokes`, placed at `at`, in order:
/// each target is in reach and accepted by the buffer as the writes before it
/// have left it, whichever clone of the glyph was written.
pub open spec fn stampable<G: GridWriter>(grid: G, at: (usize, usize), strokes: Seq<Stroke<G::Element>>) -> bool
    where G::Element: Clone
    decreases strokes.len(),
{
    strokes.len() > 0 ==> {
        let first = strokes[0];
        let cell = ((at.0 + first.dx) as usize, (at.1 + first.dy) as usize);
        &&& in_reach(at, first)
        &&& grid.accepts(cell)
        &&& forall|element: G::Element, next: G|
            cloned(first.glyph, element) && #[trigger] grid.wrote(cell, element, &next) ==> stampable(
                next,
                at,
                strokes.drop_first(),
            )
    }
}

/// Whether `after` is `before` once `strokes`, placed at `at`, have been
/// written in order, each with a clone of its glyph.
pub open spec fn stamped<G: GridWriter>(
    before: G,
    at: (usize, usize),
    strokes: Seq<Stroke<G::Element>>,
    after: G,
) -> bool
    where G::Element: Clone
    decreases strokes.len(),
{
    if strokes.len() == 0 {
        after == before
    } else {
        let last = strokes.last();
        let cell = ((at.0 + last.dx) as usize, (at.1 + last.dy) as usize);
        exists|element: G::Element, middle: G|
            stamped(before, at, strokes.drop_last(), middle) && cloned(last.glyph, element)
                && #[trigger] middle.wrote(cell, element, &after)
    }
}

/// Writing one more stroke after a stamped run is the run with that stroke at its end.
pub proof fn lemma_stamped_push<G: GridWriter>(
    before: G,
    at: (usize, usize),
    strokes: Seq<Stroke<G::Element>>,
    middle: G,
    stroke: Stroke<G::Element>,
    element: G::Element,
    after: G,
)
    where G::Element: Clone
    requires
        stamped(before, at, strokes, middle),
        in_reach(at, stroke),
        cloned(stroke.glyph, element),
        middle.wrote(((at.0 + stroke.dx) as usize, (at.1 + stroke.dy) as usize), element, &after),
    ensures
        stamped(before, at, strokes.push(stroke), after),
{
    let run = strokes.push(stroke);
    assert(run.drop_last() =~= strokes);
    assert(run.last() == stroke);
}

/// Writes stroke number `done` of `strokes`: a clone of its glyph, `element`,
/// to the cell at `offset` from `at`. The strokes before it have been written
/// since the buffer was `origin`.
pub(crate) fn write_stroke<G: GridWriter>(
    to: &mut G,
    at: (usize, usize),
    offset: (usize, usize),
    element: G::Element,
    Ghost(origin): Ghost<G>,
    Ghost(strokes): Ghost<Seq<Stroke<G::Element>>>,
    Ghost(done): Ghost<int>,
)
    where G::Element: Clone
    requires
        0 <= done < strokes.len(),
        strokes[done].dx == offset.0,
        strokes[done].dy == offset.1,
        cloned(strokes[done].glyph, element),
        stamped(origin, at, strokes.take(done), *old(to)),
        stampable(*old(to), at, strokes.skip(done)),
    ensures
        stamped(origin, at, strokes.take(done + 1), *final(to)),
        stampable(*final(to), at, strokes.skip(done + 1)),
{
    let ghost rest = strokes.skip(done);
    let ghost middle = *to;
    assert(rest[0] == strokes[done]);
    assert(rest.drop_first() =~= strokes.skip(done + 1));
    to.set((at.0 + offset.0, at.1 + offset.1), element);
    proof {
        assert(strokes.take(done + 1) =~= strokes.take(done).push(strokes[done]));
        lemma_stamped_push(origin, at, strokes.take(done), middle, strokes[done], element, *to);
    }
}

} // verus!
