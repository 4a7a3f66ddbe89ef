//! Patterns that are drawn onto a buffer at an offset: lines, filled
//! rectangles and bordered rectangles.
use vstd::arithmetic::div_mod::{
    lemma_div_pos_is_pos, lemma_fundamental_div_mod, lemma_fundamental_div_mod_converse, lemma_mod_bound,
};
use vstd::arithmetic::mul::lemma_mul_inequality;
use vstd::prelude::*;
use std::fmt::Display;
use crate::stamp::{stampable, stamped, write_stroke, Stroke};
use crate::GridWriter;

verus! {

/// A pattern that can be drawn onto any buffer that takes its elements.
///
/// A sprite owns no buffer and keeps no state between drawings.
pub trait Sprite {
    /// The type of the elements that the sprite writes.
    type Element: Clone;

    /// The number of columns that the sprite spans.
    fn width(&self) -> usize;

    /// The number of rows that the sprite spans.
    fn height(&self) -> usize;

    /// Whether `draw_to` makes exactly the writes that `strokes` lists.
    /// An implementor that leaves this `false` makes no promise about what it
    /// draws.
    open spec fn draws_strokes() -> bool {
        false
    }

    /// The writes that make up the sprite, in the order in which they are made.
    open spec fn strokes(&self) -> Seq<Stroke<Self::Element>> {
        Seq::empty()
    }

    /// Draws the sprite onto `to` with its top left cell at `position`.
    fn draw_to(&self, position: (usize, usize), to: &mut impl GridWriter<Element = Self::Element>)
        requires
            Self::draws_strokes() ==> stampable(*old(to), position, self.strokes()),
        ensures
            Self::draws_strokes() ==> stamped(*old(to), position, self.strokes(), *final(to)),
    ;
}

/// The direction in which a line runs.
enum Orientation {
    /// Left to right.
    Horizontal,
    /// Top to bottom.
    Vertical,
}

/// A straight run of one element.
pub struct Line<T: Display> {
    length: usize,
    render: T,
    orientation: Orientation,
}

impl<T: Display> Line<T> {
    /// The number of cells of the line.
    pub closed spec fn length(&self) -> nat {
        self.length as nat
    }

    /// The element that the line is made of.
    pub closed spec fn glyph(&self) -> T {
        self.render
    }

    /// Whether the line runs left to right; otherwise it runs top to bottom.
    pub closed spec fn is_horizontal(&self) -> bool {
        self.orientation is Horizontal
    }

    /// The number of columns that the line spans.
    pub open spec fn columns(&self) -> nat {
        if self.is_horizontal() {
            self.length()
        } else {
            1
        }
    }

    /// The number of rows that the line spans.
    pub open spec fn rows(&self) -> nat {
        if self.is_horizontal() {
            1
        } else {
            self.length()
        }
    }

    /// Configures a horizontal line of the given length.
    #[must_use]
    pub fn horizontal(length: usize, render: T) -> (line: Self)
        ensures
            line.length() == length,
            line.glyph() == render,
            line.is_horizontal(),
    {
        Self { length, render, orientation: Orientation::Horizontal }
    }

    /// Configures a vertical line of the given length.
    #[must_use]
    pub fn vertical(length: usize, render: T) -> (line: Self)
        ensures
            line.length() == length,
            line.glyph() == render,
            !line.is_horizontal(),
    {
        Self { length, render, orientation: Orientation::Vertical }
    }
}

impl<T: Display + Clone> Sprite for Line<T> {
    type Element = T;

    fn width(&self) -> (w: usize)
        ensures
            w == self.columns(),
    {
        match self.orientation {
            Orientation::Horizontal => self.length,
            Orientation::Vertical => 1,
        }
    }

    fn height(&self) -> (h: usize)
        ensures
            h == self.rows(),
    {
        match self.orientation {
            Orientation::Horizontal => 1,
            Orientation::Vertical => self.length,
        }
    }

    open spec fn draws_strokes() -> bool {
        true
    }

    /// One write per cell, from the first cell of the line on.
    open spec fn strokes(&self) -> Seq<Stroke<T>> {
        Seq::new(
            self.length(),
            |i: int|
                if self.is_horizontal() {
                    Stroke { dx: i as nat, dy: 0, glyph: self.glyph() }
                } else {
                    Stroke { dx: 0, dy: i as nat, glyph: self.glyph() }
                },
        )
    }

    fn draw_to(&self, position: (usize, usize), to: &mut impl GridWriter<Element = T>) {
        let ghost strokes = self.strokes();
        assert(strokes.skip(0) =~= strokes);
        let mut i: usize = 0;
        while i < self.length
            invariant
                i <= self.length,
                strokes == self.strokes(),
                stamped(*old(to), position, strokes.take(i as int), *to),
                stampable(*to, position, strokes.skip(i as int)),
            decreases self.length - i,
        {
            let offset = match self.orientation {
                Orientation::Horizontal => (i, 0),
                Orientation::Vertical => (0, i),
            };
            write_stroke(to, position, offset, self.render.clone(), Ghost(*old(to)), Ghost(strokes), Ghost(i as int));
            i += 1;
        }
        assert(strokes.take(self.length as int) =~= strokes);
    }
}

impl<T: Display + Clone> Line<T> {
    /// A line writes each of its cells once, all of them inside the columns
    /// and rows that it spans, and all with the same element.
    pub proof fn lemma_strokes(&self)
        ensures
            self.strokes().len() == self.length(),
            forall|k: int|
                0 <= k < self.strokes().len() ==> {
                    &&& (#[trigger] self.strokes()[k]).dx < self.columns()
                    &&& self.strokes()[k].dy < self.rows()
                    &&& self.strokes()[k].glyph == self.glyph()
                },
            forall|k: int, l: int|
                0 <= k < l < self.strokes().len() ==> (
                (#[trigger] self.strokes()[k]).dx,
                self.strokes()[k].dy,
            ) != ((#[trigger] self.strokes()[l]).dx, self.strokes()[l].dy),
    {
    }
}

/// A rectangle of one element.
pub struct FillRect<T: Display> {
    width: usize,
    height: usize,
    render: T,
}

impl<T: Display> FillRect<T> {
    /// The number of columns of the rectangle.
    pub closed spec fn columns(&self) -> nat {
        self.width as nat
    }

    /// The number of rows of the rectangle.
    pub closed spec fn rows(&self) -> nat {
        self.height as nat
    }

    /// The element that the rectangle is made of.
    pub closed spec fn glyph(&self) -> T {
        self.render
    }

    /// Configures a filled rectangle of the given width and height.
    #[must_use]
    pub fn new(width: usize, height: usize, render: T) -> (rect: Self)
        ensures
            rect.columns() == width,
            rect.rows() == height,
            rect.glyph() == render,
    {
        Self { width, height, render }
    }
}

impl<T: Display + Clone> Sprite for FillRect<T> {
    type Element = T;

    fn width(&self) -> (w: usize)
        ensures
            w == self.columns(),
    {
        self.width
    }

    fn height(&self) -> (h: usize)
        ensures
            h == self.rows(),
    {
        self.height
    }

    open spec fn draws_strokes() -> bool {
        true
    }

    /// One write per cell: column after column, each from its top cell down.
    open spec fn strokes(&self) -> Seq<Stroke<T>> {
        Seq::new(
            self.columns() * self.rows(),
            |k: int|
                Stroke {
                    dx: (k / self.rows() as int) as nat,
                    dy: (k % self.rows() as int) as nat,
                    glyph: self.glyph(),
                },
        )
    }

    fn draw_to(&self, position: (usize, usize), to: &mut impl GridWriter<Element = T>) {
        let ghost strokes = self.strokes();
        let ghost h = self.height as int;
        assert(strokes.skip(0) =~= strokes);
        let mut i: usize = 0;
        while i < self.width
            invariant
                i <= self.width,
                h == self.height,
                strokes == self.strokes(),
                stamped(*old(to), position, strokes.take(i * h), *to),
                stampable(*to, position, strokes.skip(i * h)),
            decreases self.width - i,
        {
            let mut j: usize = 0;
            while j < self.height
                invariant
                    i < self.width,
                    j <= self.height,
                    h == self.height,
                    strokes == self.strokes(),
                    stamped(*old(to), position, strokes.take(i * h + j), *to),
                    stampable(*to, position, strokes.skip(i * h + j)),
                decreases self.height - j,
            {
                proof {
                    let k = i * h + j;
                    lemma_fundamental_div_mod_converse(k, h, i as int, j as int);
                    lemma_mul_inequality(i + 1, self.width as int, h);
                    assert((i + 1) * h == i * h + h) by (nonlinear_arith);
                }
                write_stroke(
                    to,
                    position,
                    (i, j),
                    self.render.clone(),
                    Ghost(*old(to)),
                    Ghost(strokes),
                    Ghost(i * h + j),
                );
                j += 1;
            }
            assert((i + 1) * h == i * h + h) by (nonlinear_arith);
            i += 1;
        }
        assert(strokes.take(self.width as int * h) =~= strokes);
    }
}

impl<T: Display + Clone> FillRect<T> {
    /// The number of the stroke that goes to the cell at `column` and `row`
    /// of the rectangle.
    pub open spec fn stroke_to(&self, column: int, row: int) -> int {
        column * self.rows() + row
    }

    /// A filled rectangle writes each of its cells once, all of them inside
    /// the columns and rows that it spans, and all with the same element.
    pub proof fn lemma_strokes(&self)
        ensures
            self.strokes().len() == self.columns() * self.rows(),
            forall|k: int|
                0 <= k < self.strokes().len() ==> {
                    &&& (#[trigger] self.strokes()[k]).dx < self.columns()
                    &&& self.strokes()[k].dy < self.rows()
                    &&& self.strokes()[k].glyph == self.glyph()
                },
            forall|k: int, l: int|
                0 <= k < l < self.strokes().len() ==> (
                (#[trigger] self.strokes()[k]).dx,
                self.strokes()[k].dy,
            ) != ((#[trigger] self.strokes()[l]).dx, self.strokes()[l].dy),
            forall|column: int, row: int|
                0 <= column < self.columns() && 0 <= row < self.rows() ==> {
                    &&& 0 <= #[trigger] self.stroke_to(column, row) < self.strokes().len()
                    &&& self.strokes()[self.stroke_to(column, row)].dx == column
                    &&& self.strokes()[self.stroke_to(column, row)].dy == row
                },
    {
        let w = self.columns() as int;
        let h = self.rows() as int;
        let strokes = self.strokes();
        assert forall|k: int| 0 <= k < strokes.len() implies {
            &&& (#[trigger] strokes[k]).dx < w
            &&& strokes[k].dy < h
            &&& strokes[k].glyph == self.glyph()
        } by {
            assert(h > 0) by (nonlinear_arith)
                requires
                    0 <= k < w * h,
                    0 <= w,
                    0 <= h,
            ;
            lemma_fundamental_div_mod(k, h);
            lemma_div_pos_is_pos(k, h);
            lemma_mod_bound(k, h);
            assert(k / h < w) by (nonlinear_arith)
                requires
                    k == h * (k / h) + k % h,
                    0 <= k % h < h,
                    k < w * h,
                    0 < h,
            ;
        }
        assert forall|k: int, l: int| 0 <= k < l < strokes.len() implies ((#[trigger] strokes[k]).dx, strokes[k].dy) != (
            (#[trigger] strokes[l]).dx,
            strokes[l].dy,
        ) by {
            assert(h > 0) by (nonlinear_arith)
                requires
                    0 <= k < w * h,
                    0 <= w,
                    0 <= h,
            ;
            lemma_fundamental_div_mod(k, h);
            lemma_fundamental_div_mod(l, h);
            lemma_div_pos_is_pos(k, h);
            lemma_div_pos_is_pos(l, h);
            lemma_mod_bound(k, h);
            lemma_mod_bound(l, h);
        }
        assert forall|column: int, row: int| 0 <= column < w && 0 <= row < h implies {
            &&& 0 <= #[trigger] self.stroke_to(column, row) < strokes.len()
            &&& strokes[self.stroke_to(column, row)].dx == column
            &&& strokes[self.stroke_to(column, row)].dy == row
        } by {
            lemma_fundamental_div_mod_converse(column * h + row, h, column, row);
            lemma_mul_inequality(column + 1, w, h);
            assert((column + 1) * h == column * h + h) by (nonlinear_arith);
            assert(0 <= column * h) by (nonlinear_arith)
                requires
                    0 <= column,
                    0 <= h,
            ;
        }
    }
}

/// A rectangle of which only the border is drawn, from a palette of eight
/// elements. It spans at least two columns and two rows.
pub struct BorderRect<T: Display> {
    width: usize,
    height: usize,
    render: [T; 8],
}

impl<T: Display> BorderRect<T> {
    #[verifier::type_invariant]
    spec fn has_corners(self) -> bool {
        self.width >= 2 && self.height >= 2
    }

    /// The number of columns of the rectangle.
    pub closed spec fn columns(&self) -> nat {
        self.width as nat
    }

    /// The number of rows of the rectangle.
    pub closed spec fn rows(&self) -> nat {
        self.height as nat
    }

    /// The eight elements of the border: top left corner, top edge, top right
    /// corner, left edge, right edge, bottom left corner, bottom edge, bottom
    /// right corner.
    pub closed spec fn palette(&self) -> Seq<T> {
        self.render@
    }

    /// The writes of the top and bottom edges, without the corners: for each
    /// column from the second to the last but one, the top cell and then the
    /// bottom cell.
    pub open spec fn across(&self) -> Seq<Stroke<T>> {
        Seq::new(
            (2 * (self.columns() - 2)) as nat,
            |k: int|
                if k % 2 == 0 {
                    Stroke { dx: (k / 2 + 1) as nat, dy: 0, glyph: self.palette()[1] }
                } else {
                    Stroke { dx: (k / 2 + 1) as nat, dy: (self.rows() - 1) as nat, glyph: self.palette()[6] }
                },
        )
    }

    /// The writes of the left and right edges, without the corners: for each
    /// row from the second to the last but one, the left cell and then the
    /// right cell.
    pub open spec fn down(&self) -> Seq<Stroke<T>> {
        Seq::new(
            (2 * (self.rows() - 2)) as nat,
            |k: int|
                if k % 2 == 0 {
                    Stroke { dx: 0, dy: (k / 2 + 1) as nat, glyph: self.palette()[3] }
                } else {
                    Stroke { dx: (self.columns() - 1) as nat, dy: (k / 2 + 1) as nat, glyph: self.palette()[4] }
                },
        )
    }

    /// The writes of the four corners: top left, top right, bottom left,
    /// bottom right.
    pub open spec fn corners(&self) -> Seq<Stroke<T>> {
        let right = (self.columns() - 1) as nat;
        let bottom = (self.rows() - 1) as nat;
        seq![
            Stroke { dx: 0, dy: 0, glyph: self.palette()[0] },
            Stroke { dx: right, dy: 0, glyph: self.palette()[2] },
            Stroke { dx: 0, dy: bottom, glyph: self.palette()[5] },
            Stroke { dx: right, dy: bottom, glyph: self.palette()[7] },
        ]
    }

    /// Configures a bordered rectangle of the given width and height, each of
    /// which is at least 2: a border has four corners.
    ///
    /// The elements of `render` are, in this order: top left corner, top
    /// edge, top right corner, left edge, right edge, bottom left corner,
    /// bottom edge, bottom right corner.
    #[must_use]
    pub fn new(width: usize, height: usize, render: [T; 8]) -> (rect: Self)
        requires
            width >= 2,
            height >= 2,
        ensures
            rect.columns() == width,
            rect.rows() == height,
            rect.palette() == render@,
    {
        Self { width, height, render }
    }
}

impl<T: Display + Clone> BorderRect<T> {
    fn top_left(&self) -> (element: T)
        ensures
            cloned(self.palette()[0], element),
    {
        self.render[0].clone()
    }

    fn top(&self) -> (element: T)
        ensures
            cloned(self.palette()[1], element),
    {
        self.render[1].clone()
    }

    fn top_right(&self) -> (element: T)
        ensures
            cloned(self.palette()[2], element),
    {
        self.render[2].clone()
    }

    fn left(&self) -> (element: T)
        ensures
            cloned(self.palette()[3], element),
    {
        self.render[3].clone()
    }

    fn right(&self) -> (element: T)
        ensures
            cloned(self.palette()[4], element),
    {
        self.render[4].clone()
    }

    fn bottom_left(&self) -> (element: T)
        ensures
            cloned(self.palette()[5], element),
    {
        self.render[5].clone()
    }

    fn bottom(&self) -> (element: T)
        ensures
            cloned(self.palette()[6], element),
    {
        self.render[6].clone()
    }

    fn bottom_right(&self) -> (element: T)
        ensures
            cloned(self.palette()[7], element),
    {
        self.render[7].clone()
    }
}

impl<T: Display + Clone> BorderRect<T> {
    /// Whether the cell at `column` and `row` of the rectangle lies on its border.
    pub open spec fn on_border(&self, column: int, row: int) -> bool {
        &&& 0 <= column < self.columns()
        &&& 0 <= row < self.rows()
        &&& (column == 0 || column == self.columns() - 1 || row == 0 || row == self.rows() - 1)
    }

    /// The element of the palette that belongs to the cell at `column` and
    /// `row` of the border.
    pub open spec fn glyph_at(&self, column: int, row: int) -> T {
        let right = self.columns() - 1;
        let bottom = self.rows() - 1;
        if row == 0 {
            if column == 0 {
                self.palette()[0]
            } else if column == right {
                self.palette()[2]
            } else {
                self.palette()[1]
            }
        } else if row == bottom {
            if column == 0 {
                self.palette()[5]
            } else if column == right {
                self.palette()[7]
            } else {
                self.palette()[6]
            }
        } else if column == 0 {
            self.palette()[3]
        } else {
            self.palette()[4]
        }
    }

    /// The number of the stroke that goes to the cell at `column` and `row`
    /// of the border.
    pub open spec fn stroke_to(&self, column: int, row: int) -> int {
        let right = self.columns() - 1;
        let bottom = self.rows() - 1;
        let across = 2 * (self.columns() - 2);
        let down = 2 * (self.rows() - 2);
        if 0 < column < right {
            if row == 0 {
                2 * (column - 1)
            } else {
                2 * (column - 1) + 1
            }
        } else if 0 < row < bottom {
            if column == 0 {
                across + 2 * (row - 1)
            } else {
                across + 2 * (row - 1) + 1
            }
        } else {
            across + down + (if row == 0 { 0int } else { 2int }) + (if column == 0 { 0int } else { 1int })
        }
    }

    /// A bordered rectangle writes each cell of its border once, with the
    /// element of the palette that belongs there, and no other cell.
    pub proof fn lemma_strokes(&self)
        requires
            self.columns() >= 2,
            self.rows() >= 2,
        ensures
            self.strokes().len() == 2 * (self.columns() - 2) + 2 * (self.rows() - 2) + 4,
            forall|k: int|
                0 <= k < self.strokes().len() ==> {
                    &&& self.on_border((#[trigger] self.strokes()[k]).dx as int, self.strokes()[k].dy as int)
                    &&& self.strokes()[k].glyph == self.glyph_at(
                        self.strokes()[k].dx as int,
                        self.strokes()[k].dy as int,
                    )
                    &&& self.stroke_to(self.strokes()[k].dx as int, self.strokes()[k].dy as int) == k
                },
            forall|column: int, row: int|
                self.on_border(column, row) ==> {
                    &&& 0 <= #[trigger] self.stroke_to(column, row) < self.strokes().len()
                    &&& self.strokes()[self.stroke_to(column, row)].dx == column
                    &&& self.strokes()[self.stroke_to(column, row)].dy == row
                },
    {
        let across = 2 * (self.columns() - 2);
        let down = 2 * (self.rows() - 2);
        let strokes = self.strokes();
        assert forall|k: int| 0 <= k < strokes.len() implies {
            &&& self.on_border((#[trigger] strokes[k]).dx as int, strokes[k].dy as int)
            &&& strokes[k].glyph == self.glyph_at(strokes[k].dx as int, strokes[k].dy as int)
            &&& self.stroke_to(strokes[k].dx as int, strokes[k].dy as int) == k
        } by {
            if k < across {
                assert(strokes[k] == self.across()[k]);
            } else if k < across + down {
                assert(strokes[k] == self.down()[k - across]);
            } else {
                assert(strokes[k] == self.corners()[k - across - down]);
            }
        }
        assert forall|column: int, row: int| self.on_border(column, row) implies {
            &&& 0 <= #[trigger] self.stroke_to(column, row) < strokes.len()
            &&& strokes[self.stroke_to(column, row)].dx == column
            &&& strokes[self.stroke_to(column, row)].dy == row
        } by {
            let k = self.stroke_to(column, row);
            if k < across {
                assert(strokes[k] == self.across()[k]);
            } else if k < across + down {
                assert(strokes[k] == self.down()[k - across]);
            } else {
                assert(strokes[k] == self.corners()[k - across - down]);
            }
        }
    }
}

impl<T: Display + Clone> Sprite for BorderRect<T> {
    type Element = T;

    fn width(&self) -> (w: usize)
        ensures
            w == self.columns(),
            w >= 2,
    {
        proof {
            use_type_invariant(self);
        }
        self.width
    }

    fn height(&self) -> (h: usize)
        ensures
            h == self.rows(),
            h >= 2,
    {
        proof {
            use_type_invariant(self);
        }
        self.height
    }

    open spec fn draws_strokes() -> bool {
        true
    }

    /// The edges first, the four corners last. No cell is written twice, and
    /// no cell inside the border is written.
    open spec fn strokes(&self) -> Seq<Stroke<T>> {
        self.across() + self.down() + self.corners()
    }

    fn draw_to(&self, position: (usize, usize), to: &mut impl GridWriter<Element = T>) {
        let width = self.width();
        let height = self.height();
        let ghost strokes = self.strokes();
        let ghost origin = *to;
        let ghost across = 2 * (width - 2);
        let ghost down = 2 * (height - 2);
        assert(strokes.skip(0) =~= strokes);
        assert(strokes.len() == across + down + 4);

        // Top and bottom edges.
        let mut i: usize = 1;
        while i < width - 1
            invariant
                1 <= i <= width - 1,
                width == self.columns(),
                height == self.rows(),
                height >= 2,
                strokes == self.strokes(),
                strokes.len() == across + down + 4,
                across == 2 * (width - 2),
                stamped(origin, position, strokes.take(2 * (i - 1)), *to),
                stampable(*to, position, strokes.skip(2 * (i - 1))),
            decreases width - i,
        {
            let ghost k = 2 * (i - 1);
            assert(strokes[k] == self.across()[k]);
            assert(strokes[k + 1] == self.across()[k + 1]);
            write_stroke(to, position, (i, 0), self.top(), Ghost(origin), Ghost(strokes), Ghost(k));
            write_stroke(to, position, (i, height - 1), self.bottom(), Ghost(origin), Ghost(strokes), Ghost(k + 1));
            i += 1;
        }

        // Left and right edges.
        let mut i: usize = 1;
        while i < height - 1
            invariant
                1 <= i <= height - 1,
                width == self.columns(),
                height == self.rows(),
                width >= 2,
                strokes == self.strokes(),
                strokes.len() == across + down + 4,
                across == 2 * (width - 2),
                down == 2 * (height - 2),
                stamped(origin, position, strokes.take(across + 2 * (i - 1)), *to),
                stampable(*to, position, strokes.skip(across + 2 * (i - 1))),
            decreases height - i,
        {
            let ghost k = 2 * (i - 1);
            assert(strokes[across + k] == self.down()[k]);
            assert(strokes[across + k + 1] == self.down()[k + 1]);
            write_stroke(to, position, (0, i), self.left(), Ghost(origin), Ghost(strokes), Ghost(across + k));
            write_stroke(to, position, (width - 1, i), self.right(), Ghost(origin), Ghost(strokes), Ghost(across + k + 1));
            i += 1;
        }

        // Corners.
        let ghost k = across + down;
        assert(strokes[k] == self.corners()[0]);
        assert(strokes[k + 1] == self.corners()[1]);
        assert(strokes[k + 2] == self.corners()[2]);
        assert(strokes[k + 3] == self.corners()[3]);
        write_stroke(to, position, (0, 0), self.top_left(), Ghost(origin), Ghost(strokes), Ghost(k));
        write_stroke(to, position, (width - 1, 0), self.top_right(), Ghost(origin), Ghost(strokes), Ghost(k + 1));
        write_stroke(to, position, (0, height - 1), self.bottom_left(), Ghost(origin), Ghost(strokes), Ghost(k + 2));
        write_stroke(
            to,
            position,
            (width - 1, height - 1),
            self.bottom_right(),
            Ghost(origin),
            Ghost(strokes),
            Ghost(k + 3),
        );
        assert(strokes.take(k + 4) =~= strokes);
    }
}

} // verus!
