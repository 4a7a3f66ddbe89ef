//! Rendering rows of elements as text: what each element displays as, with
//! no separator, and a line break after each row.
use vstd::prelude::*;
use vstd::string::{to_string_from_display_ensures, StringExecFns};
use vstd::utf8::*;
use std::fmt::Display;
use crate::lines::{ends_with_return, lemma_pieces_of_stacked, lines_of, pieces, stacked, unbroken};

verus! {

/// Whether `text` is what `cell` displays as.
pub open spec fn shows<T: Display>(cell: T, text: Seq<char>) -> bool {
    exists|s: String| #[trigger] to_string_from_display_ensures::<T>(&cell, s) && s@ == text
}

/// Whether `texts` holds, cell for cell, what the elements of `cells` display as.
pub open spec fn shows_rows<T: Display>(cells: Seq<Seq<T>>, texts: Seq<Seq<Seq<char>>>) -> bool {
    &&& texts.len() == cells.len()
    &&& forall|j: int| 0 <= j < cells.len() ==> (#[trigger] texts[j]).len() == cells[j].len()
    &&& forall|j: int, i: int|
        0 <= j < cells.len() && 0 <= i < cells[j].len() ==> shows(#[trigger] cells[j][i], #[trigger] texts[j][i])
}

/// The texts of one row, one after the other.
pub open spec fn row_text(texts: Seq<Seq<char>>) -> Seq<char>
    decreases texts.len(),
{
    if texts.len() == 0 {
        Seq::empty()
    } else {
        row_text(texts.drop_last()) + texts.last()
    }
}

/// The text of each row of a buffer whose cells display as `texts`.
pub open spec fn row_texts(texts: Seq<Seq<Seq<char>>>) -> Seq<Seq<char>> {
    Seq::new(texts.len(), |j: int| row_text(texts[j]))
}

/// The text of a buffer whose cells display as `texts`: row after row, each
/// followed by a line break.
pub open spec fn grid_text(texts: Seq<Seq<Seq<char>>>) -> Seq<char> {
    stacked(row_texts(texts))
}

/// Whether `text` is a rendering of `cells`.
pub open spec fn shows_as<T: Display>(cells: Seq<Seq<T>>, text: Seq<char>) -> bool {
    exists|texts: Seq<Seq<Seq<char>>>| #[trigger] shows_rows(cells, texts) && text == grid_text(texts)
}

/// Whether `bytes` is a rendering of `cells` in UTF-8.
pub open spec fn renders_rows<T: Display>(cells: Seq<Seq<T>>, bytes: Seq<u8>) -> bool {
    exists|text: Seq<char>| #[trigger] shows_as(cells, text) && bytes == encode_utf8(text)
}

/// The characters of each string of `texts`.
pub open spec fn texts_of(texts: Vec<Vec<String>>) -> Seq<Seq<Seq<char>>> {
    Seq::new(texts@.len(), |j: int| Seq::new(texts@[j]@.len(), |i: int| texts@[j]@[i]@))
}

/// Returns what each element of `row` displays as.
pub fn display_row<T: Display>(row: &[T]) -> (texts: Vec<String>)
    ensures
        texts@.len() == row@.len(),
        forall|i: int| 0 <= i < row@.len() ==> shows(#[trigger] row@[i], texts@[i]@),
{
    let mut texts: Vec<String> = Vec::new();
    let mut i: usize = 0;
    while i < row.len()
        invariant
            i <= row.len(),
            texts@.len() == i,
            forall|k: int| 0 <= k < i ==> shows(#[trigger] row@[k], texts@[k]@),
        decreases row.len() - i,
    {
        let text = row[i].to_string();
        texts.push(text);
        i += 1;
    }
    texts
}

/// Lays the texts of the cells out: row after row, the texts of a row with
/// nothing between them, and a line break after each row.
pub fn layout(texts: &Vec<Vec<String>>) -> (text: String)
    ensures
        text@ == grid_text(texts_of(*texts)),
{
    let mut text = String::new();
    let ghost all = texts_of(*texts);
    let mut j: usize = 0;
    while j < texts.len()
        invariant
            j <= texts.len(),
            all == texts_of(*texts),
            text@ == grid_text(all.take(j as int)),
        decreases texts.len() - j,
    {
        let row = &texts[j];
        let ghost head = text@;
        let mut i: usize = 0;
        while i < row.len()
            invariant
                i <= row.len(),
                row == texts@[j as int],
                j < texts.len(),
                all == texts_of(*texts),
                text@ == head + row_text(all[j as int].take(i as int)),
            decreases row.len() - i,
        {
            text.append(row[i].as_str());
            proof {
                let cells = all[j as int];
                assert(cells.take(i + 1).drop_last() =~= cells.take(i as int));
                assert(cells.take(i + 1).last() == row@[i as int]@);
            }
            i += 1;
        }
        text.push('\n');
        proof {
            assert(all[j as int].take(row.len() as int) =~= all[j as int]);
            assert(row_texts(all.take(j + 1)).drop_last() =~= row_texts(all.take(j as int)));
            assert(row_texts(all.take(j + 1)).last() == row_text(all[j as int]));
            assert(text@ =~= head + row_text(all[j as int]) + seq!['\n']);
        }
        j += 1;
    }
    assert(all.take(texts.len() as int) =~= all);
    text
}

/// Appends to `stream`, in UTF-8, the layout of the texts of the cells.
pub fn write_layout(texts: &Vec<Vec<String>>, stream: &mut Vec<u8>)
    ensures
        final(stream)@ == old(stream)@ + encode_utf8(grid_text(texts_of(*texts))),
{
    let text = layout(texts);
    stream.extend_from_slice(text.as_str().as_bytes());
    assert(stream@ =~= old(stream)@ + encode_utf8(text@));
}

/// Texts without line breaks, one after the other, hold no line break.
pub proof fn lemma_row_text_unbroken(texts: Seq<Seq<char>>)
    requires
        forall|i: int| 0 <= i < texts.len() ==> unbroken(#[trigger] texts[i]),
    ensures
        unbroken(row_text(texts)),
    decreases texts.len(),
{
    if texts.len() > 0 {
        let head = texts.drop_last();
        assert forall|i: int| 0 <= i < head.len() implies unbroken(#[trigger] head[i]) by {
            assert(head[i] == texts[i]);
        }
        lemma_row_text_unbroken(head);
        assert(unbroken(texts.last()));
    }
}

/// Cut at its line breaks, a rendering falls into one piece for each row, and
/// each piece is the texts of the cells of its row, one after the other. This
/// holds where no cell displays as a text with a line break in it.
pub proof fn lemma_rendering_pieces(texts: Seq<Seq<Seq<char>>>)
    requires
        forall|j: int, i: int| 0 <= j < texts.len() && 0 <= i < texts[j].len() ==> unbroken(#[trigger] texts[j][i]),
    ensures
        pieces(grid_text(texts), false) == row_texts(texts),
        pieces(grid_text(texts), false).len() == texts.len(),
{
    let rows = row_texts(texts);
    assert forall|j: int| 0 <= j < rows.len() implies unbroken(#[trigger] rows[j]) by {
        lemma_row_text_unbroken(texts[j]);
    }
    lemma_pieces_of_stacked(rows, false);
}

/// Cut at its line breaks, a rendering of a buffer falls into one piece for
/// each row of the buffer, and each piece is what the elements of its row
/// display as, one after the other. This holds where no element displays as a
/// text with a line break in it.
pub proof fn lemma_rendering_of_rows<T: Display>(cells: Seq<Seq<T>>, text: Seq<char>)
    requires
        shows_as(cells, text),
        forall|j: int, i: int, shown: Seq<char>|
            0 <= j < cells.len() && 0 <= i < cells[j].len() && #[trigger] shows(cells[j][i], shown) ==> unbroken(
                shown,
            ),
    ensures
        pieces(text, false).len() == cells.len(),
        exists|texts: Seq<Seq<Seq<char>>>| #[trigger] shows_rows(cells, texts) && pieces(text, false) == row_texts(texts),
{
    let texts = choose|texts: Seq<Seq<Seq<char>>>| #[trigger] shows_rows(cells, texts) && text == grid_text(texts);
    assert forall|j: int, i: int| 0 <= j < texts.len() && 0 <= i < texts[j].len() implies unbroken(
        #[trigger] texts[j][i],
    ) by {
        assert(shows(cells[j][i], texts[j][i]));
    }
    lemma_rendering_pieces(texts);
}

/// Read as a text, a rendering has one line for each row, and each line is
/// the texts of the cells of its row, one after the other. This holds where
/// no cell displays as a text with a line break in it and no row ends with a
/// carriage return.
pub proof fn lemma_rendering_lines(texts: Seq<Seq<Seq<char>>>)
    requires
        forall|j: int, i: int| 0 <= j < texts.len() && 0 <= i < texts[j].len() ==> unbroken(#[trigger] texts[j][i]),
        forall|j: int| 0 <= j < texts.len() ==> !ends_with_return(row_text(#[trigger] texts[j])),
    ensures
        lines_of(grid_text(texts)) == row_texts(texts),
{
    let rows = row_texts(texts);
    assert forall|j: int| 0 <= j < rows.len() implies unbroken(#[trigger] rows[j]) by {
        lemma_row_text_unbroken(texts[j]);
    }
    assert forall|j: int| 0 <= j < rows.len() implies !ends_with_return(#[trigger] rows[j]) by {
        assert(rows[j] == row_text(texts[j]));
    }
    lemma_pieces_of_stacked(rows, true);
}

/// A rendering in UTF-8 decodes to a rendering as text, and to no other text.
pub proof fn lemma_renders_rows<T: Display>(cells: Seq<Seq<T>>, bytes: Seq<u8>)
    requires
        renders_rows(cells, bytes),
    ensures
        valid_utf8(bytes),
        shows_as(cells, decode_utf8(bytes)),
{
    broadcast use {encode_utf8_valid_utf8, encode_utf8_decode_utf8};

    let text = choose|text: Seq<char>| #[trigger] shows_as(cells, text) && bytes == encode_utf8(text);
    assert(decode_utf8(bytes) == text);
}

} // verus!
