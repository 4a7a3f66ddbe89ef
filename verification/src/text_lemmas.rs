//! What holds of writes into text: when a line takes a write, what a write
//! past the end of a line leaves, and what a second, equal write changes.
use vstd::prelude::*;
use vstd::utf8::*;
use std::string::FromUtf8Error;
use crate::lines::{
    ends_with_return, joined, lemma_line_end_first, lemma_pieces_of_joined, lemma_pieces_unbroken_each, line_end,
    lines_of, stacked, unbroken, without_return,
};
use crate::nested::row_or_empty;
use crate::stamp::{stampable, Stroke};
use crate::{DisplayGrid, GridWriter};
use crate::text::{
    byte_len, chars_before, grown, is_white_space, padded, row_accepts, row_with, rows_with, spaces, text_accepts,
    text_with, trimmed, utf8_width,
};

verus! {

/// `utf8_width` is the length of the encoding that `vstd` gives to one character.
pub proof fn lemma_utf8_width(c: char)
    ensures
        utf8_width(c) == encode_utf8(seq![c]).len(),
{
    let s = seq![c];
    assert(s.drop_first() =~= Seq::<char>::empty());
    assert(encode_utf8(s.drop_first()) =~= Seq::<u8>::empty());
    assert(encode_utf8(s) =~= encode_scalar(c as u32) + encode_utf8(s.drop_first()));
}

/// The bytes of a prefix grow by the width of the character that it takes in.
pub proof fn lemma_byte_len_step(s: Seq<char>, k: int)
    requires
        0 <= k < s.len(),
    ensures
        byte_len(s.take(k + 1)) == byte_len(s.take(k)) + utf8_width(s[k]),
        byte_len(s.take(k + 1)) > byte_len(s.take(k)),
{
    assert(s.take(k + 1).drop_last() =~= s.take(k));
}

/// A longer prefix has at least as many bytes.
pub proof fn lemma_byte_len_prefix(s: Seq<char>, i: int, j: int)
    requires
        0 <= i <= j <= s.len(),
    ensures
        byte_len(s.take(i)) <= byte_len(s.take(j)),
        byte_len(s.take(j)) <= byte_len(s),
    decreases s.len() - i,
{
    if i < j {
        lemma_byte_len_step(s, i);
        lemma_byte_len_prefix(s, i + 1, j);
    } else if j < s.len() {
        lemma_byte_len_step(s, j);
        lemma_byte_len_prefix(s, j + 1, j + 1);
    } else {
        assert(s.take(j) =~= s);
    }
}

/// Each space at the end of a row adds one byte.
pub proof fn lemma_byte_len_spaces(s: Seq<char>, n: nat)
    ensures
        byte_len(s + spaces(n as int)) == byte_len(s) + n,
    decreases n,
{
    let wide = s + spaces(n as int);
    if n == 0 {
        assert(wide =~= s);
    } else {
        assert(wide.drop_last() =~= s + spaces(n - 1));
        lemma_byte_len_spaces(s, (n - 1) as nat);
    }
}

/// `chars_before` is the number of the first character that starts at byte
/// `x` or later, or the length of the row where there is none.
pub proof fn lemma_chars_before(row: Seq<char>, x: int, k: int)
    requires
        0 <= k <= row.len(),
        k > 0 ==> byte_len(row.take(k - 1)) < x,
        k < row.len() ==> byte_len(row.take(k)) >= x,
    ensures
        chars_before(row, x) == k,
    decreases row.len(),
{
    if row.len() > 0 {
        let head = row.drop_last();
        assert(head =~= row.take(row.len() - 1));
        if byte_len(head) < x {
            if k < row.len() {
                lemma_byte_len_prefix(row, k, row.len() - 1);
            }
        } else {
            if k > 0 {
                assert(head.take(k - 1) =~= row.take(k - 1));
            }
            if k < head.len() {
                assert(head.take(k) =~= row.take(k));
            }
            lemma_chars_before(head, x, k);
        }
    }
}

/// The encoding of a text grows by the encoding of the character added at its end.
pub proof fn lemma_encode_push(s: Seq<char>, c: char)
    ensures
        encode_utf8(s.push(c)) == encode_utf8(s) + encode_utf8(seq![c]),
    decreases s.len(),
{
    let longer = s.push(c);
    if s.len() == 0 {
        assert(longer =~= seq![c]);
        assert(encode_utf8(s) + encode_utf8(seq![c]) =~= encode_utf8(seq![c]));
    } else {
        assert(longer.drop_first() =~= s.drop_first().push(c));
        lemma_encode_push(s.drop_first(), c);
        assert(encode_utf8(longer) =~= encode_utf8(s) + encode_utf8(seq![c]));
    }
}

/// `byte_len` is the number of bytes of the text in UTF-8: what `str::len` returns.
pub proof fn lemma_byte_len_encoded(s: Seq<char>)
    ensures
        byte_len(s) == encode_utf8(s).len(),
    decreases s.len(),
{
    if s.len() > 0 {
        lemma_byte_len_encoded(s.drop_last());
        lemma_encode_push(s.drop_last(), s.last());
        lemma_utf8_width(s.last());
        assert(s.drop_last().push(s.last()) =~= s);
    }
}

/// A line takes every write at or past its end. Such a write leaves the
/// line, the spaces that reach from its end to the column, and the
/// character, without the white space at the end of all that.
pub proof fn lemma_write_past_end(row: Seq<char>, x: int, c: char)
    requires
        x >= byte_len(row),
    ensures
        row_accepts(row, x),
        chars_before(padded(row, x), x) == row.len() + x - byte_len(row),
        row_with(row, x, c) == trimmed((row + spaces(x - byte_len(row))).push(c)),
{
    let n = x - byte_len(row);
    let wide = padded(row, x);
    let k = row.len() + n;
    assert(wide =~= row + spaces(n + 1));
    assert(wide.take(k) =~= row + spaces(n));
    lemma_byte_len_spaces(row, n as nat);
    if k > 0 {
        lemma_byte_len_step(wide, k - 1);
    }
    lemma_chars_before(wide, x, k);
    assert(wide[k] == ' ');
    assert(wide.update(k, c) =~= (row + spaces(n)).push(c));
}

/// A text of ASCII characters has as many bytes as characters.
pub proof fn lemma_byte_len_ascii(s: Seq<char>)
    requires
        is_ascii_chars(s),
    ensures
        byte_len(s) == s.len(),
    decreases s.len(),
{
    if s.len() > 0 {
        assert(is_ascii_chars(s.drop_last())) by {
            assert forall|i: int| 0 <= i < s.drop_last().len() implies '\0' <= #[trigger] s.drop_last()[i]
                <= '\u{7f}' by {
                assert(s.drop_last()[i] == s[i]);
            }
        }
        lemma_byte_len_ascii(s.drop_last());
        assert('\0' <= s[s.len() - 1] <= '\u{7f}');
    }
}

/// A line of ASCII characters takes a write at every column, and its columns
/// are its characters: a write inside the line replaces the character at
/// that place.
pub proof fn lemma_write_ascii(row: Seq<char>, x: int, c: char)
    requires
        is_ascii_chars(row),
        0 <= x,
    ensures
        row_accepts(row, x),
        x < row.len() ==> row_with(row, x, c) == trimmed(row.update(x, c)),
        x >= row.len() ==> row_with(row, x, c) == trimmed((row + spaces(x - row.len())).push(c)),
{
    lemma_byte_len_ascii(row);
    if x >= row.len() {
        lemma_write_past_end(row, x, c);
    } else {
        assert forall|k: int| 0 <= k <= row.len() implies byte_len(#[trigger] row.take(k)) == k by {
            assert(is_ascii_chars(row.take(k))) by {
                assert forall|i: int| 0 <= i < row.take(k).len() implies '\0' <= #[trigger] row.take(k)[i]
                    <= '\u{7f}' by {
                    assert(row.take(k)[i] == row[i]);
                }
            }
            lemma_byte_len_ascii(row.take(k));
        }
        assert(byte_len(row.take(x)) == x);
        if x > 0 {
            assert(byte_len(row.take(x - 1)) == x - 1);
        }
        lemma_chars_before(row, x, x);
        assert('\0' <= row[x] <= '\u{7f}');
    }
}

/// `trimmed` is the line up to its last character that is not white space.
pub proof fn lemma_trimmed(line: Seq<char>, kept: int)
    requires
        0 <= kept <= line.len(),
        forall|i: int| kept <= i < line.len() ==> is_white_space(line[i]),
        kept > 0 ==> !is_white_space(line[kept - 1]),
    ensures
        trimmed(line) == line.take(kept),
    decreases line.len(),
{
    if kept < line.len() {
        let head = line.drop_last();
        lemma_trimmed(head, kept);
        assert(head.take(kept) =~= line.take(kept));
    } else {
        assert(line.take(kept) =~= line);
    }
}

/// What `trimmed` keeps is a prefix of the line that does not end with white
/// space, and what it cuts off is white space.
pub proof fn lemma_trimmed_keeps(line: Seq<char>)
    ensures
        trimmed(line).len() <= line.len(),
        trimmed(line) == line.take(trimmed(line).len() as int),
        forall|i: int| trimmed(line).len() <= i < line.len() ==> is_white_space(line[i]),
        trimmed(line).len() > 0 ==> !is_white_space(trimmed(line).last()),
    decreases line.len(),
{
    if line.len() > 0 && is_white_space(line.last()) {
        let head = line.drop_last();
        lemma_trimmed_keeps(head);
        let kept = trimmed(head).len() as int;
        assert(head.take(kept) =~= line.take(kept));
        assert forall|i: int| kept <= i < line.len() implies is_white_space(line[i]) by {
            if i < head.len() {
                assert(line[i] == head[i]);
            }
        }
    } else {
        assert(line.take(line.len() as int) =~= line);
    }
}

/// `chars_before` counts characters of the row.
pub proof fn lemma_chars_before_bounds(row: Seq<char>, x: int)
    ensures
        0 <= chars_before(row, x) <= row.len(),
    decreases row.len(),
{
    if row.len() > 0 {
        lemma_chars_before_bounds(row.drop_last(), x);
    }
}

/// Writing the same character to the same column of a line a second time
/// changes nothing, where the line takes the second write too.
pub proof fn lemma_row_write_twice(row: Seq<char>, x: int, c: char)
    requires
        0 <= x,
        row_accepts(row, x),
        row_accepts(row_with(row, x, c), x),
    ensures
        row_with(row_with(row, x, c), x, c) == row_with(row, x, c),
{
    let wide = padded(row, x);
    let k = chars_before(wide, x);
    lemma_chars_before_bounds(wide, x);
    let written = wide.update(k, c);
    let once = trimmed(written);
    let kept = once.len() as int;
    lemma_trimmed_keeps(written);
    assert(written.take(k) =~= wide.take(k));
    if kept > k {
        // The character stayed: the second write puts it where it stands.
        assert(once.take(k) =~= wide.take(k));
        assert(once[k] == c);
        lemma_byte_len_step(once, k);
        lemma_byte_len_prefix(once, k + 1, k + 1);
        if k > 0 {
            lemma_byte_len_step(once, k - 1);
        }
        lemma_chars_before(once, x, k);
        assert(padded(once, x) == once);
        assert(once.update(k, c) =~= once);
        lemma_trimmed(once, kept);
        assert(once.take(kept) =~= once);
    } else {
        // The character was cut off with the white space around it: so it is
        // again.
        assert(is_white_space(written[k]));
        assert(once =~= wide.take(kept));
        lemma_byte_len_prefix(wide, kept, k);
        lemma_write_past_end(once, x, c);
        let again = (once + spaces(x - byte_len(once))).push(c);
        assert forall|i: int| kept <= i < again.len() implies is_white_space(again[i]) by {
            if i < again.len() - 1 {
                assert(again[i] == ' ');
            }
        }
        if kept > 0 {
            assert(again[kept - 1] == once.last());
        }
        lemma_trimmed(again, kept);
        assert(again.take(kept) =~= once);
    }
}

/// A line that was written to holds no line break, where the line held none
/// before and the character written is none.
pub proof fn lemma_row_with_unbroken(row: Seq<char>, x: int, c: char)
    requires
        unbroken(row),
        c != '\n',
        row_accepts(row, x),
    ensures
        unbroken(row_with(row, x, c)),
        !ends_with_return(row_with(row, x, c)),
{
    let wide = padded(row, x);
    let k = chars_before(wide, x);
    lemma_chars_before_bounds(wide, x);
    let written = wide.update(k, c);
    lemma_trimmed_keeps(written);
    let once = trimmed(written);
    assert forall|i: int| 0 <= i < once.len() implies once[i] != '\n' by {
        assert(once[i] == written[i]);
        if i != k {
            assert(written[i] == wide[i]);
            if i < row.len() {
                assert(wide[i] == row[i]);
            } else {
                assert(wide[i] == ' ');
            }
        }
    }
}

/// Whether the text that a write leaves falls into the lines that it was
/// joined from, up to the line written to.
pub open spec fn reads_back(t: Seq<char>, x: int, y: int, c: char) -> bool {
    grown(lines_of(text_with(t, x, y, c)), y) == rows_with(t, x, y, c)
}

/// The text that a write leaves falls into the lines that it was joined
/// from, where the character written is no line break, no line that another
/// line follows ends with a carriage return, and the last line is not
/// empty. The line written to may end as it likes.
pub proof fn lemma_reads_back(t: Seq<char>, x: int, y: int, c: char)
    requires
        0 <= x,
        0 <= y,
        c != '\n',
        text_accepts(t, x, y),
        forall|j: int|
            0 <= j < lines_of(t).len() && j != y && (j + 1 < lines_of(t).len() || j < y) ==> !ends_with_return(
                #[trigger] lines_of(t)[j],
            ),
        y + 1 < lines_of(t).len() ==> lines_of(t).last().len() > 0,
    ensures
        reads_back(t, x, y, c),
{
    let lines = lines_of(t);
    let tall = grown(lines, y);
    let row = tall[y];
    let once = row_with(row, x, c);
    let rows = rows_with(t, x, y, c);
    assert(row == row_or_empty(lines, y));
    lemma_pieces_unbroken_each(t, true);
    assert forall|j: int| 0 <= j < tall.len() implies unbroken(#[trigger] tall[j]) by {
        if j < lines.len() {
            assert(tall[j] == lines[j]);
        }
    }
    lemma_row_with_unbroken(row, x, c);
    assert forall|j: int| 0 <= j < rows.len() implies unbroken(#[trigger] rows[j]) by {
        if j != y {
            assert(rows[j] == tall[j]);
        }
    }
    assert forall|j: int| 0 <= j < rows.len() - 1 implies !ends_with_return(#[trigger] rows[j]) by {
        if j != y {
            assert(rows[j] == tall[j]);
            if j < lines.len() {
                assert(tall[j] == lines[j]);
            }
        }
    }
    lemma_pieces_of_joined(rows, true);
    let read = lines_of(joined(rows));
    if rows.last().len() == 0 {
        assert(read == rows.drop_last());
        if y + 1 < rows.len() {
            assert(rows.last() == lines.last());
        }
        assert(y + 1 == rows.len());
        assert(rows.last() =~= Seq::<char>::empty());
        assert(grown(read, y) =~= rows);
    } else {
        assert(grown(read, y) =~= rows);
    }
}

/// Writing the same character to the same place of a text a second time
/// changes nothing, where the text takes the second write too and the first
/// write has left a text that falls into the lines it was joined from.
pub proof fn lemma_text_write_twice(t: Seq<char>, x: int, y: int, c: char)
    requires
        0 <= x,
        0 <= y,
        text_accepts(t, x, y),
        text_accepts(text_with(t, x, y, c), x, y),
        reads_back(t, x, y, c),
    ensures
        text_with(text_with(t, x, y, c), x, y, c) == text_with(t, x, y, c),
{
    let tall = grown(lines_of(t), y);
    let row = tall[y];
    let once = row_with(row, x, c);
    let rows = rows_with(t, x, y, c);
    let read = lines_of(text_with(t, x, y, c));
    assert(row == row_or_empty(lines_of(t), y));
    assert(grown(read, y)[y] == once);
    assert(row_or_empty(read, y) =~= once) by {
        if y >= read.len() {
            assert(once =~= Seq::<char>::empty());
        }
    }
    lemma_row_write_twice(row, x, c);
    assert(rows.update(y, once) =~= rows);
}

/// No line of a text of ASCII characters holds any other character.
pub proof fn lemma_lines_ascii(t: Seq<char>)
    requires
        is_ascii_chars(t),
    ensures
        forall|j: int| 0 <= j < lines_of(t).len() ==> is_ascii_chars(#[trigger] lines_of(t)[j]),
    decreases t.len(),
{
    let end = line_end(t);
    lemma_line_end_first(t);
    if t.len() > 0 && end < t.len() {
        let rest = t.skip(end + 1);
        assert forall|i: int| 0 <= i < rest.len() implies '\0' <= #[trigger] rest[i] <= '\u{7f}' by {
            assert(rest[i] == t[i + end + 1]);
        }
        lemma_lines_ascii(rest);
        let first = without_return(t.take(end));
        assert forall|i: int| 0 <= i < first.len() implies '\0' <= #[trigger] first[i] <= '\u{7f}' by {
            assert(first[i] == t[i]);
        }
        assert forall|j: int| 0 <= j < lines_of(t).len() implies is_ascii_chars(#[trigger] lines_of(t)[j]) by {
            if j > 0 {
                assert(lines_of(t)[j] == lines_of(rest)[j - 1]);
            }
        }
    }
}

/// A text of ASCII characters takes a write at every place.
pub proof fn lemma_ascii_text_accepts(t: Seq<char>, x: int, y: int)
    requires
        is_ascii_chars(t),
        0 <= x,
    ensures
        text_accepts(t, x, y),
{
    lemma_lines_ascii(t);
    lemma_write_ascii(row_or_empty(lines_of(t), y), x, ' ');
}

/// Whether `c` is an ASCII character.
pub open spec fn is_ascii_char(c: char) -> bool {
    '\0' <= c <= '\u{7f}'
}

/// Stacked rows of ASCII characters hold no other character.
pub proof fn lemma_stacked_ascii(rows: Seq<Seq<char>>)
    requires
        forall|j: int| 0 <= j < rows.len() ==> is_ascii_chars(#[trigger] rows[j]),
    ensures
        is_ascii_chars(stacked(rows)),
    decreases rows.len(),
{
    if rows.len() > 0 {
        let head = rows.drop_last();
        assert forall|j: int| 0 <= j < head.len() implies is_ascii_chars(#[trigger] head[j]) by {
            assert(head[j] == rows[j]);
        }
        lemma_stacked_ascii(head);
        assert(is_ascii_chars(rows.last()));
    }
}

/// A write of an ASCII character into a text of ASCII characters leaves a
/// text of ASCII characters.
pub proof fn lemma_text_with_ascii(t: Seq<char>, x: int, y: int, c: char)
    requires
        is_ascii_chars(t),
        is_ascii_char(c),
        0 <= x,
        0 <= y,
    ensures
        is_ascii_chars(text_with(t, x, y, c)),
{
    let lines = lines_of(t);
    let tall = grown(lines, y);
    lemma_lines_ascii(t);
    let row = tall[y];
    assert(is_ascii_chars(row)) by {
        if y < lines.len() {
            assert(row == lines[y]);
        }
    }
    let wide = padded(row, x);
    let written = wide.update(chars_before(wide, x), c);
    lemma_write_ascii(row, x, c);
    lemma_chars_before_bounds(wide, x);
    lemma_trimmed_keeps(written);
    let once = row_with(row, x, c);
    assert forall|i: int| 0 <= i < once.len() implies is_ascii_char(#[trigger] once[i]) by {
        assert(once[i] == written[i]);
        if i != chars_before(wide, x) {
            assert(written[i] == wide[i]);
            if i < row.len() {
                assert(wide[i] == row[i]);
            } else {
                assert(wide[i] == ' ');
            }
        }
    }
    let rows = tall.update(y, once);
    let head = rows.drop_last();
    assert forall|j: int| 0 <= j < rows.len() implies is_ascii_chars(#[trigger] rows[j]) by {
        if j != y {
            assert(rows[j] == tall[j]);
            if j < lines.len() {
                assert(tall[j] == lines[j]);
            }
        }
    }
    assert forall|j: int| 0 <= j < head.len() implies is_ascii_chars(#[trigger] head[j]) by {
        assert(head[j] == rows[j]);
    }
    lemma_stacked_ascii(head);
    assert(is_ascii_chars(rows.last()));
}

/// A text of ASCII characters takes every pattern of ASCII characters whose
/// strokes go to lines and columns below `usize::MAX`.
pub proof fn lemma_ascii_text_stampable(text: String, at: (usize, usize), strokes: Seq<Stroke<char>>)
    requires
        is_ascii_chars(text@),
        forall|k: int|
            0 <= k < strokes.len() ==> {
                &&& is_ascii_char((#[trigger] strokes[k]).glyph)
                &&& at.0 + strokes[k].dx < usize::MAX
                &&& at.1 + strokes[k].dy < usize::MAX
            },
    ensures
        stampable(text, at, strokes),
    decreases strokes.len(),
{
    if strokes.len() > 0 {
        let first = strokes[0];
        let rest = strokes.drop_first();
        let cell = ((at.0 + first.dx) as usize, (at.1 + first.dy) as usize);
        lemma_ascii_text_accepts(text@, cell.0 as int, cell.1 as int);
        assert forall|k: int| 0 <= k < rest.len() implies {
            &&& is_ascii_char((#[trigger] rest[k]).glyph)
            &&& at.0 + rest[k].dx < usize::MAX
            &&& at.1 + rest[k].dy < usize::MAX
        } by {
            assert(rest[k] == strokes[k + 1]);
        }
        assert forall|element: char, next: String|
            cloned(first.glyph, element) && #[trigger] text.wrote(cell, element, &next) implies stampable(
            next,
            at,
            rest,
        ) by {
            lemma_text_with_ascii(text@, cell.0 as int, cell.1 as int, element);
            lemma_ascii_text_stampable(next, at, rest);
        }
    }
}

/// What `to_string` returns for a text is the text: it is not an error, and
/// it holds the same characters.
pub proof fn lemma_text_to_string(text: String, r: Result<String, FromUtf8Error>)
    requires
        match r {
            Ok(s) => text.renders(encode_utf8(s@)),
            Err(_) => exists|b: Seq<u8>| #[trigger] text.renders(b) && !valid_utf8(b),
        },
    ensures
        r matches Ok(s) && s@ == text@,
{
    broadcast use {encode_utf8_valid_utf8, encode_utf8_decode_utf8};

    match r {
        Ok(s) => {
            assert(decode_utf8(encode_utf8(s@)) == s@);
            assert(decode_utf8(encode_utf8(text@)) == text@);
        },
        Err(_) => {
            let b = choose|b: Seq<u8>| #[trigger] text.renders(b) && !valid_utf8(b);
            assert(valid_utf8(encode_utf8(text@)));
        },
    }
}

} // verus!
