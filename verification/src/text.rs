//! Text as a buffer: lines of characters, with columns counted in bytes of
//! UTF-8 as `str` counts them.
use vstd::prelude::*;
use vstd::utf8::*;
use std::string::FromUtf8Error;
use crate::lines::{join_lines, joined, lines_of, split_lines};
use crate::nested::{nested_rows, row_or_empty};
use crate::text_lemmas::{
    lemma_byte_len_prefix, lemma_byte_len_spaces, lemma_byte_len_step, lemma_chars_before, lemma_write_past_end,
};
use crate::{DisplayGrid, GridWriter};

verus! {

/// The number of bytes that `c` takes in UTF-8.
pub open spec fn utf8_width(c: char) -> nat {
    if (c as u32) < 0x80 {
        1
    } else if (c as u32) < 0x800 {
        2
    } else if (c as u32) < 0x1_0000 {
        3
    } else {
        4
    }
}

/// The number of bytes that `s` takes in UTF-8.
pub open spec fn byte_len(s: Seq<char>) -> nat
    decreases s.len(),
{
    if s.len() == 0 {
        0
    } else {
        byte_len(s.drop_last()) + utf8_width(s.last())
    }
}

/// Whether `c` is white space: one of the characters that Unicode lists as
/// `White_Space`.
pub open spec fn is_white_space(c: char) -> bool {
    let u = c as u32;
    ||| 0x09 <= u <= 0x0D
    ||| u == 0x20
    ||| u == 0x85
    ||| u == 0xA0
    ||| u == 0x1680
    ||| 0x2000 <= u <= 0x200A
    ||| u == 0x2028
    ||| u == 0x2029
    ||| u == 0x202F
    ||| u == 0x205F
    ||| u == 0x3000
}

/// `line` without the white space at its end.
pub open spec fn trimmed(line: Seq<char>) -> Seq<char>
    decreases line.len(),
{
    if line.len() > 0 && is_white_space(line.last()) {
        trimmed(line.drop_last())
    } else {
        line
    }
}

/// The number of characters of `row` that start before byte `x`.
pub open spec fn chars_before(row: Seq<char>, x: int) -> int
    decreases row.len(),
{
    if row.len() == 0 {
        0
    } else if byte_len(row.drop_last()) < x {
        row.len() as int
    } else {
        chars_before(row.drop_last(), x)
    }
}

/// `n` spaces.
pub open spec fn spaces(n: int) -> Seq<char> {
    Seq::new(n as nat, |i: int| ' ')
}

/// `row`, followed by as many spaces as it takes to make it longer than `x` bytes.
pub open spec fn padded(row: Seq<char>, x: int) -> Seq<char> {
    if byte_len(row) > x {
        row
    } else {
        row + spaces(x + 1 - byte_len(row))
    }
}

/// Whether a character of a single byte starts at byte `x` of `row`.
pub open spec fn single_byte_at(row: Seq<char>, x: int) -> bool {
    let k = chars_before(row, x);
    k < row.len() && byte_len(row.take(k)) == x && utf8_width(row[k]) == 1
}

/// Whether `row` takes a write at byte `x`: once the row is padded with
/// spaces to reach it, byte `x` is a character of its own.
pub open spec fn row_accepts(row: Seq<char>, x: int) -> bool {
    single_byte_at(padded(row, x), x)
}

/// `row` once `c` was written at byte `x`: the row is padded with spaces to
/// reach byte `x`, the character that starts there is replaced by `c`, and
/// the white space at the end of the result is cut off.
pub open spec fn row_with(row: Seq<char>, x: int, c: char) -> Seq<char> {
    let wide = padded(row, x);
    trimmed(wide.update(chars_before(wide, x), c))
}

/// `rows`, followed by as many empty rows as it takes for row `y` to exist.
pub open spec fn grown(rows: Seq<Seq<char>>, y: int) -> Seq<Seq<char>> {
    if y < rows.len() {
        rows
    } else {
        rows + Seq::new((y + 1 - rows.len()) as nat, |j: int| Seq::<char>::empty())
    }
}

/// Whether the text `t` takes a write at byte `x` of line `y`.
pub open spec fn text_accepts(t: Seq<char>, x: int, y: int) -> bool {
    row_accepts(row_or_empty(lines_of(t), y), x)
}

/// The lines of the text `t` once `c` was written at byte `x` of line `y`:
/// the lines of `t`, with empty lines added until line `y` exists and with
/// line `y` rewritten.
pub open spec fn rows_with(t: Seq<char>, x: int, y: int, c: char) -> Seq<Seq<char>> {
    let rows = grown(lines_of(t), y);
    rows.update(y, row_with(rows[y], x, c))
}

/// The text `t` once `c` was written at byte `x` of line `y`: its lines
/// after the write, joined by line breaks.
pub open spec fn text_with(t: Seq<char>, x: int, y: int, c: char) -> Seq<char> {
    joined(rows_with(t, x, y, c))
}

/// Returns the number of bytes that `c` takes in UTF-8.
pub fn width_of(c: char) -> (width: usize)
    ensures
        width == utf8_width(c),
{
    let u = c as u32;
    if u < 0x80 {
        1
    } else if u < 0x800 {
        2
    } else if u < 0x1_0000 {
        3
    } else {
        4
    }
}

/// Returns whether `c` is white space.
pub fn white_space(c: char) -> (white: bool)
    ensures
        white == is_white_space(c),
{
    let u = c as u32;
    (0x09 <= u && u <= 0x0D) || u == 0x20 || u == 0x85 || u == 0xA0 || u == 0x1680 || (0x2000 <= u && u <= 0x200A)
        || u == 0x2028 || u == 0x2029 || u == 0x202F || u == 0x205F || u == 0x3000
}

/// Finds byte `x` in `row`. Returns the number of the character that starts
/// at byte `x`, or, where the row ends before byte `x`, the length of the
/// row, and with it the number of bytes left from there to byte `x`. Returns
/// `None` where byte `x` lies inside a character.
pub fn locate(row: &Vec<char>, x: usize) -> (found: Option<(usize, usize)>)
    ensures
        match found {
            Some((k, rest)) => {
                &&& k <= row@.len()
                &&& byte_len(row@.take(k as int)) + rest == x
                &&& rest > 0 ==> k == row@.len()
            },
            None => exists|k: int|
                0 <= k < row@.len() && byte_len(#[trigger] row@.take(k)) < x < byte_len(row@.take(k + 1)),
        },
{
    let mut k: usize = 0;
    let mut rest: usize = x;
    assert(row@.take(0) =~= Seq::<char>::empty());
    while k < row.len() && rest > 0
        invariant
            k <= row.len(),
            byte_len(row@.take(k as int)) + rest == x,
        decreases row.len() - k,
    {
        let width = width_of(row[k]);
        proof {
            lemma_byte_len_step(row@, k as int);
        }
        if width > rest {
            return None;
        }
        rest -= width;
        k += 1;
    }
    Some((k, rest))
}

/// Returns whether `row` takes a write at byte `x`.
pub fn row_takes(row: &Vec<char>, x: usize) -> (takes: bool)
    ensures
        takes == row_accepts(row@, x as int),
{
    match locate(row, x) {
        None => {
            proof {
                let k = choose|k: int|
                    0 <= k < row@.len() && byte_len(#[trigger] row@.take(k)) < x < byte_len(row@.take(k + 1));
                lemma_byte_len_prefix(row@, k + 1, k + 1);
                lemma_chars_before(row@, x as int, k + 1);
            }
            false
        },
        Some((k, rest)) => {
            if k == row.len() {
                proof {
                    assert(row@.take(k as int) =~= row@);
                    lemma_write_past_end(row@, x as int, ' ');
                }
                true
            } else {
                proof {
                    lemma_byte_len_step(row@, k as int);
                    lemma_byte_len_prefix(row@, k + 1, k + 1);
                    if k > 0 {
                        lemma_byte_len_step(row@, k - 1);
                    }
                    lemma_chars_before(row@, x as int, k as int);
                }
                width_of(row[k]) == 1
            }
        },
    }
}

/// Writes `c` at byte `x` of `row`.
pub fn write_in_row(row: &mut Vec<char>, x: usize, c: char)
    requires
        row_accepts(old(row)@, x as int),
    ensures
        final(row)@ == row_with(old(row)@, x as int, c),
{
    let ghost line = row@;
    let ghost wide = padded(line, x as int);
    let (k, rest) = match locate(row, x) {
        Some(place) => place,
        None => {
            // The row takes the write, so byte `x` lies inside no character.
            proof {
                let k = choose|k: int|
                    0 <= k < line.len() && byte_len(#[trigger] line.take(k)) < x < byte_len(line.take(k + 1));
                lemma_byte_len_prefix(line, k + 1, k + 1);
                lemma_chars_before(line, x as int, k + 1);
                assert(false);
            }
            (0, 0)
        },
    };
    if k == row.len() {
        // Past the end: spaces up to the column, then the character.
        let mut rest = rest;
        assert(line.take(k as int) =~= line);
        assert(row@ =~= line + spaces(0));
        while rest > 0
            invariant
                line.len() <= row.len(),
                row@ == line + spaces(row.len() - line.len()),
                byte_len(row@) + rest == x,
            decreases rest,
        {
            let ghost before = row@;
            row.push(' ');
            assert(row@.drop_last() =~= before);
            assert(row@ =~= line + spaces(row.len() - line.len()));
            rest -= 1;
        }
        proof {
            lemma_byte_len_spaces(line, (row.len() - line.len()) as nat);
            lemma_write_past_end(line, x as int, c);
        }
        row.push(c);
    } else {
        proof {
            lemma_byte_len_step(line, k as int);
            lemma_byte_len_prefix(line, k + 1, k + 1);
            if k > 0 {
                lemma_byte_len_step(line, k - 1);
            }
            lemma_chars_before(line, x as int, k as int);
        }
        row[k] = c;
    }
    let ghost written = row@;
    assert(written == wide.update(chars_before(wide, x as int), c));
    while row.len() > 0 && white_space(row[row.len() - 1])
        invariant
            trimmed(row@) == trimmed(written),
        decreases row.len(),
    {
        row.pop();
    }
}

/// Returns whether `text` takes a write at `position`.
pub fn text_takes(text: &str, position: (usize, usize)) -> (takes: bool)
    ensures
        takes == (position.0 < usize::MAX && position.1 < usize::MAX && text_accepts(
            text@,
            position.0 as int,
            position.1 as int,
        )),
{
    let (x, y) = position;
    if x == usize::MAX || y == usize::MAX {
        return false;
    }
    let rows = split_lines(text);
    if y < rows.len() {
        assert(nested_rows(rows)[y as int] == rows@[y as int]@);
        row_takes(&rows[y], x)
    } else {
        let empty: Vec<char> = Vec::new();
        assert(empty@ =~= row_or_empty(lines_of(text@), y as int));
        row_takes(&empty, x)
    }
}

impl GridWriter for String {
    type Element = char;

    /// A text takes a write at byte `x` of line `y` where that byte, once the
    /// line is padded to reach it, is a character of its own, and where the
    /// number of lines and the length of the line fit in `usize`.
    open spec fn accepts(&self, position: (usize, usize)) -> bool {
        position.0 < usize::MAX && position.1 < usize::MAX && text_accepts(
            self@,
            position.0 as int,
            position.1 as int,
        )
    }

    open spec fn wrote(&self, position: (usize, usize), element: char, after: &Self) -> bool {
        after@ == text_with(self@, position.0 as int, position.1 as int, element)
    }

    /// Sets the character at byte `x` of line `y`, growing the text to reach
    /// it, and cuts the white space off the end of that line.
    fn set(&mut self, position: (usize, usize), element: char) {
        let (x, y) = position;
        let mut rows = split_lines(self.as_str());
        let ghost lines = nested_rows(rows);
        while rows.len() <= y
            invariant
                y < usize::MAX,
                lines.len() <= rows.len(),
                rows.len() <= lines.len() || rows.len() <= y + 1,
                nested_rows(rows) == lines + Seq::new((rows.len() - lines.len()) as nat, |j: int| Seq::<char>::empty()),
            decreases y + 1 - rows.len(),
        {
            let ghost before = nested_rows(rows);
            rows.push(Vec::new());
            assert(nested_rows(rows) =~= before.push(Seq::<char>::empty()));
            assert(nested_rows(rows) =~= lines + Seq::new(
                (rows.len() - lines.len()) as nat,
                |j: int| Seq::<char>::empty(),
            ));
        }
        let ghost tall = nested_rows(rows);
        assert(tall =~= grown(lines, y as int));
        assert(tall[y as int] =~= row_or_empty(lines, y as int));
        write_in_row(&mut rows[y], x, element);
        assert(nested_rows(rows) =~= tall.update(y as int, row_with(tall[y as int], x as int, element)));
        *self = join_lines(&rows);
    }
}

impl DisplayGrid for String {
    /// A text renders as itself, in UTF-8.
    open spec fn renders(&self, bytes: Seq<u8>) -> bool {
        bytes == encode_utf8(self@)
    }

    /// Returns a copy of the text.
    fn to_string(&self) -> (r: Result<String, FromUtf8Error>) {
        Ok(self.clone())
    }

    /// Appends the text to `stream` as it is: no line break is added.
    fn write_to(&self, stream: &mut Vec<u8>)
        ensures
            final(stream)@ == old(stream)@ + encode_utf8(self@),
    {
        stream.extend_from_slice(self.as_str().as_bytes());
        assert(stream@ =~= old(stream)@ + encode_utf8(self@));
        assert(self.renders(encode_utf8(self@)));
    }
}

} // verus!
