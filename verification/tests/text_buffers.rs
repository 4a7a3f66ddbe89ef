use grux::lines::{join_lines, split_lines};
use grux::text::{locate, row_takes, text_takes, white_space, width_of, write_in_row};
use grux::{DisplayGrid, GridWriter};

/// The same write, made with the string functions of the standard library.
fn set_with_std(text: &mut String, position: (usize, usize), element: char) {
    let (x, y) = position;
    let mut rows: Vec<&str> = text.lines().collect();
    while rows.len() <= y {
        rows.push("");
    }
    let mut row = rows[y].to_string();
    while row.len() <= x {
        row.push(' ');
    }
    row.replace_range(x..=x, &element.to_string());
    rows[y] = row.trim_end();
    *text = rows.join("\n");
}

fn chars(text: &str) -> Vec<char> {
    text.chars().collect()
}

fn samples() -> Vec<&'static str> {
    vec![
        "",
        "\n",
        "\n\n",
        "a",
        "a\n",
        "a\n\n",
        "abc\ndef",
        "012\n345\n678\n",
        "a\r\nb\r\n",
        "a\r\r\nb",
        "tail\r",
        "\r",
        "\r\n",
        "x \t\ny  ",
        "héllo\nwörld\n",
        "日本語\nab",
        "a\u{a0}\u{2003}\nb",
        "  \n  \n",
        "one\n\n\nfour",
    ]
}

#[test]
fn white_space_is_what_std_calls_whitespace() {
    let mut c = '\0';
    loop {
        assert_eq!(white_space(c), c.is_whitespace(), "{:?}", c);
        if c == char::MAX {
            break;
        }
        c = char::from_u32(c as u32 + 1).unwrap_or('\u{e000}');
    }
}

#[test]
fn width_of_is_the_length_in_utf8() {
    let mut c = '\0';
    loop {
        assert_eq!(width_of(c), c.len_utf8(), "{:?}", c);
        if c == char::MAX {
            break;
        }
        c = char::from_u32(c as u32 + 1).unwrap_or('\u{e000}');
    }
    assert_eq!(width_of('a'), 1);
    assert_eq!(width_of('é'), 2);
    assert_eq!(width_of('日'), 3);
    assert_eq!(width_of('😀'), 4);
}

#[test]
fn split_lines_gives_the_lines_of_std() {
    for text in samples() {
        let expected: Vec<Vec<char>> = text.lines().map(chars).collect();
        assert_eq!(split_lines(text), expected, "{:?}", text);
    }
}

#[test]
fn split_lines_on_given_texts() {
    assert_eq!(split_lines(""), Vec::<Vec<char>>::new());
    assert_eq!(split_lines("a\nb\n"), vec![vec!['a'], vec!['b']]);
    assert_eq!(split_lines("a\n\nb"), vec![vec!['a'], vec![], vec!['b']]);
    assert_eq!(split_lines("a\r\nb\r"), vec![vec!['a'], vec!['b', '\r']]);
    assert_eq!(split_lines("a\r\r\n"), vec![vec!['a', '\r']]);
    assert_eq!(split_lines("\n"), vec![Vec::<char>::new()]);
}

#[test]
fn join_lines_puts_line_breaks_between_rows() {
    assert_eq!(join_lines(&Vec::new()), "");
    assert_eq!(join_lines(&vec![chars("ab")]), "ab");
    assert_eq!(join_lines(&vec![chars("ab"), chars(""), chars("é")]), "ab\n\né");
    assert_eq!(join_lines(&vec![chars(""), chars("")]), "\n");
    for text in samples() {
        let rows: Vec<&str> = text.lines().collect();
        assert_eq!(join_lines(&split_lines(text)), rows.join("\n"), "{:?}", text);
    }
}

#[test]
fn locate_counts_columns_in_bytes() {
    let row = chars("aé日b");

    assert_eq!(locate(&row, 0), Some((0, 0)));
    assert_eq!(locate(&row, 1), Some((1, 0)));
    assert_eq!(locate(&row, 2), None);
    assert_eq!(locate(&row, 3), Some((2, 0)));
    assert_eq!(locate(&row, 4), None);
    assert_eq!(locate(&row, 5), None);
    assert_eq!(locate(&row, 6), Some((3, 0)));
    assert_eq!(locate(&row, 7), Some((4, 0)));
    assert_eq!(locate(&row, 10), Some((4, 3)));
    assert_eq!(locate(&Vec::new(), 0), Some((0, 0)));
    assert_eq!(locate(&Vec::new(), 2), Some((0, 2)));
}

#[test]
fn row_takes_a_write_on_a_character_of_one_byte_or_past_the_end() {
    let row = chars("aé日b");

    assert!(row_takes(&row, 0));
    assert!(!row_takes(&row, 1));
    assert!(!row_takes(&row, 2));
    assert!(!row_takes(&row, 3));
    assert!(!row_takes(&row, 4));
    assert!(!row_takes(&row, 5));
    assert!(row_takes(&row, 6));
    assert!(row_takes(&row, 7));
    assert!(row_takes(&row, 100));
}

#[test]
fn write_in_row_pads_replaces_and_trims() {
    let mut row = chars("ab");
    write_in_row(&mut row, 4, 'x');
    assert_eq!(row, chars("ab  x"));

    let mut row = chars("abc");
    write_in_row(&mut row, 1, 'x');
    assert_eq!(row, chars("axc"));

    let mut row = chars("abc");
    write_in_row(&mut row, 2, ' ');
    assert_eq!(row, chars("ab"));

    let mut row = chars("a  d");
    write_in_row(&mut row, 3, '\t');
    assert_eq!(row, chars("a"));

    let mut row = chars("ab");
    write_in_row(&mut row, 5, ' ');
    assert_eq!(row, chars("ab"));

    let mut row = chars("");
    write_in_row(&mut row, 0, ' ');
    assert_eq!(row, chars(""));

    let mut row = chars("aéb");
    write_in_row(&mut row, 3, '日');
    assert_eq!(row, chars("aé日"));

    let mut row = chars("ab");
    write_in_row(&mut row, 2, 'c');
    assert_eq!(row, chars("abc"));
}

#[test]
fn text_write_is_the_write_of_std() {
    let elements = ['9', ' ', 'é', '日', '\t', '\r', '\n', '\u{a0}', '😀'];
    let mut compared = 0;
    for text in samples() {
        for y in 0..5 {
            for x in 0..9 {
                if !text_takes(text, (x, y)) {
                    continue;
                }
                for element in elements {
                    let mut expected = String::from(text);
                    set_with_std(&mut expected, (x, y), element);
                    let mut grid = String::from(text);
                    grid.set((x, y), element);
                    assert_eq!(grid, expected, "{:?} at ({}, {}) with {:?}", text, x, y, element);
                    compared += 1;
                }
            }
        }
    }
    assert!(compared > 5000);
}

#[test]
fn text_takes_a_write_where_std_replaces_one_byte() {
    for text in samples() {
        for y in 0..5 {
            for x in 0..9 {
                let mut row = String::from(text.lines().nth(y).unwrap_or(""));
                while row.len() <= x {
                    row.push(' ');
                }
                let expected = row.is_char_boundary(x) && row.is_char_boundary(x + 1);
                assert_eq!(text_takes(text, (x, y)), expected, "{:?} at ({}, {})", text, x, y);
            }
        }
    }
}

#[test]
fn text_takes_no_write_inside_a_character() {
    assert!(text_takes("héllo", (0, 0)));
    assert!(!text_takes("héllo", (1, 0)));
    assert!(!text_takes("héllo", (2, 0)));
    assert!(text_takes("héllo", (3, 0)));
    assert!(text_takes("héllo", (6, 0)));
    assert!(text_takes("héllo", (1, 1)));
    assert!(text_takes("", (7, 7)));
    assert!(!text_takes("", (usize::MAX, 0)));
    assert!(!text_takes("", (0, usize::MAX)));
}

#[test]
fn text_write_counts_columns_in_bytes() {
    let mut grid = String::from("héllo");

    grid.set((3, 0), 'L');

    assert_eq!(grid, "héLlo");
}

#[test]
fn text_write_end_to_end() {
    let mut grid = String::from("012\n345\n678\n");

    grid.set((1, 1), '9');

    assert_eq!(grid, "012\n395\n678");
}

#[test]
fn text_write_grows_lines_and_columns() {
    let mut grid = String::from("ab");

    grid.set((4, 2), 'x');

    assert_eq!(grid, "ab\n\n    x");
}

#[test]
fn text_write_of_a_space_at_the_end_shortens_the_line() {
    let mut grid = String::from("ab c\nd");

    grid.set((3, 0), ' ');

    assert_eq!(grid, "ab\nd");
}

#[test]
fn text_write_drops_carriage_returns_before_line_breaks() {
    let mut grid = String::from("a\r\nb\r\n");

    grid.set((0, 1), 'c');

    assert_eq!(grid, "a\nc");
}

#[test]
fn text_write_twice_is_write_once() {
    for text in ["", "012\n345\n678\n", "a\r\nb", "x\n\ny", "héllo\nab"] {
        let mut once = String::from(text);
        once.set((4, 1), 'z');
        let mut twice = once.clone();
        twice.set((4, 1), 'z');
        assert_eq!(twice, once, "{:?}", text);
    }
}

#[test]
fn text_write_twice_differs_where_an_empty_last_line_is_lost() {
    let mut once = String::from("a\n\n");
    once.set((0, 0), 'b');
    let mut twice = once.clone();
    twice.set((0, 0), 'b');

    assert_eq!(once, "b\n");
    assert_eq!(twice, "b");
}

#[test]
fn text_renders_as_it_is() {
    let grid = String::from("no line break at the end");
    let mut stream = vec![b'#'];

    grid.write_to(&mut stream);

    assert_eq!(stream, b"#no line break at the end");
    assert_eq!(DisplayGrid::to_string(&grid).unwrap(), grid);
}
