use grux::render::{display_row, layout, write_layout};
use grux::DisplayGrid;

struct Broken;

impl DisplayGrid for Broken {
    fn write_to(&self, stream: &mut Vec<u8>) {
        stream.push(b'a');
        stream.push(0xff);
    }
}

struct Words;

impl DisplayGrid for Words {
    fn write_to(&self, stream: &mut Vec<u8>) {
        stream.extend_from_slice("grüße\n".as_bytes());
    }
}

#[test]
fn default_to_string_fails_on_bytes_that_are_no_text() {
    let result = Broken.to_string();

    assert!(result.is_err());
    assert_eq!(result.unwrap_err().into_bytes(), vec![b'a', 0xff]);
}

#[test]
fn default_to_string_decodes_what_was_written() {
    assert_eq!(Words.to_string().unwrap(), "grüße\n");
}

#[test]
fn display_row_gives_each_element_as_text() {
    let texts = display_row(&[1, -20, 300]);

    assert_eq!(texts, vec![String::from("1"), String::from("-20"), String::from("300")]);
    assert_eq!(display_row::<char>(&[]), Vec::<String>::new());
}

#[test]
fn layout_puts_a_line_break_after_each_row() {
    let texts = vec![
        vec![String::from("ab"), String::from("c")],
        vec![],
        vec![String::from(""), String::from("d")],
    ];

    assert_eq!(layout(&texts), "abc\n\nd\n");
    assert_eq!(layout(&Vec::new()), "");
}

#[test]
fn write_layout_appends_the_bytes_of_the_layout() {
    let texts = vec![vec![String::from("é")], vec![String::from("z")]];
    let mut stream = vec![1u8];

    write_layout(&texts, &mut stream);

    assert_eq!(stream, vec![1u8, 0xc3, 0xa9, b'\n', b'z', b'\n']);
}

#[test]
fn rendering_splits_into_one_piece_for_each_row() {
    let grid = [['a', 'b'], ['c', 'd'], ['e', 'f']];

    let text = grid.to_string().unwrap();
    let pieces: Vec<&str> = text.split_terminator('\n').collect();

    assert_eq!(pieces, vec!["ab", "cd", "ef"]);
}

#[test]
fn rendering_of_an_element_with_a_line_break_has_more_pieces_than_rows() {
    let grid = [["a\nb"]];

    let text = grid.to_string().unwrap();

    assert_eq!(text, "a\nb\n");
    assert_eq!(text.split_terminator('\n').count(), 2);
}
