use grux::{DisplayGrid, GridWriter};

#[test]
fn nested_write_below_the_end_adds_empty_rows() {
    let mut grid = vec![vec![1, 2]];

    grid.set((0, 3), 9);

    assert_eq!(grid.len(), 4);
    assert_eq!(grid, vec![vec![1, 2], vec![], vec![], vec![9]]);
}

#[test]
fn nested_write_beyond_a_row_pads_with_defaults() {
    let mut grid = vec![vec![1, 2], vec![3]];

    grid.set((4, 1), 9);

    assert_eq!(grid, vec![vec![1, 2], vec![3, 0, 0, 0, 9]]);
}

#[test]
fn nested_write_right_at_the_end_of_a_row_appends() {
    let mut grid = vec![vec![1, 2]];

    grid.set((2, 0), 3);

    assert_eq!(grid, vec![vec![1, 2, 3]]);
}

#[test]
fn nested_write_inside_keeps_the_shape() {
    let mut grid = vec![vec![1, 2, 3], vec![], vec![4]];

    grid.set((0, 0), 7);

    assert_eq!(grid, vec![vec![7, 2, 3], vec![], vec![4]]);
}

#[test]
fn nested_pads_strings_with_empty_strings() {
    let mut grid: Vec<Vec<String>> = Vec::new();

    grid.set((2, 1), String::from("x"));

    assert_eq!(grid, vec![vec![], vec![String::new(), String::new(), String::from("x")]]);
    assert_eq!(grid.to_string().unwrap(), "\nx\n");
}

#[test]
fn nested_write_twice_is_write_once() {
    let mut once: Vec<Vec<char>> = vec![vec!['a']];
    once.set((3, 2), 'z');
    let mut twice = once.clone();
    twice.set((3, 2), 'z');

    assert_eq!(twice, once);
    assert_eq!(once, vec![vec!['a'], vec![], vec!['\0', '\0', '\0', 'z']]);
}

#[test]
fn nested_grown_buffer_end_to_end() {
    let mut grid: Vec<Vec<i32>> = Vec::new();

    grid.set((3, 3), 9);

    assert_eq!(grid, vec![vec![], vec![], vec![], vec![0, 0, 0, 9]]);
    assert_eq!(grid.to_string().unwrap(), "\n\n\n0009\n");
}

#[test]
fn nested_empty_buffer_renders_as_nothing() {
    let grid: Vec<Vec<u8>> = Vec::new();
    let mut stream = Vec::new();

    grid.write_to(&mut stream);

    assert_eq!(stream, b"");
    assert_eq!(grid.to_string().unwrap(), "");
}

#[test]
fn nested_ragged_rows_render_as_they_are() {
    let grid = vec![vec!['a', 'b', 'c'], vec![], vec!['d']];

    assert_eq!(grid.to_string().unwrap(), "abc\n\nd\n");
}
