use grux::{DisplayGrid, GridWriter};

#[test]
fn fixed_box_drawn_cell_by_cell() {
    let mut grid = [[' '; 3]; 3];

    grid.set((0, 0), '╔');
    grid.set((1, 0), '═');
    grid.set((2, 0), '╗');
    grid.set((0, 1), '║');
    grid.set((2, 1), '║');
    grid.set((0, 2), '╚');
    grid.set((1, 2), '═');
    grid.set((2, 2), '╝');

    assert_eq!(grid.to_string().unwrap(), "╔═╗\n║ ║\n╚═╝\n");
}

#[test]
fn fixed_write_changes_one_cell_of_the_rendering() {
    let mut grid = [["a", "b", "c"], ["d", "e", "f"]];

    grid.set((2, 1), "xyz");

    assert_eq!(grid, [["a", "b", "c"], ["d", "e", "xyz"]]);
    assert_eq!(grid.to_string().unwrap(), "abc\ndexyz\n");
}

#[test]
fn fixed_write_twice_is_write_once() {
    let mut once = [[0u8; 4]; 2];
    once.set((3, 1), 7);
    let mut twice = once;
    twice.set((3, 1), 7);

    assert_eq!(twice, once);
}

#[test]
fn fixed_x_is_the_column_and_y_the_row() {
    let mut grid = [[0; 3]; 2];

    grid.set((2, 0), 5);

    assert_eq!(grid, [[0, 0, 5], [0, 0, 0]]);
}

#[test]
fn fixed_write_to_appends_to_the_stream() {
    let grid = [[1, 2], [3, 4]];
    let mut stream = vec![b'>'];

    grid.write_to(&mut stream);
    grid.write_to(&mut stream);

    assert_eq!(stream, b">12\n34\n12\n34\n");
}

#[test]
fn fixed_without_rows_renders_as_nothing() {
    let grid: [[char; 3]; 0] = [];

    assert_eq!(grid.to_string().unwrap(), "");
}

#[test]
fn fixed_without_columns_renders_as_line_breaks() {
    let grid: [[char; 0]; 2] = [[], []];

    assert_eq!(grid.to_string().unwrap(), "\n\n");
}

#[test]
fn fixed_renders_elements_of_any_width() {
    let grid = [[-1, 10], [200, 3]];

    assert_eq!(grid.to_string().unwrap(), "-110\n2003\n");
}
