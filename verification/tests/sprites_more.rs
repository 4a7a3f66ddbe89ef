use grux::art::{BorderRect, FillRect, Line, Sprite};
use grux::DisplayGrid;

const PALETTE: [char; 8] = ['╔', '═', '╗', '║', '║', '╚', '═', '╝'];

#[test]
fn sprites_border_then_fill_end_to_end() {
    let mut grid = [[' '; 4]; 4];

    let rect = BorderRect::new(4, 4, PALETTE);
    rect.draw_to((0, 0), &mut grid);
    let rect = FillRect::new(2, 2, '█');
    rect.draw_to((1, 1), &mut grid);

    assert_eq!(grid.to_string().unwrap(), "╔══╗\n║██║\n║██║\n╚══╝\n");
}

#[test]
fn sprites_lines_make_a_frame() {
    let mut grid = [[' '; 3]; 4];

    let line = Line::horizontal(3, '═');
    line.draw_to((0, 0), &mut grid);
    line.draw_to((0, 3), &mut grid);
    let line = Line::vertical(2, '║');
    line.draw_to((0, 1), &mut grid);
    line.draw_to((2, 1), &mut grid);

    assert_eq!(grid, [
        ['═', '═', '═'],
        ['║', ' ', '║'],
        ['║', ' ', '║'],
        ['═', '═', '═'],
    ]);
}

#[test]
fn sprite_extent_is_fixed_by_its_configuration() {
    let line = Line::horizontal(5, 'x');
    let column = Line::vertical(4, 'x');
    let fill = FillRect::new(2, 3, 'x');
    let border = BorderRect::new(6, 2, PALETTE);
    let mut grid: Vec<Vec<char>> = Vec::new();

    assert_eq!((line.width(), line.height()), (5, 1));
    assert_eq!((column.width(), column.height()), (1, 4));
    assert_eq!((fill.width(), fill.height()), (2, 3));
    assert_eq!((border.width(), border.height()), (6, 2));

    line.draw_to((1, 1), &mut grid);
    column.draw_to((0, 0), &mut grid);
    fill.draw_to((3, 3), &mut grid);
    border.draw_to((2, 2), &mut grid);

    assert_eq!((line.width(), line.height()), (5, 1));
    assert_eq!((column.width(), column.height()), (1, 4));
    assert_eq!((fill.width(), fill.height()), (2, 3));
    assert_eq!((border.width(), border.height()), (6, 2));
}

#[test]
fn sprite_border_of_two_by_two_is_four_corners() {
    let mut grid = [['.'; 2]; 2];

    let rect = BorderRect::new(2, 2, PALETTE);
    rect.draw_to((0, 0), &mut grid);

    assert_eq!(grid, [['╔', '╗'], ['╚', '╝']]);
    assert_eq!((rect.width(), rect.height()), (2, 2));
}

#[test]
fn sprite_border_takes_any_palette() {
    let mut grid = [[0u8; 4]; 3];

    let rect = BorderRect::new(4, 3, [1, 2, 3, 4, 5, 6, 7, 8]);
    rect.draw_to((0, 0), &mut grid);

    assert_eq!(grid, [[1, 2, 2, 3], [4, 0, 0, 5], [6, 7, 7, 8]]);
}

#[test]
fn sprite_border_leaves_the_inside_untouched() {
    let mut grid = [['.'; 5]; 4];

    let rect = BorderRect::new(4, 3, PALETTE);
    rect.draw_to((1, 1), &mut grid);

    assert_eq!(grid, [
        ['.', '.', '.', '.', '.'],
        ['.', '╔', '═', '═', '╗'],
        ['.', '║', '.', '.', '║'],
        ['.', '╚', '═', '═', '╝'],
    ]);
}

#[test]
fn sprite_without_cells_draws_nothing() {
    let mut grid = [['.'; 2]; 2];

    Line::horizontal(0, 'x').draw_to((5, 5), &mut grid);
    Line::vertical(0, 'x').draw_to((5, 5), &mut grid);
    FillRect::new(0, 3, 'x').draw_to((5, 5), &mut grid);
    FillRect::new(3, 0, 'x').draw_to((5, 5), &mut grid);

    assert_eq!(grid, [['.'; 2]; 2]);
}

#[test]
fn sprite_fill_at_an_offset() {
    let mut grid = [[' '; 4]; 4];

    let rect = FillRect::new(2, 3, '█');
    rect.draw_to((2, 1), &mut grid);

    assert_eq!(grid, [
        [' ', ' ', ' ', ' '],
        [' ', ' ', '█', '█'],
        [' ', ' ', '█', '█'],
        [' ', ' ', '█', '█'],
    ]);
}

#[test]
fn sprites_grow_a_nested_buffer() {
    let mut grid: Vec<Vec<char>> = Vec::new();

    FillRect::new(2, 2, '#').draw_to((1, 1), &mut grid);

    assert_eq!(grid, vec![vec![], vec!['\0', '#', '#'], vec!['\0', '#', '#']]);
}

#[test]
fn sprites_grow_a_text() {
    let mut grid = String::new();

    BorderRect::new(3, 3, ['+', '-', '+', '|', '|', '+', '-', '+']).draw_to((1, 0), &mut grid);
    Line::horizontal(2, '=').draw_to((0, 3), &mut grid);

    assert_eq!(grid, " +-+\n | |\n +-+\n==");
}

#[test]
fn sprites_clone_their_elements() {
    let mut grid = vec![vec![String::from("a")]];

    Line::vertical(2, String::from("xy")).draw_to((0, 0), &mut grid);

    assert_eq!(grid, vec![vec![String::from("xy")], vec![String::from("xy")]]);
}
