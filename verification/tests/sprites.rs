use grux::art::{BorderRect, FillRect, Line, Sprite};

#[test]
fn sprite_line_horizontal() {
    let mut grid = [[' '; 3]; 3];

    let line = Line::horizontal(3, '═');
    line.draw_to((0, 0), &mut grid);

    assert_eq!(grid, [
        ['═', '═', '═'],
        [' ', ' ', ' '],
        [' ', ' ', ' '],
    ]);

    assert_eq!(line.width(), 3);
    assert_eq!(line.height(), 1);
}

#[test]
fn sprite_line_vertical() {
    let mut grid = [[' '; 3]; 3];

    let line = Line::vertical(3, '║');
    line.draw_to((0, 0), &mut grid);

    assert_eq!(grid, [
        ['║', ' ', ' '],
        ['║', ' ', ' '],
        ['║', ' ', ' '],
    ]);

    assert_eq!(line.width(), 1);
    assert_eq!(line.height(), 3);
}

#[test]
fn sprite_fill_rect() {
    let mut grid = [[' '; 3]; 3];

    let rect = FillRect::new(3, 3, '█');
    rect.draw_to((0, 0), &mut grid);

    assert_eq!(grid, [
        ['█', '█', '█'],
        ['█', '█', '█'],
        ['█', '█', '█'],
    ]);

    assert_eq!(rect.width(), 3);
    assert_eq!(rect.height(), 3);
}

#[test]
fn sprite_border_rect() {
    let mut grid = [[' '; 3]; 3];

    let rect = BorderRect::new(3, 3, ['╔', '═', '╗', '║', '║', '╚', '═', '╝']);
    rect.draw_to((0, 0), &mut grid);

    assert_eq!(grid, [
        ['╔', '═', '╗'],
        ['║', ' ', '║'],
        ['╚', '═', '╝'],
    ]);

    assert_eq!(rect.width(), 3);
    assert_eq!(rect.height(), 3);
}
