use crossword_puz::{
    number_grid, starts_in_direction, ClueStart, CrosswordCell, CrosswordGrid, Direction,
};

fn numbered_grid(rows: &[&str]) -> CrosswordGrid {
    let mut cells = Vec::new();
    for row in rows {
        for c in row.chars() {
            cells.push(if c == '.' { CrosswordCell::Wall } else { CrosswordCell::Letter(c) });
        }
    }
    CrosswordGrid { width: rows[0].chars().count() as u8, height: rows.len() as u8, cells }
}

fn start(number: u16, row: u8, col: u8, direction: Direction) -> ClueStart {
    ClueStart { number, row, col, direction }
}

#[test]
fn numbers_a_small_grid() {
    let grid = numbered_grid(&["ABC", "D.E", "FGH"]);
    assert_eq!(
        number_grid(&grid),
        vec![
            start(1, 0, 0, Direction::Across),
            start(1, 0, 0, Direction::Down),
            start(2, 0, 2, Direction::Down),
            start(3, 2, 0, Direction::Across),
        ]
    );
}

#[test]
fn numbers_a_five_by_five_grid() {
    let grid = numbered_grid(&["ABC..", "DEFG.", "HIJKL", ".MNOP", "..QRS"]);
    let starts = number_grid(&grid);
    assert_eq!(
        starts,
        vec![
            start(1, 0, 0, Direction::Across),
            start(1, 0, 0, Direction::Down),
            start(2, 0, 1, Direction::Down),
            start(3, 0, 2, Direction::Down),
            start(4, 1, 0, Direction::Across),
            start(5, 1, 3, Direction::Down),
            start(6, 2, 0, Direction::Across),
            start(7, 2, 4, Direction::Down),
            start(8, 3, 1, Direction::Across),
            start(9, 4, 2, Direction::Across),
        ]
    );
    let across: Vec<u16> =
        starts_in_direction(&starts, Direction::Across).iter().map(|s| s.number).collect();
    let down: Vec<u16> =
        starts_in_direction(&starts, Direction::Down).iter().map(|s| s.number).collect();
    assert_eq!(across, vec![1, 4, 6, 8, 9]);
    assert_eq!(down, vec![1, 2, 3, 5, 7]);
}

#[test]
fn numbers_increase_in_row_major_order() {
    let grid = numbered_grid(&["ABC..", "DEFG.", "HIJKL", ".MNOP", "..QRS"]);
    let starts = number_grid(&grid);
    for pair in starts.windows(2) {
        let (a, b) = (pair[0], pair[1]);
        if (a.row, a.col) == (b.row, b.col) {
            assert_eq!(a.number, b.number);
            assert_eq!(a.direction, Direction::Across);
            assert_eq!(b.direction, Direction::Down);
        } else {
            assert!((a.row, a.col) < (b.row, b.col));
            assert_eq!(b.number, a.number + 1);
        }
    }
    assert_eq!(starts[0].number, 1);
}

#[test]
fn lone_cells_get_no_number() {
    let grid = numbered_grid(&["AB.", "...", "C.D"]);
    assert_eq!(number_grid(&grid), vec![start(1, 0, 0, Direction::Across)]);
}

#[test]
fn single_cell_grid_has_no_entry() {
    let grid = numbered_grid(&["A"]);
    assert_eq!(number_grid(&grid), vec![]);
}

#[test]
fn numbering_ignores_what_the_cells_hold() {
    let letters = numbered_grid(&["ABC", "D.E", "FGH"]);
    let mut other = numbered_grid(&["ZZZ", "Z.Z", "ZZZ"]);
    other.cells[0] = CrosswordCell::Rebus(String::from("QU"));
    assert_eq!(number_grid(&letters), number_grid(&other));
}

#[test]
fn open_grid_numbers_first_row_and_first_column() {
    let grid = numbered_grid(&["AAA", "AAA", "AAA"]);
    assert_eq!(
        number_grid(&grid),
        vec![
            start(1, 0, 0, Direction::Across),
            start(1, 0, 0, Direction::Down),
            start(2, 0, 1, Direction::Down),
            start(3, 0, 2, Direction::Down),
            start(4, 1, 0, Direction::Across),
            start(5, 2, 0, Direction::Across),
        ]
    );
}

#[test]
fn largest_grid_has_numbers_that_fit() {
    let mut cells = Vec::new();
    for row in 0..255usize {
        for col in 0..255usize {
            cells.push(if (row + col) % 3 == 2 {
                CrosswordCell::Wall
            } else {
                CrosswordCell::Letter('A')
            });
        }
    }
    let grid = CrosswordGrid { width: 255, height: 255, cells };
    let starts = number_grid(&grid);
    assert!(starts.len() <= 65280);
    let last = starts[starts.len() - 1];
    assert!(last.number as usize <= 255 * 255);
    for pair in starts.windows(2) {
        assert!(pair[0].number <= pair[1].number);
    }
}
