use crossword_puz::{CrosswordCell, CrosswordGrid, GridError};

fn grid_of_rows(rows: &[&str]) -> CrosswordGrid {
    let mut cells = Vec::new();
    for row in rows {
        for c in row.chars() {
            cells.push(if c == '.' { CrosswordCell::Wall } else { CrosswordCell::Letter(c) });
        }
    }
    CrosswordGrid { width: rows[0].chars().count() as u8, height: rows.len() as u8, cells }
}

#[test]
fn sound_grid_passes_the_check() {
    let grid = grid_of_rows(&["ABC", "D.E", "FGH"]);
    assert_eq!(grid.check(), Ok(()));
    assert!(grid.is_shaped());
}

#[test]
fn grid_without_cells_is_empty() {
    let grid = CrosswordGrid { width: 0, height: 3, cells: vec![] };
    assert_eq!(grid.check(), Err(GridError::Empty));
    let grid = CrosswordGrid { width: 3, height: 0, cells: vec![] };
    assert_eq!(grid.check(), Err(GridError::Empty));
    assert!(!grid.is_shaped());
}

#[test]
fn grid_with_wrong_cell_count_is_refused() {
    let mut grid = grid_of_rows(&["ABC", "D.E", "FGH"]);
    grid.cells.pop();
    assert_eq!(grid.check(), Err(GridError::CellCount { expected: 9, got: 8 }));
    assert!(!grid.is_shaped());
}

#[test]
fn grid_with_a_row_of_walls_is_refused() {
    let grid = grid_of_rows(&["ABC", "...", "FGH"]);
    assert_eq!(grid.check(), Err(GridError::WallRow(1)));
}

#[test]
fn grid_with_a_column_of_walls_is_refused() {
    let grid = grid_of_rows(&["AB.", "CD.", "EF."]);
    assert_eq!(grid.check(), Err(GridError::WallColumn(2)));
}

#[test]
fn first_walled_row_is_named_before_any_column() {
    let grid = grid_of_rows(&["A.C", "...", "..."]);
    assert_eq!(grid.check(), Err(GridError::WallRow(1)));
}

#[test]
fn largest_grid_passes_the_check() {
    let cells = vec![CrosswordCell::Letter('A'); 255 * 255];
    let grid = CrosswordGrid { width: 255, height: 255, cells };
    assert_eq!(grid.check(), Ok(()));
}

#[test]
fn is_open_tells_letters_from_walls_and_outside() {
    let grid = grid_of_rows(&["ABC", "D.E", "FGH"]);
    assert!(grid.is_open(0, 0));
    assert!(!grid.is_open(1, 1));
    assert!(grid.is_open(2, 2));
    assert!(!grid.is_open(3, 0));
    assert!(!grid.is_open(0, 3));
}

#[test]
fn rebus_cell_is_open() {
    let grid = CrosswordGrid {
        width: 2,
        height: 1,
        cells: vec![CrosswordCell::Rebus(String::from("AB")), CrosswordCell::Wall],
    };
    assert!(grid.is_open(0, 0));
    assert!(!grid.is_open(0, 1));
    assert!(!CrosswordCell::Rebus(String::from("AB")).is_wall());
    assert!(CrosswordCell::Wall.is_wall());
}

#[test]
fn grid_error_messages() {
    assert_eq!(GridError::Empty.message(), "the grid has no cells");
    assert_eq!(
        GridError::CellCount { expected: 9, got: 8 }.message(),
        "expected 9 cells, got 8"
    );
    assert_eq!(GridError::WallRow(1).message(), "row 2 has no open cell");
    assert_eq!(GridError::WallColumn(254).message(), "column 255 has no open cell");
}
