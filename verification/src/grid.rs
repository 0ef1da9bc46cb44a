//! The crossword grid: a rectangle of cells in row-major order.

use crate::text::{decimal, decimal_string};
use vstd::prelude::*;

verus! {

/// The state of one grid position.
#[derive(Debug, Clone, PartialEq, Eq)]
pub enum CrosswordCell {
    /// An answer cell that holds one character.
    Letter(char),
    /// An answer cell that holds several characters.
    Rebus(String),
    /// A blocked position that belongs to no answer.
    Wall,
}

impl CrosswordCell {
    pub open spec fn spec_is_wall(&self) -> bool {
        self is Wall
    }

    /// Whether the cell is blocked.
    #[verifier::when_used_as_spec(spec_is_wall)]
    pub fn is_wall(&self) -> (wall: bool)
        ensures
            wall == self.spec_is_wall(),
    {
        match self {
            CrosswordCell::Wall => true,
            _ => false,
        }
    }
}

/// Why a rectangle of cells is no crossword grid.
#[derive(Debug, Clone, Copy, PartialEq, Eq, Structural)]
pub enum GridError {
    /// The width or the height is zero.
    Empty,
    /// The number of cells is not width times height.
    CellCount { expected: usize, got: usize },
    /// Every cell of this row is a wall.
    WallRow(u8),
    /// Every cell of this column is a wall.
    WallColumn(u8),
}

impl GridError {
    /// The message as text. Rows and columns count from 1 in it.
    pub open spec fn message_text(&self) -> Seq<char> {
        match self {
            GridError::Empty => "the grid has no cells"@,
            GridError::CellCount { expected, got } => "expected "@ + decimal(*expected as nat)
                + " cells, got "@ + decimal(*got as nat),
            GridError::WallRow(row) => "row "@ + decimal(*row as nat + 1) + " has no open cell"@,
            GridError::WallColumn(col) => "column "@ + decimal(*col as nat + 1)
                + " has no open cell"@,
        }
    }

    /// A message for the person who drew the grid.
    pub fn message(&self) -> (text: String)
        ensures
            text@ == self.message_text(),
    {
        match self {
            GridError::Empty => String::from_str("the grid has no cells"),
            GridError::CellCount { expected, got } => {
                let mut text = String::from_str("expected ");
                text.append(decimal_string(*expected as u128).as_str());
                text.append(" cells, got ");
                text.append(decimal_string(*got as u128).as_str());
                text
            },
            GridError::WallRow(row) => {
                let mut text = String::from_str("row ");
                text.append(decimal_string(*row as u128 + 1).as_str());
                text.append(" has no open cell");
                text
            },
            GridError::WallColumn(col) => {
                let mut text = String::from_str("column ");
                text.append(decimal_string(*col as u128 + 1).as_str());
                text.append(" has no open cell");
                text
            },
        }
    }
}

/// A rectangle of `width` by `height` cells, stored row by row.
#[derive(Debug, Clone, PartialEq, Eq)]
pub struct CrosswordGrid {
    pub width: u8,
    pub height: u8,
    pub cells: Vec<CrosswordCell>,
}

/// A cell's place in the row-major sequence lies inside it.
pub proof fn lemma_cell_index(width: int, height: int, row: int, col: int)
    requires
        0 <= row < height,
        0 <= col < width,
    ensures
        0 <= row * width + col < height * width,
        row * width + col < width * height,
{
    assert(row * width + col < height * width) by (nonlinear_arith)
        requires
            0 <= row < height,
            0 <= col < width,
    ;
    assert(0 <= row * width) by (nonlinear_arith)
        requires
            0 <= row,
            0 <= width,
    ;
    assert(height * width == width * height) by (nonlinear_arith);
}

impl CrosswordGrid {
    /// Both sides are at least 1 and there is one cell per position.
    pub open spec fn shaped(&self) -> bool {
        &&& self.width >= 1
        &&& self.height >= 1
        &&& self.cells@.len() == self.width * self.height
    }

    /// The cell at a position inside the grid.
    pub open spec fn cell_at(&self, row: int, col: int) -> CrosswordCell {
        self.cells@[row * self.width + col]
    }

    /// The position lies inside the grid and its cell is no wall.
    pub open spec fn open_at(&self, row: int, col: int) -> bool {
        &&& 0 <= row < self.height
        &&& 0 <= col < self.width
        &&& !self.cell_at(row, col).is_wall()
    }

    /// The first `upto` cells of the row are all walls.
    pub open spec fn row_walled(&self, row: int, upto: int) -> bool {
        forall|c: int| 0 <= c < upto ==> (#[trigger] self.cell_at(row, c)).is_wall()
    }

    /// The first `upto` cells of the column are all walls.
    pub open spec fn col_walled(&self, col: int, upto: int) -> bool {
        forall|r: int| 0 <= r < upto ==> (#[trigger] self.cell_at(r, col)).is_wall()
    }

    /// The grid's invariant: it is shaped, and no row and no column consists
    /// of walls alone.
    pub open spec fn wf(&self) -> bool {
        &&& self.shaped()
        &&& forall|r: int| 0 <= r < self.height ==> !#[trigger] self.row_walled(r, self.width as int)
        &&& forall|c: int| 0 <= c < self.width ==> !#[trigger] self.col_walled(c, self.height as int)
    }

    /// What `check` reports for the grid: the first broken rule, the shape
    /// before the rows, the rows before the columns, each from index 0 up.
    pub open spec fn first_fault(&self) -> Option<GridError> {
        if self.width == 0 || self.height == 0 {
            Some(GridError::Empty)
        } else if self.cells@.len() != self.width * self.height {
            Some(
                GridError::CellCount {
                    expected: (self.width * self.height) as usize,
                    got: self.cells@.len() as usize,
                },
            )
        } else if exists|r: int| 0 <= r < self.height && self.row_walled(r, self.width as int) {
            let r = choose|r: int|
                0 <= r < self.height && self.row_walled(r, self.width as int) && forall|q: int|
                    0 <= q < r ==> !self.row_walled(q, self.width as int);
            Some(GridError::WallRow(r as u8))
        } else if exists|c: int| 0 <= c < self.width && self.col_walled(c, self.height as int) {
            let c = choose|c: int|
                0 <= c < self.width && self.col_walled(c, self.height as int) && forall|q: int|
                    0 <= q < c ==> !self.col_walled(q, self.height as int);
            Some(GridError::WallColumn(c as u8))
        } else {
            None
        }
    }

    /// The grid keeps its invariant exactly when it has no fault.
    pub proof fn lemma_first_fault(&self)
        ensures
            self.first_fault() is None <==> self.wf(),
    {
        if self.shaped() {
            if exists|r: int| 0 <= r < self.height && self.row_walled(r, self.width as int) {
                let r = choose|r: int| 0 <= r < self.height && self.row_walled(r, self.width as int);
                assert(self.row_walled(r, self.width as int));
            }
            if exists|c: int| 0 <= c < self.width && self.col_walled(c, self.height as int) {
                let c = choose|c: int| 0 <= c < self.width && self.col_walled(c, self.height as int);
                assert(self.col_walled(c, self.height as int));
            }
        }
    }

    /// Whether both sides are at least 1 and there is one cell per position.
    pub fn is_shaped(&self) -> (shaped: bool)
        ensures
            shaped == self.shaped(),
    {
        let width: usize = self.width as usize;
        let height: usize = self.height as usize;
        assert(width * height <= 255 * 255) by (nonlinear_arith)
            requires
                width <= 255,
                height <= 255,
        ;
        width >= 1 && height >= 1 && self.cells.len() == width * height
    }

    /// Whether the position lies inside the grid and holds no wall.
    pub fn is_open(&self, row: usize, col: usize) -> (open: bool)
        requires
            self.shaped(),
        ensures
            open == self.open_at(row as int, col as int),
    {
        if row < self.height as usize && col < self.width as usize {
            proof {
                lemma_cell_index(self.width as int, self.height as int, row as int, col as int);
            }
            let width: usize = self.width as usize;
            assert(row * width <= 255 * 255) by (nonlinear_arith)
                requires
                    row < 255,
                    width <= 255,
            ;
            !self.cells[row * width + col].is_wall()
        } else {
            false
        }
    }

    /// Whether every cell of the row is a wall.
    fn row_is_walled(&self, row: usize) -> (walled: bool)
        requires
            self.shaped(),
            row < self.height,
        ensures
            walled == self.row_walled(row as int, self.width as int),
    {
        let mut col: usize = 0;
        while col < self.width as usize
            invariant
                self.shaped(),
                row < self.height,
                0 <= col <= self.width,
                self.row_walled(row as int, col as int),
            decreases self.width - col,
        {
            if self.is_open(row, col) {
                assert(!self.cell_at(row as int, col as int).is_wall());
                return false;
            }
            col += 1;
        }
        true
    }

    /// Whether every cell of the column is a wall.
    fn col_is_walled(&self, col: usize) -> (walled: bool)
        requires
            self.shaped(),
            col < self.width,
        ensures
            walled == self.col_walled(col as int, self.height as int),
    {
        let mut row: usize = 0;
        while row < self.height as usize
            invariant
                self.shaped(),
                col < self.width,
                0 <= row <= self.height,
                self.col_walled(col as int, row as int),
            decreases self.height - row,
        {
            if self.is_open(row, col) {
                assert(!self.cell_at(row as int, col as int).is_wall());
                return false;
            }
            row += 1;
        }
        true
    }

    /// Tests the grid's invariant and names the first rule that it breaks.
    pub fn check(&self) -> (outcome: Result<(), GridError>)
        ensures
            outcome is Ok <==> self.wf(),
            outcome matches Err(e) ==> self.first_fault() == Some(e),
            outcome is Ok ==> self.first_fault() is None,
    {
        if self.width == 0 || self.height == 0 {
            return Err(GridError::Empty);
        }
        let width: usize = self.width as usize;
        let height: usize = self.height as usize;
        assert(width * height <= 255 * 255) by (nonlinear_arith)
            requires
                width <= 255,
                height <= 255,
        ;
        let expected: usize = width * height;
        if self.cells.len() != expected {
            return Err(GridError::CellCount { expected, got: self.cells.len() });
        }
        let mut row: usize = 0;
        while row < self.height as usize
            invariant
                self.shaped(),
                0 <= row <= self.height,
                forall|q: int| 0 <= q < row ==> !#[trigger] self.row_walled(q, self.width as int),
            decreases self.height - row,
        {
            if self.row_is_walled(row) {
                proof {
                    let r = choose|r: int|
                        0 <= r < self.height && self.row_walled(r, self.width as int) && forall|
                            q: int,
                        | 0 <= q < r ==> !self.row_walled(q, self.width as int);
                    assert(r == row);
                }
                return Err(GridError::WallRow(row as u8));
            }
            row += 1;
        }
        let mut col: usize = 0;
        while col < self.width as usize
            invariant
                self.shaped(),
                0 <= col <= self.width,
                forall|q: int| 0 <= q < self.height ==> !#[trigger] self.row_walled(q, self.width as int),
                forall|q: int| 0 <= q < col ==> !#[trigger] self.col_walled(q, self.height as int),
            decreases self.width - col,
        {
            if self.col_is_walled(col) {
                proof {
                    let c = choose|c: int|
                        0 <= c < self.width && self.col_walled(c, self.height as int) && forall|
                            q: int,
                        | 0 <= q < c ==> !self.col_walled(q, self.height as int);
                    assert(c == col);
                }
                return Err(GridError::WallColumn(col as u8));
            }
            col += 1;
        }
        Ok(())
    }
}

} // verus!
