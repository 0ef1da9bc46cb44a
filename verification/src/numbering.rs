//! Clue numbering: which cells start an entry, and the number each gets.
//!
//! The numbering reads the shape of the grid only. Cells are visited row by
//! row; a cell that starts an across or a down entry takes the next number,
//! and a cell that starts both takes one number for the two.

use crate::grid::CrosswordGrid;
use vstd::prelude::*;

verus! {

/// The direction in which an entry runs.
#[derive(Debug, Clone, Copy, PartialEq, Eq, Structural)]
pub enum Direction {
    Across,
    Down,
}

/// The start of one entry: its number, the cell it starts in, its direction.
#[derive(Debug, Clone, Copy, PartialEq, Eq, Structural)]
pub struct ClueStart {
    pub number: u16,
    pub row: u8,
    pub col: u8,
    pub direction: Direction,
}

/// An across entry starts here: the cell is open, nothing open lies to its
/// left, and the cell to its right is open.
pub open spec fn starts_across(grid: &CrosswordGrid, row: int, col: int) -> bool {
    &&& grid.open_at(row, col)
    &&& !grid.open_at(row, col - 1)
    &&& grid.open_at(row, col + 1)
}

/// A down entry starts here: the cell is open, nothing open lies above it,
/// and the cell below it is open.
pub open spec fn starts_down(grid: &CrosswordGrid, row: int, col: int) -> bool {
    &&& grid.open_at(row, col)
    &&& !grid.open_at(row - 1, col)
    &&& grid.open_at(row + 1, col)
}

/// The cell starts an entry in the given direction.
pub open spec fn starts_in(grid: &CrosswordGrid, row: int, col: int, direction: Direction) -> bool {
    match direction {
        Direction::Across => starts_across(grid, row, col),
        Direction::Down => starts_down(grid, row, col),
    }
}

/// The cell gets a number.
pub open spec fn is_start(grid: &CrosswordGrid, row: int, col: int) -> bool {
    starts_across(grid, row, col) || starts_down(grid, row, col)
}

/// The first position comes before the second in row-major order.
pub open spec fn comes_before(row1: int, col1: int, row2: int, col2: int) -> bool {
    row1 < row2 || (row1 == row2 && col1 < col2)
}

/// How many cells that come before `(row, col)` in row-major order get a
/// number. `col` may be the width: then the whole row is counted.
pub open spec fn numbered_before(grid: &CrosswordGrid, row: int, col: int) -> nat
    decreases row, col,
{
    if row >= 0 && col > 0 {
        numbered_before(grid, row, col - 1) + if is_start(grid, row, col - 1) {
            1nat
        } else {
            0nat
        }
    } else if row > 0 && col == 0 {
        numbered_before(grid, row - 1, grid.width as int)
    } else {
        0
    }
}

/// The number of a cell, if it has one: one more than the count of numbered
/// cells before it.
pub open spec fn number_at(grid: &CrosswordGrid, row: int, col: int) -> Option<nat> {
    if is_start(grid, row, col) {
        Some(numbered_before(grid, row, col) + 1)
    } else {
        None
    }
}

/// The entries that start in one cell, the across entry first.
pub open spec fn starts_at(grid: &CrosswordGrid, row: int, col: int) -> Seq<ClueStart> {
    let number = (numbered_before(grid, row, col) + 1) as u16;
    let across = if starts_across(grid, row, col) {
        seq![ClueStart { number, row: row as u8, col: col as u8, direction: Direction::Across }]
    } else {
        Seq::empty()
    };
    let down = if starts_down(grid, row, col) {
        seq![ClueStart { number, row: row as u8, col: col as u8, direction: Direction::Down }]
    } else {
        Seq::empty()
    };
    across + down
}

/// The entries that start in the cells before `(row, col)`, in row-major
/// order of their cells.
pub open spec fn starts_before(grid: &CrosswordGrid, row: int, col: int) -> Seq<ClueStart>
    decreases row, col,
{
    if row >= 0 && col > 0 {
        starts_before(grid, row, col - 1) + starts_at(grid, row, col - 1)
    } else if row > 0 && col == 0 {
        starts_before(grid, row - 1, grid.width as int)
    } else {
        Seq::empty()
    }
}

/// All entries of the grid, by increasing cell and, in one cell, across
/// before down.
pub open spec fn grid_starts(grid: &CrosswordGrid) -> Seq<ClueStart> {
    starts_before(grid, grid.height as int, 0)
}

/// The entries of one direction, in the order of `starts`.
pub open spec fn starts_of(starts: Seq<ClueStart>, direction: Direction) -> Seq<ClueStart> {
    starts.filter(|s: ClueStart| s.direction == direction)
}

/// The numbers of a list of entries.
pub open spec fn numbers_of(starts: Seq<ClueStart>) -> Seq<u16> {
    starts.map_values(|s: ClueStart| s.number)
}

/// No more cells are numbered than were visited.
pub proof fn lemma_numbered_bound(grid: &CrosswordGrid, row: int, col: int)
    requires
        0 <= row,
        0 <= col <= grid.width,
    ensures
        numbered_before(grid, row, col) <= row * 255 + col,
    decreases row, col,
{
    if col > 0 {
        lemma_numbered_bound(grid, row, col - 1);
    } else if row > 0 {
        lemma_numbered_bound(grid, row - 1, grid.width as int);
    }
}

/// The count of numbered cells grows with the position, and grows past a
/// numbered cell.
pub proof fn lemma_numbered_monotone(grid: &CrosswordGrid, row1: int, col1: int, row2: int, col2: int)
    requires
        0 <= row1,
        0 <= col1 < grid.width,
        0 <= col2 <= grid.width,
        comes_before(row1, col1, row2, col2),
    ensures
        numbered_before(grid, row1, col1) + (if is_start(grid, row1, col1) {
            1nat
        } else {
            0nat
        }) <= numbered_before(grid, row2, col2),
    decreases row2, col2,
{
    if col2 > 0 {
        if !(row1 == row2 && col1 == col2 - 1) {
            lemma_numbered_monotone(grid, row1, col1, row2, col2 - 1);
        }
    } else {
        lemma_numbered_monotone(grid, row1, col1, row2 - 1, grid.width as int);
    }
}

/// Numbers strictly increase in row-major order: of two numbered cells, the
/// earlier has the smaller number.
pub proof fn lemma_numbers_increase(grid: &CrosswordGrid, row1: int, col1: int, row2: int, col2: int)
    requires
        grid.shaped(),
        is_start(grid, row1, col1),
        is_start(grid, row2, col2),
        comes_before(row1, col1, row2, col2),
    ensures
        number_at(grid, row1, col1) is Some,
        number_at(grid, row2, col2) is Some,
        number_at(grid, row1, col1)->0 < number_at(grid, row2, col2)->0,
{
    lemma_numbered_monotone(grid, row1, col1, row2, col2);
}

/// A cell has a number exactly when it starts an across or a down entry, and
/// the first numbered cell has the number 1.
pub proof fn lemma_numbered_exactly_starts(grid: &CrosswordGrid, row: int, col: int)
    ensures
        number_at(grid, row, col) is Some <==> (starts_across(grid, row, col) || starts_down(
            grid,
            row,
            col,
        )),
        number_at(grid, row, col) matches Some(n) ==> n >= 1,
        number_at(grid, row, col) is Some && (forall|r: int, c: int|
            comes_before(r, c, row, col) ==> !is_start(grid, r, c)) ==> number_at(grid, row, col)
            == Some(1nat),
{
    if number_at(grid, row, col) is Some && (forall|r: int, c: int|
        comes_before(r, c, row, col) ==> !is_start(grid, r, c)) {
        lemma_none_numbered(grid, row, col);
    }
}

/// Where no earlier cell starts an entry, none is counted.
proof fn lemma_none_numbered(grid: &CrosswordGrid, row: int, col: int)
    requires
        forall|r: int, c: int| comes_before(r, c, row, col) ==> !is_start(grid, r, c),
    ensures
        numbered_before(grid, row, col) == 0,
    decreases row, col,
{
    if row >= 0 && col > 0 {
        assert(comes_before(row, col - 1, row, col));
        assert forall|r: int, c: int| comes_before(r, c, row, col - 1) implies !is_start(
            grid,
            r,
            c,
        ) by {
            assert(comes_before(r, c, row, col));
        }
        lemma_none_numbered(grid, row, col - 1);
    } else if row > 0 && col == 0 {
        assert forall|r: int, c: int| comes_before(r, c, row - 1, grid.width as int) implies 
            !is_start(grid, r, c) by {
            if r == row - 1 && c >= grid.width {
                assert(!grid.open_at(r, c));
            } else {
                assert(comes_before(r, c, row, col));
            }
        }
        lemma_none_numbered(grid, row - 1, grid.width as int);
    }
}

/// What holds of entry `k` among those before `(row, col)`: it lies in the
/// grid and before `(row, col)`, an entry of its direction starts in its
/// cell, and its number is the cell's number.
pub open spec fn entry_sound(grid: &CrosswordGrid, entry: ClueStart, row: int, col: int) -> bool {
    &&& entry.row < grid.height
    &&& entry.col < grid.width
    &&& comes_before(entry.row as int, entry.col as int, row, col)
    &&& starts_in(grid, entry.row as int, entry.col as int, entry.direction)
    &&& number_at(grid, entry.row as int, entry.col as int) == Some(entry.number as nat)
}

/// Every listed entry is the start of an entry of the grid, with the number
/// of its cell.
pub proof fn lemma_starts_before_sound(grid: &CrosswordGrid, row: int, col: int, k: int)
    requires
        grid.shaped(),
        0 <= row <= grid.height,
        0 <= col <= grid.width,
        0 <= k < starts_before(grid, row, col).len(),
    ensures
        entry_sound(grid, starts_before(grid, row, col)[k], row, col),
    decreases row, col,
{
    if col > 0 {
        let earlier = starts_before(grid, row, col - 1);
        if k < earlier.len() {
            lemma_starts_before_sound(grid, row, col - 1, k);
        } else {
            lemma_numbered_bound(grid, row, col - 1);
            assert(row * 255 + (col - 1) < 65535);
        }
    } else if row > 0 {
        lemma_starts_before_sound(grid, row - 1, grid.width as int, k);
    }
}

/// Every start of an entry before `(row, col)` is listed.
pub proof fn lemma_starts_before_complete(
    grid: &CrosswordGrid,
    row: int,
    col: int,
    at_row: int,
    at_col: int,
    direction: Direction,
) -> (k: int)
    requires
        grid.shaped(),
        0 <= row <= grid.height,
        0 <= col <= grid.width,
        starts_in(grid, at_row, at_col, direction),
        comes_before(at_row, at_col, row, col),
    ensures
        0 <= k < starts_before(grid, row, col).len(),
        starts_before(grid, row, col)[k] == (ClueStart {
            number: (numbered_before(grid, at_row, at_col) + 1) as u16,
            row: at_row as u8,
            col: at_col as u8,
            direction,
        }),
    decreases row, col,
{
    if col > 0 {
        let earlier = starts_before(grid, row, col - 1);
        if at_row == row && at_col == col - 1 {
            let here = starts_at(grid, row, col - 1);
            if direction == Direction::Across {
                assert(here[0].direction == Direction::Across);
                earlier.len() as int
            } else {
                assert(here[here.len() - 1].direction == Direction::Down);
                earlier.len() + here.len() - 1
            }
        } else {
            lemma_starts_before_complete(grid, row, col - 1, at_row, at_col, direction)
        }
    } else {
        lemma_starts_before_complete(grid, row - 1, grid.width as int, at_row, at_col, direction)
    }
}

/// Entry `j` stands before entry `k` in the stream of clues: its cell comes
/// first with a smaller number, or the two share a cell and a number, and
/// `j` is the across entry and `k` the down entry.
pub open spec fn in_clue_order(j: ClueStart, k: ClueStart) -> bool {
    ||| (comes_before(j.row as int, j.col as int, k.row as int, k.col as int) && j.number
        < k.number)
    ||| (j.row == k.row && j.col == k.col && j.number == k.number && j.direction
        == Direction::Across && k.direction == Direction::Down)
}

/// The list is ordered by cell, across before down in one cell, and the
/// numbers increase with the cells.
pub proof fn lemma_starts_before_ordered(grid: &CrosswordGrid, row: int, col: int, j: int, k: int)
    requires
        grid.shaped(),
        0 <= row <= grid.height,
        0 <= col <= grid.width,
        0 <= j < k < starts_before(grid, row, col).len(),
    ensures
        in_clue_order(starts_before(grid, row, col)[j], starts_before(grid, row, col)[k]),
    decreases row, col,
{
    if col > 0 {
        let earlier = starts_before(grid, row, col - 1);
        if k < earlier.len() {
            lemma_starts_before_ordered(grid, row, col - 1, j, k);
        } else {
            lemma_numbered_bound(grid, row, col - 1);
            assert(row * 255 + (col - 1) < 65535);
            if j < earlier.len() {
                lemma_starts_before_sound(grid, row, col - 1, j);
                let first = earlier[j];
                lemma_numbered_monotone(grid, first.row as int, first.col as int, row, col - 1);
            }
        }
    } else if row > 0 {
        lemma_starts_before_ordered(grid, row - 1, grid.width as int, j, k);
    }
}

/// The numbering is exact: each listed entry starts in its cell with the
/// cell's number, each start of an entry is listed, and the list runs by
/// increasing cell with strictly increasing numbers from cell to cell.
pub proof fn lemma_grid_starts_exact(grid: &CrosswordGrid)
    requires
        grid.shaped(),
    ensures
        forall|k: int|
            0 <= k < grid_starts(grid).len() ==> entry_sound(
                grid,
                #[trigger] grid_starts(grid)[k],
                grid.height as int,
                0,
            ),
        forall|row: int, col: int, direction: Direction| #[trigger]
            starts_in(grid, row, col, direction) ==> grid_starts(grid).contains(
                ClueStart {
                    number: (numbered_before(grid, row, col) + 1) as u16,
                    row: row as u8,
                    col: col as u8,
                    direction,
                },
            ),
        forall|j: int, k: int|
            0 <= j < k < grid_starts(grid).len() ==> in_clue_order(
                #[trigger] grid_starts(grid)[j],
                #[trigger] grid_starts(grid)[k],
            ),
{
    let all = grid_starts(grid);
    assert forall|k: int| 0 <= k < all.len() implies entry_sound(
        grid,
        #[trigger] all[k],
        grid.height as int,
        0,
    ) by {
        lemma_starts_before_sound(grid, grid.height as int, 0, k);
    }
    assert forall|row: int, col: int, direction: Direction| #[trigger]
        starts_in(grid, row, col, direction) implies all.contains(
        ClueStart {
            number: (numbered_before(grid, row, col) + 1) as u16,
            row: row as u8,
            col: col as u8,
            direction,
        },
    ) by {
        let k = lemma_starts_before_complete(grid, grid.height as int, 0, row, col, direction);
        assert(all[k] == ClueStart {
            number: (numbered_before(grid, row, col) + 1) as u16,
            row: row as u8,
            col: col as u8,
            direction,
        });
    }
    assert forall|j: int, k: int| 0 <= j < k < all.len() implies in_clue_order(
        #[trigger] all[j],
        #[trigger] all[k],
    ) by {
        lemma_starts_before_ordered(grid, grid.height as int, 0, j, k);
    }
}

/// An entry more is one more among those of its direction, and none among
/// those of the other.
pub proof fn lemma_starts_of_push(starts: Seq<ClueStart>, next: ClueStart, direction: Direction)
    ensures
        starts_of(starts.push(next), direction) == if next.direction == direction {
            starts_of(starts, direction).push(next)
        } else {
            starts_of(starts, direction)
        },
{
    reveal(Seq::filter);
    assert(starts.push(next).drop_last() =~= starts);
}

/// Among the first entries there are no more of a direction than among all.
pub proof fn lemma_starts_of_prefix(starts: Seq<ClueStart>, upto: int, direction: Direction)
    requires
        0 <= upto <= starts.len(),
    ensures
        starts_of(starts.take(upto), direction).len() <= starts_of(starts, direction).len(),
    decreases starts.len() - upto,
{
    if upto < starts.len() {
        assert(starts.take(upto + 1) =~= starts.take(upto).push(starts[upto]));
        lemma_starts_of_push(starts.take(upto), starts[upto], direction);
        lemma_starts_of_prefix(starts, upto + 1, direction);
    } else {
        assert(starts.take(upto) =~= starts);
    }
}

/// Every entry runs across or down.
pub proof fn lemma_starts_split(starts: Seq<ClueStart>)
    ensures
        starts_of(starts, Direction::Across).len() + starts_of(starts, Direction::Down).len()
            == starts.len(),
    decreases starts.len(),
{
    if starts.len() > 0 {
        let earlier = starts.drop_last();
        assert(earlier.push(starts.last()) =~= starts);
        lemma_starts_of_push(earlier, starts.last(), Direction::Across);
        lemma_starts_of_push(earlier, starts.last(), Direction::Down);
        lemma_starts_split(earlier);
    } else {
        reveal(Seq::filter);
    }
}

/// Each entry of one direction is an entry of the list, of that direction.
pub proof fn lemma_starts_of_member(starts: Seq<ClueStart>, direction: Direction, j: int) -> (at:
    int)
    requires
        0 <= j < starts_of(starts, direction).len(),
    ensures
        0 <= at < starts.len(),
        starts[at] == starts_of(starts, direction)[j],
        starts[at].direction == direction,
    decreases starts.len(),
{
    if starts.len() == 0 {
        reveal(Seq::filter);
        0
    } else {
        let earlier = starts.drop_last();
        assert(earlier.push(starts.last()) =~= starts);
        lemma_starts_of_push(earlier, starts.last(), direction);
        if j < starts_of(earlier, direction).len() {
            lemma_starts_of_member(earlier, direction, j)
        } else {
            starts.len() - 1
        }
    }
}

/// In a list in clue order, the entries of one direction stand by strictly
/// increasing cell and number.
pub proof fn lemma_direction_increases(
    starts: Seq<ClueStart>,
    direction: Direction,
    j: int,
    k: int,
)
    requires
        forall|a: int, b: int|
            0 <= a < b < starts.len() ==> in_clue_order(#[trigger] starts[a], #[trigger] starts[b]),
        0 <= j < k < starts_of(starts, direction).len(),
    ensures
        starts_of(starts, direction)[j].number < starts_of(starts, direction)[k].number,
        comes_before(
            starts_of(starts, direction)[j].row as int,
            starts_of(starts, direction)[j].col as int,
            starts_of(starts, direction)[k].row as int,
            starts_of(starts, direction)[k].col as int,
        ),
    decreases starts.len(),
{
    if starts.len() == 0 {
        reveal(Seq::filter);
    } else {
        let earlier = starts.drop_last();
        assert(earlier.push(starts.last()) =~= starts);
        lemma_starts_of_push(earlier, starts.last(), direction);
        assert forall|a: int, b: int| 0 <= a < b < earlier.len() implies in_clue_order(
            #[trigger] earlier[a],
            #[trigger] earlier[b],
        ) by {
            assert(in_clue_order(starts[a], starts[b]));
        }
        if k < starts_of(earlier, direction).len() {
            lemma_direction_increases(earlier, direction, j, k);
        } else {
            let at = lemma_starts_of_member(earlier, direction, j);
            assert(in_clue_order(starts[at], starts[starts.len() - 1]));
        }
    }
}

/// The across entries of a grid, and its down entries, each stand by
/// strictly increasing cell and number.
pub proof fn lemma_direction_starts_increase(
    grid: &CrosswordGrid,
    direction: Direction,
    j: int,
    k: int,
)
    requires
        grid.shaped(),
        0 <= j < k < starts_of(grid_starts(grid), direction).len(),
    ensures
        starts_of(grid_starts(grid), direction)[j].number < starts_of(
            grid_starts(grid),
            direction,
        )[k].number,
        comes_before(
            starts_of(grid_starts(grid), direction)[j].row as int,
            starts_of(grid_starts(grid), direction)[j].col as int,
            starts_of(grid_starts(grid), direction)[k].row as int,
            starts_of(grid_starts(grid), direction)[k].col as int,
        ),
{
    lemma_grid_starts_exact(grid);
    lemma_direction_increases(grid_starts(grid), direction, j, k);
}

/// How many across entries start before `(row, col)` in row-major order.
pub open spec fn across_before(grid: &CrosswordGrid, row: int, col: int) -> nat
    decreases row, col,
{
    if row >= 0 && col > 0 {
        across_before(grid, row, col - 1) + if starts_across(grid, row, col - 1) {
            1nat
        } else {
            0nat
        }
    } else if row > 0 && col == 0 {
        across_before(grid, row - 1, grid.width as int)
    } else {
        0
    }
}

/// How many down entries start before `(row, col)` in row-major order.
pub open spec fn down_before(grid: &CrosswordGrid, row: int, col: int) -> nat
    decreases row, col,
{
    if row >= 0 && col > 0 {
        down_before(grid, row, col - 1) + if starts_down(grid, row, col - 1) {
            1nat
        } else {
            0nat
        }
    } else if row > 0 && col == 0 {
        down_before(grid, row - 1, grid.width as int)
    } else {
        0
    }
}

/// How many down entries start in the first `col` cells of a row.
pub open spec fn row_downs(grid: &CrosswordGrid, row: int, col: int) -> nat
    decreases col,
{
    if col <= 0 {
        0
    } else {
        row_downs(grid, row, col - 1) + if starts_down(grid, row, col - 1) {
            1nat
        } else {
            0nat
        }
    }
}

/// The list of entries is as long as the two counts together.
pub proof fn lemma_starts_before_len(grid: &CrosswordGrid, row: int, col: int)
    ensures
        starts_before(grid, row, col).len() == across_before(grid, row, col) + down_before(
            grid,
            row,
            col,
        ),
    decreases row, col,
{
    if row >= 0 && col > 0 {
        lemma_starts_before_len(grid, row, col - 1);
    } else if row > 0 && col == 0 {
        lemma_starts_before_len(grid, row - 1, grid.width as int);
    }
}

/// An across entry needs two cells of its row: of two neighbours in a row at
/// most one starts an across entry.
pub proof fn lemma_across_bound(grid: &CrosswordGrid, row: int, col: int)
    requires
        0 <= row,
        0 <= col <= grid.width,
    ensures
        2 * across_before(grid, row, col) <= row * 256 + col + (if col > 0 && starts_across(
            grid,
            row,
            col - 1,
        ) {
            1int
        } else {
            0int
        }),
    decreases row, col,
{
    if col > 0 {
        lemma_across_bound(grid, row, col - 1);
    } else if row > 0 {
        lemma_across_bound(grid, row - 1, grid.width as int);
    }
}

/// No more down entries start in a stretch of cells than it has cells, and
/// the count grows with the stretch.
pub proof fn lemma_row_downs_grow(grid: &CrosswordGrid, row: int, col: int, upto: int)
    requires
        0 <= col <= upto,
    ensures
        row_downs(grid, row, col) <= row_downs(grid, row, upto),
        row_downs(grid, row, upto) <= upto,
    decreases upto,
{
    if upto > 0 {
        if col < upto {
            lemma_row_downs_grow(grid, row, col, upto - 1);
        } else {
            lemma_row_downs_grow(grid, row, col - 1, upto - 1);
        }
    }
}

/// A down entry needs two cells of its column: of a cell and the cell above
/// it at most one starts a down entry. So twice the count of down entries is
/// at most the cells visited and the down entries among the last cells
/// visited, one row's worth.
pub proof fn lemma_down_bound(grid: &CrosswordGrid, row: int, col: int)
    requires
        0 <= row,
        0 <= col <= grid.width,
    ensures
        2 * down_before(grid, row, col) <= row * 255 + col + row_downs(grid, row, col) + row_downs(
            grid,
            row - 1,
            grid.width as int,
        ) - row_downs(grid, row - 1, col),
    decreases row, col,
{
    if col > 0 {
        lemma_down_bound(grid, row, col - 1);
    } else if row > 0 {
        lemma_down_bound(grid, row - 1, grid.width as int);
    }
}

/// The entries of any grid can be counted in 16 bits: there are at most
/// 65280 of them.
pub proof fn lemma_entries_fit(grid: &CrosswordGrid)
    ensures
        grid_starts(grid).len() <= 65280,
{
    let height = grid.height as int;
    let width = grid.width as int;
    lemma_starts_before_len(grid, height, 0);
    lemma_across_bound(grid, height, 0);
    lemma_down_bound(grid, height, 0);
    lemma_row_downs_grow(grid, height - 1, 0, width);
}

/// Numbers the grid: the entries by increasing cell, across before down in
/// one cell, each with the number of its cell.
pub fn number_grid(grid: &CrosswordGrid) -> (starts: Vec<ClueStart>)
    requires
        grid.shaped(),
    ensures
        starts@ == grid_starts(grid),
        starts@.len() <= 65280,
{
    proof {
        lemma_entries_fit(grid);
    }
    let mut starts: Vec<ClueStart> = Vec::new();
    let mut counted: u16 = 0;
    let height: usize = grid.height as usize;
    let width: usize = grid.width as usize;
    let mut row: usize = 0;
    while row < height
        invariant
            grid.shaped(),
            height == grid.height,
            width == grid.width,
            0 <= row <= height,
            counted == numbered_before(grid, row as int, 0),
            starts@ == starts_before(grid, row as int, 0),
        decreases height - row,
    {
        let mut col: usize = 0;
        while col < width
            invariant
                grid.shaped(),
                height == grid.height,
                width == grid.width,
                0 <= row < height,
                0 <= col <= width,
                counted == numbered_before(grid, row as int, col as int),
                starts@ == starts_before(grid, row as int, col as int),
            decreases width - col,
        {
            let open: bool = grid.is_open(row, col);
            let left_open: bool = col > 0 && grid.is_open(row, col - 1);
            let up_open: bool = row > 0 && grid.is_open(row - 1, col);
            let across: bool = open && !left_open && grid.is_open(row, col + 1);
            let down: bool = open && !up_open && grid.is_open(row + 1, col);
            proof {
                lemma_numbered_bound(grid, row as int, col as int);
                assert(across == starts_across(grid, row as int, col as int));
                assert(down == starts_down(grid, row as int, col as int));
            }
            let number: u16 = counted + 1;
            if across {
                starts.push(
                    ClueStart { number, row: row as u8, col: col as u8, direction: Direction::Across },
                );
            }
            if down {
                starts.push(
                    ClueStart { number, row: row as u8, col: col as u8, direction: Direction::Down },
                );
            }
            if across || down {
                counted = number;
            }
            proof {
                assert(starts@ =~= starts_before(grid, row as int, col as int) + starts_at(
                    grid,
                    row as int,
                    col as int,
                ));
            }
            col += 1;
        }
        row += 1;
    }
    starts
}

/// The entries of one direction, in their order in `starts`.
pub fn starts_in_direction(starts: &Vec<ClueStart>, direction: Direction) -> (chosen: Vec<
    ClueStart,
>)
    ensures
        chosen@ == starts_of(starts@, direction),
{
    let mut chosen: Vec<ClueStart> = Vec::new();
    let mut i: usize = 0;
    proof {
        reveal(Seq::filter);
        assert(starts@.take(0) =~= Seq::<ClueStart>::empty());
    }
    while i < starts.len()
        invariant
            0 <= i <= starts@.len(),
            chosen@ == starts_of(starts@.take(i as int), direction),
        decreases starts@.len() - i,
    {
        proof {
            reveal(Seq::filter);
            assert(starts@.take(i + 1).drop_last() =~= starts@.take(i as int));
        }
        if starts[i].direction == direction {
            chosen.push(starts[i]);
        }
        i += 1;
    }
    proof {
        assert(starts@.take(i as int) =~= starts@);
    }
    chosen
}

} // verus!
