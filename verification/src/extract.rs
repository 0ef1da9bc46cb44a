//! Grid extraction: from the pixels of a drawn grid to its cells.
//!
//! The grid is found by its lines. A row of pixels is a line where enough of
//! it is dark, and likewise a column. The stretches between two lines are the
//! rows and the columns of the grid, and must all be of nearly one size. A
//! cell is a wall where enough of its pixels are dark.

use crate::grid::{lemma_cell_index, CrosswordCell, CrosswordGrid};
use vstd::prelude::*;

verus! {

/// The letter that stands in an open cell: the pixels do not tell the answer.
pub const PLACEHOLDER: char = 'X';

/// Why no grid came out of an image.
#[derive(Debug, Clone, Copy, PartialEq, Eq, Structural)]
pub enum ExtractionError {
    /// The lines do not part the image into rows and columns of one size.
    NoGridDetected,
    /// The grid has more than 255 rows or columns.
    Oversize,
    /// Every cell of the grid is a wall.
    NoUsableCell,
}

impl ExtractionError {
    /// The message as text.
    pub open spec fn message_text(&self) -> Seq<char> {
        match self {
            ExtractionError::NoGridDetected => "no grid detected"@,
            ExtractionError::Oversize => "the grid has more than 255 rows or columns"@,
            ExtractionError::NoUsableCell => "the grid has no open cell"@,
        }
    }

    /// A message for the person who sent the image.
    pub fn message(&self) -> (text: String)
        ensures
            text@ == self.message_text(),
    {
        match self {
            ExtractionError::NoGridDetected => String::from_str("no grid detected"),
            ExtractionError::Oversize => String::from_str(
                "the grid has more than 255 rows or columns",
            ),
            ExtractionError::NoUsableCell => String::from_str("the grid has no open cell"),
        }
    }
}

/// A stretch of pixel rows or columns, from `start` up to and without `end`.
#[derive(Debug, Clone, Copy, PartialEq, Eq, Structural)]
pub struct Span {
    pub start: u32,
    pub end: u32,
}

impl Span {
    /// The number of pixels in the stretch.
    pub open spec fn len(&self) -> int {
        self.end - self.start
    }
}

/// How pixels are read.
#[derive(Debug, Clone, PartialEq, Eq)]
pub struct ExtractConfig {
    /// A pixel is dark where its intensity is below this.
    pub dark_below: u8,
    /// A row or column of pixels is a line where at least this many in a
    /// hundred of its pixels are dark.
    pub line_percent: u8,
    /// A cell is a wall where more than this many in a hundred of its pixels
    /// are dark.
    pub wall_percent: u8,
    /// By how many pixels the widest row or column of the grid may exceed the
    /// narrowest.
    pub tolerance: u32,
    /// The cells, by row and column, that hold more than one character.
    pub rebus_slots: Vec<(u8, u8)>,
}

impl Default for ExtractConfig {
    fn default() -> (config: Self)
        ensures
            config.is_default(),
    {
        ExtractConfig {
            dark_below: 128,
            line_percent: 90,
            wall_percent: 50,
            tolerance: 2,
            rebus_slots: Vec::new(),
        }
    }
}

impl ExtractConfig {
    /// The usual thresholds: a pixel is dark below 128, a line is dark in 90
    /// of a hundred pixels, a wall in more than 50; sizes may differ by 2
    /// pixels; no cell holds more than one character.
    pub open spec fn is_default(&self) -> bool {
        &&& self.dark_below == 128
        &&& self.line_percent == 90
        &&& self.wall_percent == 50
        &&& self.tolerance == 2
        &&& self.rebus_slots@.len() == 0
    }

    /// The cell is marked as holding more than one character.
    pub open spec fn marks_rebus(&self, row: int, col: int) -> bool {
        exists|k: int|
            0 <= k < self.rebus_slots@.len() && (#[trigger] self.rebus_slots@[k]).0 == row
                && self.rebus_slots@[k].1 == col
    }

    /// Whether the cell is marked as holding more than one character.
    pub fn is_rebus(&self, row: u8, col: u8) -> (marked: bool)
        ensures
            marked == self.marks_rebus(row as int, col as int),
    {
        let mut k: usize = 0;
        while k < self.rebus_slots.len()
            invariant
                0 <= k <= self.rebus_slots@.len(),
                forall|j: int|
                    0 <= j < k ==> !((#[trigger] self.rebus_slots@[j]).0 == row
                        && self.rebus_slots@[j].1 == col),
            decreases self.rebus_slots@.len() - k,
        {
            if self.rebus_slots[k].0 == row && self.rebus_slots[k].1 == col {
                return true;
            }
            k += 1;
        }
        false
    }
}

/// An image in shades of grey: one intensity per pixel, row by row, 0 for
/// black.
#[derive(Debug, Clone, PartialEq, Eq)]
pub struct Raster {
    pub width: u32,
    pub height: u32,
    pub pixels: Vec<u8>,
}

/// Where the current stretch without a line began, seen from position `n`:
/// just after the last line before `n`, or at 0.
pub open spec fn run_start(lines: Seq<bool>, n: int) -> int
    decreases n,
{
    if n <= 0 {
        0
    } else if lines[n - 1] {
        n
    } else {
        run_start(lines, n - 1)
    }
}

/// The stretches between two lines that end before position `n`, in order.
/// A stretch counts where it is not empty, a line stands just before it and
/// a line ends it.
pub open spec fn spans_upto(lines: Seq<bool>, n: int) -> Seq<Span>
    decreases n,
{
    if n <= 0 {
        Seq::empty()
    } else {
        let earlier = spans_upto(lines, n - 1);
        let start = run_start(lines, n - 1);
        if lines[n - 1] && 0 < start < n - 1 {
            earlier.push(Span { start: start as u32, end: (n - 1) as u32 })
        } else {
            earlier
        }
    }
}

/// The rows, or the columns, that a sequence of lines parts an image into.
pub open spec fn cell_spans(lines: Seq<bool>) -> Seq<Span> {
    spans_upto(lines, lines.len() as int)
}

/// The current stretch begins at or before the position.
pub proof fn lemma_run_start(lines: Seq<bool>, n: int)
    requires
        0 <= n <= lines.len(),
    ensures
        0 <= run_start(lines, n) <= n,
        run_start(lines, n) > 0 ==> lines[run_start(lines, n) - 1],
        forall|i: int| run_start(lines, n) <= i < n ==> !#[trigger] lines[i],
    decreases n,
{
    if n > 0 && !lines[n - 1] {
        lemma_run_start(lines, n - 1);
    }
}

/// Each stretch found lies between two lines and holds none, and there are
/// no more stretches than positions.
pub proof fn lemma_spans_sound(lines: Seq<bool>, n: int, k: int)
    requires
        0 <= n <= lines.len() <= u32::MAX,
        0 <= k < spans_upto(lines, n).len(),
    ensures
        ({
            let span = spans_upto(lines, n)[k];
            &&& 0 < span.start < span.end < n
            &&& lines[span.start - 1]
            &&& lines[span.end as int]
            &&& forall|i: int| span.start <= i < span.end ==> !#[trigger] lines[i]
        }),
        spans_upto(lines, n).len() <= n,
    decreases n,
{
    if n > 0 {
        let earlier = spans_upto(lines, n - 1);
        lemma_spans_len(lines, n - 1);
        if k < earlier.len() {
            lemma_spans_sound(lines, n - 1, k);
        } else {
            lemma_run_start(lines, n - 1);
        }
    }
}

/// There are no more stretches than positions.
pub proof fn lemma_spans_len(lines: Seq<bool>, n: int)
    ensures
        spans_upto(lines, n).len() <= if n > 0 {
            n
        } else {
            0
        },
    decreases n,
{
    if n > 0 {
        lemma_spans_len(lines, n - 1);
    }
}

/// The stretches come in order and apart: each begins after the line that
/// ends the one before.
pub proof fn lemma_spans_ordered(lines: Seq<bool>, n: int, j: int, k: int)
    requires
        0 <= n <= lines.len() <= u32::MAX,
        0 <= j < k < spans_upto(lines, n).len(),
    ensures
        spans_upto(lines, n)[j].end < spans_upto(lines, n)[k].start,
    decreases n,
{
    if n > 0 {
        let earlier = spans_upto(lines, n - 1);
        if k < earlier.len() {
            lemma_spans_ordered(lines, n - 1, j, k);
        } else {
            lemma_spans_sound(lines, n - 1, j);
            lemma_run_start(lines, n - 1);
            let first = earlier[j];
            let start = run_start(lines, n - 1);
            if start <= first.end {
                assert(!lines[first.end as int]);
            }
        }
    }
}

/// The stretches between the lines.
pub fn find_spans(lines: &Vec<bool>) -> (spans: Vec<Span>)
    requires
        lines@.len() <= u32::MAX,
    ensures
        spans@ == cell_spans(lines@),
{
    let mut spans: Vec<Span> = Vec::new();
    let mut start: usize = 0;
    let mut n: usize = 0;
    while n < lines.len()
        invariant
            lines@.len() <= u32::MAX,
            0 <= n <= lines@.len(),
            start == run_start(lines@, n as int),
            0 <= start <= n,
            spans@ == spans_upto(lines@, n as int),
        decreases lines@.len() - n,
    {
        if lines[n] {
            if 0 < start && start < n {
                spans.push(Span { start: start as u32, end: n as u32 });
            }
            start = n + 1;
        }
        n += 1;
    }
    spans
}

/// Every stretch of the first list and of the second is at most `tolerance`
/// longer than any other of the two lists, and neither list is empty.
pub open spec fn evenly_spaced(rows: Seq<Span>, cols: Seq<Span>, tolerance: u32) -> bool {
    let all = rows + cols;
    &&& rows.len() > 0
    &&& cols.len() > 0
    &&& forall|i: int, j: int|
        0 <= i < all.len() && 0 <= j < all.len() ==> (#[trigger] all[i]).len() <= (
        #[trigger] all[j]).len() + tolerance
}

/// The shortest and the longest of the stretches, where there is one.
fn extremes(spans: &Vec<Span>) -> (range: (u32, u32))
    requires
        spans@.len() > 0,
        forall|i: int| 0 <= i < spans@.len() ==> (#[trigger] spans@[i]).start <= spans@[i].end,
    ensures
        forall|i: int| 0 <= i < spans@.len() ==> range.0 <= (#[trigger] spans@[i]).len() <= range.1,
        exists|i: int| 0 <= i < spans@.len() && (#[trigger] spans@[i]).len() == range.0,
        exists|i: int| 0 <= i < spans@.len() && (#[trigger] spans@[i]).len() == range.1,
{
    let first: u32 = spans[0].end - spans[0].start;
    let mut low: u32 = first;
    let mut high: u32 = first;
    let ghost mut at_low: int = 0;
    let ghost mut at_high: int = 0;
    let mut i: usize = 1;
    while i < spans.len()
        invariant
            1 <= i <= spans@.len(),
            forall|k: int| 0 <= k < spans@.len() ==> (#[trigger] spans@[k]).start <= spans@[k].end,
            forall|k: int| 0 <= k < i ==> low <= (#[trigger] spans@[k]).len() <= high,
            0 <= at_low < i && spans@[at_low].len() == low,
            0 <= at_high < i && spans@[at_high].len() == high,
        decreases spans@.len() - i,
    {
        let size: u32 = spans[i].end - spans[i].start;
        if size < low {
            low = size;
            proof {
                at_low = i as int;
            }
        }
        if size > high {
            high = size;
            proof {
                at_high = i as int;
            }
        }
        i += 1;
    }
    (low, high)
}

/// Whether the rows and the columns are all of nearly one size.
pub fn spaced_evenly(rows: &Vec<Span>, cols: &Vec<Span>, tolerance: u32) -> (even: bool)
    requires
        forall|i: int| 0 <= i < rows@.len() ==> (#[trigger] rows@[i]).start <= rows@[i].end,
        forall|i: int| 0 <= i < cols@.len() ==> (#[trigger] cols@[i]).start <= cols@[i].end,
    ensures
        even == evenly_spaced(rows@, cols@, tolerance),
{
    if rows.len() == 0 || cols.len() == 0 {
        return false;
    }
    let (row_low, row_high) = extremes(rows);
    let (col_low, col_high) = extremes(cols);
    let low: u32 = if row_low < col_low {
        row_low
    } else {
        col_low
    };
    let high: u32 = if row_high > col_high {
        row_high
    } else {
        col_high
    };
    let even: bool = high - low <= tolerance;
    proof {
        let all = rows@ + cols@;
        let at_low = if row_low < col_low {
            choose|i: int| 0 <= i < rows@.len() && (#[trigger] rows@[i]).len() == row_low
        } else {
            rows@.len() + choose|i: int|
                0 <= i < cols@.len() && (#[trigger] cols@[i]).len() == col_low
        };
        let at_high = if row_high > col_high {
            choose|i: int| 0 <= i < rows@.len() && (#[trigger] rows@[i]).len() == row_high
        } else {
            rows@.len() + choose|i: int|
                0 <= i < cols@.len() && (#[trigger] cols@[i]).len() == col_high
        };
        assert(all[at_low].len() == low);
        assert(all[at_high].len() == high);
        assert forall|i: int| 0 <= i < all.len() implies low <= (#[trigger] all[i]).len() <= high by {
            if i < rows@.len() {
                assert(all[i] == rows@[i]);
            } else {
                assert(all[i] == cols@[i - rows@.len()]);
            }
        }
        if even {
            assert forall|i: int, j: int| 0 <= i < all.len() && 0 <= j < all.len() implies (
            #[trigger] all[i]).len() <= (#[trigger] all[j]).len() + tolerance by {
                assert(low <= all[j].len());
                assert(all[i].len() <= high);
            }
        }
    }
    even
}

impl Raster {
    /// There is one intensity per pixel.
    pub open spec fn wf(&self) -> bool {
        self.pixels@.len() == self.width * self.height
    }

    /// The pixel is dark.
    pub open spec fn dark_at(&self, config: &ExtractConfig, x: int, y: int) -> bool {
        self.pixels@[y * self.width + x] < config.dark_below
    }

    /// The dark pixels of row `y` in the columns from `from` up to `to`.
    pub open spec fn dark_in_row(&self, config: &ExtractConfig, y: int, from: int, to: int) -> nat
        decreases to - from,
    {
        if to <= from {
            0
        } else {
            self.dark_in_row(config, y, from, to - 1) + if self.dark_at(config, to - 1, y) {
                1nat
            } else {
                0nat
            }
        }
    }

    /// The dark pixels of column `x` in the rows from `from` up to `to`.
    pub open spec fn dark_in_col(&self, config: &ExtractConfig, x: int, from: int, to: int) -> nat
        decreases to - from,
    {
        if to <= from {
            0
        } else {
            self.dark_in_col(config, x, from, to - 1) + if self.dark_at(config, x, to - 1) {
                1nat
            } else {
                0nat
            }
        }
    }

    /// The dark pixels of a block: of the rows from `top` up to `bottom`, in
    /// the columns of `cols`.
    pub open spec fn dark_in_block(
        &self,
        config: &ExtractConfig,
        top: int,
        bottom: int,
        cols: Span,
    ) -> nat
        decreases bottom - top,
    {
        if bottom <= top {
            0
        } else {
            self.dark_in_block(config, top, bottom - 1, cols) + self.dark_in_row(
                config,
                bottom - 1,
                cols.start as int,
                cols.end as int,
            )
        }
    }

    /// The row of pixels is a line.
    pub open spec fn row_is_line(&self, config: &ExtractConfig, y: int) -> bool {
        self.dark_in_row(config, y, 0, self.width as int) * 100 >= self.width
            * config.line_percent
    }

    /// The column of pixels is a line.
    pub open spec fn col_is_line(&self, config: &ExtractConfig, x: int) -> bool {
        self.dark_in_col(config, x, 0, self.height as int) * 100 >= self.height
            * config.line_percent
    }

    /// Which rows of pixels are lines.
    pub open spec fn row_lines(&self, config: &ExtractConfig) -> Seq<bool> {
        Seq::new(self.height as nat, |y: int| self.row_is_line(config, y))
    }

    /// Which columns of pixels are lines.
    pub open spec fn col_lines(&self, config: &ExtractConfig) -> Seq<bool> {
        Seq::new(self.width as nat, |x: int| self.col_is_line(config, x))
    }

    /// The rows of the grid, as stretches of pixel rows.
    pub open spec fn grid_rows(&self, config: &ExtractConfig) -> Seq<Span> {
        cell_spans(self.row_lines(config))
    }

    /// The columns of the grid, as stretches of pixel columns.
    pub open spec fn grid_cols(&self, config: &ExtractConfig) -> Seq<Span> {
        cell_spans(self.col_lines(config))
    }

    /// The block of pixels is a wall: more than the given share of it is
    /// dark.
    pub open spec fn is_wall_block(&self, config: &ExtractConfig, rows: Span, cols: Span) -> bool {
        self.dark_in_block(config, rows.start as int, rows.end as int, cols) * 100 > rows.len()
            * cols.len() * config.wall_percent
    }

    /// The cell of the grid is a wall.
    pub open spec fn wall_cell(&self, config: &ExtractConfig, row: int, col: int) -> bool {
        self.is_wall_block(config, self.grid_rows(config)[row], self.grid_cols(config)[col])
    }

    /// An image of the given size, where there is one intensity per pixel.
    pub fn new(width: u32, height: u32, pixels: Vec<u8>) -> (raster: Option<Raster>)
        ensures
            raster is Some <==> pixels@.len() == width * height,
            raster matches Some(r) ==> r.wf() && r.width == width && r.height == height
                && r.pixels == pixels,
    {
        let wide: u64 = width as u64;
        let high: u64 = height as u64;
        assert(wide * high <= 0xFFFF_FFFF * 0xFFFF_FFFF) by (nonlinear_arith)
            requires
                wide <= 0xFFFF_FFFF,
                high <= 0xFFFF_FFFF,
        ;
        if pixels.len() as u64 == wide * high {
            Some(Raster { width, height, pixels })
        } else {
            None
        }
    }

    /// Whether the pixel is dark.
    pub fn is_dark(&self, config: &ExtractConfig, x: u32, y: u32) -> (dark: bool)
        requires
            self.wf(),
            x < self.width,
            y < self.height,
        ensures
            dark == self.dark_at(config, x as int, y as int),
    {
        proof {
            lemma_cell_index(self.width as int, self.height as int, y as int, x as int);
        }
        let wide: usize = self.width as usize;
        let count: usize = self.pixels.len();
        assert(0 <= y * wide <= y * wide + x < count) by (nonlinear_arith)
            requires
                0 <= y * wide + x < count,
                0 <= x,
                0 <= y,
                0 <= wide,
        ;
        self.pixels[(y as usize) * wide + (x as usize)] < config.dark_below
    }

    /// Counts the dark pixels of row `y` in the columns from `from` up to
    /// `to`.
    fn count_row(&self, config: &ExtractConfig, y: u32, from: u32, to: u32) -> (dark: u32)
        requires
            self.wf(),
            y < self.height,
            from <= to <= self.width,
        ensures
            dark == self.dark_in_row(config, y as int, from as int, to as int),
            dark <= to - from,
    {
        let mut dark: u32 = 0;
        let mut x: u32 = from;
        while x < to
            invariant
                self.wf(),
                y < self.height,
                from <= x <= to <= self.width,
                dark == self.dark_in_row(config, y as int, from as int, x as int),
                dark <= x - from,
            decreases to - x,
        {
            if self.is_dark(config, x, y) {
                dark += 1;
            }
            x += 1;
        }
        dark
    }

    /// Counts the dark pixels of column `x` in the rows from `from` up to
    /// `to`.
    fn count_col(&self, config: &ExtractConfig, x: u32, from: u32, to: u32) -> (dark: u32)
        requires
            self.wf(),
            x < self.width,
            from <= to <= self.height,
        ensures
            dark == self.dark_in_col(config, x as int, from as int, to as int),
            dark <= to - from,
    {
        let mut dark: u32 = 0;
        let mut y: u32 = from;
        while y < to
            invariant
                self.wf(),
                x < self.width,
                from <= y <= to <= self.height,
                dark == self.dark_in_col(config, x as int, from as int, y as int),
                dark <= y - from,
            decreases to - y,
        {
            if self.is_dark(config, x, y) {
                dark += 1;
            }
            y += 1;
        }
        dark
    }

    /// Finds the rows of pixels that are lines.
    pub fn find_row_lines(&self, config: &ExtractConfig) -> (lines: Vec<bool>)
        requires
            self.wf(),
        ensures
            lines@ == self.row_lines(config),
    {
        let mut lines: Vec<bool> = Vec::new();
        let mut y: u32 = 0;
        while y < self.height
            invariant
                self.wf(),
                0 <= y <= self.height,
                lines@.len() == y,
                forall|i: int| 0 <= i < y ==> #[trigger] lines@[i] == self.row_is_line(config, i),
            decreases self.height - y,
        {
            let dark: u64 = self.count_row(config, y, 0, self.width) as u64;
            let wide: u64 = self.width as u64;
            let share: u64 = config.line_percent as u64;
            assert(wide * share <= 0xFFFF_FFFF * 255) by (nonlinear_arith)
                requires
                    wide <= 0xFFFF_FFFF,
                    share <= 255,
            ;
            lines.push(dark * 100 >= wide * share);
            y += 1;
        }
        assert(lines@ =~= self.row_lines(config));
        lines
    }

    /// Finds the columns of pixels that are lines.
    pub fn find_col_lines(&self, config: &ExtractConfig) -> (lines: Vec<bool>)
        requires
            self.wf(),
        ensures
            lines@ == self.col_lines(config),
    {
        let mut lines: Vec<bool> = Vec::new();
        let mut x: u32 = 0;
        while x < self.width
            invariant
                self.wf(),
                0 <= x <= self.width,
                lines@.len() == x,
                forall|i: int| 0 <= i < x ==> #[trigger] lines@[i] == self.col_is_line(config, i),
            decreases self.width - x,
        {
            let dark: u64 = self.count_col(config, x, 0, self.height) as u64;
            let high: u64 = self.height as u64;
            let share: u64 = config.line_percent as u64;
            assert(high * share <= 0xFFFF_FFFF * 255) by (nonlinear_arith)
                requires
                    high <= 0xFFFF_FFFF,
                    share <= 255,
            ;
            lines.push(dark * 100 >= high * share);
            x += 1;
        }
        assert(lines@ =~= self.col_lines(config));
        lines
    }

    /// Whether a block of pixels is a wall.
    pub fn block_is_wall(&self, config: &ExtractConfig, rows: Span, cols: Span) -> (wall: bool)
        requires
            self.wf(),
            rows.start <= rows.end <= self.height,
            cols.start <= cols.end <= self.width,
        ensures
            wall == self.is_wall_block(config, rows, cols),
    {
        let mut dark: u64 = 0;
        let mut y: u32 = rows.start;
        while y < rows.end
            invariant
                self.wf(),
                rows.start <= y <= rows.end <= self.height,
                cols.start <= cols.end <= self.width,
                dark == self.dark_in_block(config, rows.start as int, y as int, cols),
                dark <= (y - rows.start) * 0x1_0000_0000,
            decreases rows.end - y,
        {
            let more: u32 = self.count_row(config, y, cols.start, cols.end);
            dark += more as u64;
            y += 1;
        }
        let high: u128 = (rows.end - rows.start) as u128;
        let wide: u128 = (cols.end - cols.start) as u128;
        let share: u128 = config.wall_percent as u128;
        assert(high * wide <= 0xFFFF_FFFF * 0xFFFF_FFFF) by (nonlinear_arith)
            requires
                high <= 0xFFFF_FFFF,
                wide <= 0xFFFF_FFFF,
        ;
        let area: u128 = high * wide;
        assert(area * share <= 0xFFFF_FFFF * 0xFFFF_FFFF * 255) by (nonlinear_arith)
            requires
                area <= 0xFFFF_FFFF * 0xFFFF_FFFF,
                share <= 255,
        ;
        (dark as u128) * 100 > area * share
    }
}

/// The cell is as its block of pixels says: a wall, or a cell of several
/// characters where it is marked as one, or else a cell of one letter; what
/// an open cell holds is a placeholder.
pub open spec fn classified(cell: CrosswordCell, wall: bool, rebus: bool) -> bool {
    if wall {
        cell is Wall
    } else if rebus {
        cell matches CrosswordCell::Rebus(text) && text@ == seq![PLACEHOLDER, PLACEHOLDER]
    } else {
        cell == CrosswordCell::Letter(PLACEHOLDER)
    }
}

/// Why the image gives no grid, if it gives none: its rows and columns are
/// not of one size, or are too many, or every cell is a wall.
pub open spec fn extraction_fault(raster: &Raster, config: &ExtractConfig) -> Option<
    ExtractionError,
> {
    let rows = raster.grid_rows(config);
    let cols = raster.grid_cols(config);
    if !evenly_spaced(rows, cols, config.tolerance) {
        Some(ExtractionError::NoGridDetected)
    } else if rows.len() > 255 || cols.len() > 255 {
        Some(ExtractionError::Oversize)
    } else if forall|r: int, c: int|
        0 <= r < rows.len() && 0 <= c < cols.len() ==> #[trigger] raster.wall_cell(config, r, c) {
        Some(ExtractionError::NoUsableCell)
    } else {
        None
    }
}

/// An image whose lines part it into more than 255 rows or columns gives no
/// grid, however even the rows and columns are.
pub proof fn lemma_oversize_fails(raster: &Raster, config: &ExtractConfig)
    requires
        raster.grid_rows(config).len() > 255 || raster.grid_cols(config).len() > 255,
    ensures
        extraction_fault(raster, config) is Some,
        evenly_spaced(raster.grid_rows(config), raster.grid_cols(config), config.tolerance)
            ==> extraction_fault(raster, config) == Some(ExtractionError::Oversize),
{
}

/// The grid is the one that the image shows: it has the rows and columns
/// that the lines part the image into, and each cell is as its block of
/// pixels says.
pub open spec fn extracted(raster: &Raster, config: &ExtractConfig, grid: CrosswordGrid) -> bool {
    &&& grid.shaped()
    &&& grid.height == raster.grid_rows(config).len()
    &&& grid.width == raster.grid_cols(config).len()
    &&& forall|r: int, c: int|
        0 <= r < grid.height && 0 <= c < grid.width ==> classified(
            #[trigger] grid.cell_at(r, c),
            raster.wall_cell(config, r, c),
            config.marks_rebus(r, c),
        )
}

/// Reads the grid off an image: one cell for each crossing of a row and a
/// column between the lines. It fails where the rows and columns are not of
/// one size, where there are more than 255 of either, and where every cell
/// is a wall.
pub fn extract_grid(raster: &Raster, config: &ExtractConfig) -> (outcome: Result<
    CrosswordGrid,
    ExtractionError,
>)
    requires
        raster.wf(),
    ensures
        match outcome {
            Ok(grid) => extraction_fault(raster, config) is None && extracted(raster, config, grid),
            Err(e) => extraction_fault(raster, config) == Some(e),
        },
{
    let row_lines = raster.find_row_lines(config);
    let col_lines = raster.find_col_lines(config);
    let rows = find_spans(&row_lines);
    let cols = find_spans(&col_lines);
    proof {
        assert forall|i: int| 0 <= i < rows@.len() implies (#[trigger] rows@[i]).start
            < rows@[i].end < raster.height by {
            lemma_spans_sound(row_lines@, row_lines@.len() as int, i);
        }
        assert forall|i: int| 0 <= i < cols@.len() implies (#[trigger] cols@[i]).start
            < cols@[i].end < raster.width by {
            lemma_spans_sound(col_lines@, col_lines@.len() as int, i);
        }
    }
    if !spaced_evenly(&rows, &cols, config.tolerance) {
        return Err(ExtractionError::NoGridDetected);
    }
    if rows.len() > 255 || cols.len() > 255 {
        return Err(ExtractionError::Oversize);
    }
    let height: usize = rows.len();
    let width: usize = cols.len();
    let mut cells: Vec<CrosswordCell> = Vec::new();
    let mut usable: bool = false;
    let ghost mut open_row: int = 0;
    let ghost mut open_col: int = 0;
    let mut r: usize = 0;
    while r < height
        invariant
            raster.wf(),
            rows@ == raster.grid_rows(config),
            cols@ == raster.grid_cols(config),
            height == rows@.len(),
            width == cols@.len(),
            1 <= height <= 255,
            1 <= width <= 255,
            0 <= r <= height,
            forall|i: int|
                0 <= i < rows@.len() ==> (#[trigger] rows@[i]).start < rows@[i].end
                    < raster.height,
            forall|i: int|
                0 <= i < cols@.len() ==> (#[trigger] cols@[i]).start < cols@[i].end
                    < raster.width,
            cells@.len() == r * width,
            forall|i: int, j: int|
                0 <= i < r && 0 <= j < width ==> classified(
                    #[trigger] cells@[i * width + j],
                    raster.wall_cell(config, i, j),
                    config.marks_rebus(i, j),
                ),
            usable ==> 0 <= open_row < r && 0 <= open_col < width && !raster.wall_cell(
                config,
                open_row,
                open_col,
            ),
            !usable ==> forall|i: int, j: int|
                0 <= i < r && 0 <= j < width ==> #[trigger] raster.wall_cell(config, i, j),
        decreases height - r,
    {
        let mut c: usize = 0;
        while c < width
            invariant
                raster.wf(),
                rows@ == raster.grid_rows(config),
                cols@ == raster.grid_cols(config),
                height == rows@.len(),
                width == cols@.len(),
                1 <= height <= 255,
                1 <= width <= 255,
                0 <= r < height,
                0 <= c <= width,
                forall|i: int|
                    0 <= i < rows@.len() ==> (#[trigger] rows@[i]).start < rows@[i].end
                        < raster.height,
                forall|i: int|
                    0 <= i < cols@.len() ==> (#[trigger] cols@[i]).start < cols@[i].end
                        < raster.width,
                cells@.len() == r * width + c,
                forall|i: int, j: int|
                    0 <= i < r && 0 <= j < width ==> classified(
                        #[trigger] cells@[i * width + j],
                        raster.wall_cell(config, i, j),
                        config.marks_rebus(i, j),
                    ),
                forall|j: int|
                    0 <= j < c ==> classified(
                        #[trigger] cells@[r * width + j],
                        raster.wall_cell(config, r as int, j),
                        config.marks_rebus(r as int, j),
                    ),
                usable ==> 0 <= open_row <= r && 0 <= open_col < width && (open_row < r
                    || open_col < c) && !raster.wall_cell(config, open_row, open_col),
                !usable ==> forall|i: int, j: int|
                    0 <= i < r && 0 <= j < width ==> #[trigger] raster.wall_cell(config, i, j),
                !usable ==> forall|j: int|
                    0 <= j < c ==> #[trigger] raster.wall_cell(config, r as int, j),
            decreases width - c,
        {
            let ghost before = cells@;
            let wall: bool = raster.block_is_wall(config, rows[r], cols[c]);
            if wall {
                cells.push(CrosswordCell::Wall);
            } else {
                if config.is_rebus(r as u8, c as u8) {
                    let mut text = String::from_str("X");
                    text.append("X");
                    proof {
                        reveal_strlit("X");
                        assert(text@ =~= seq![PLACEHOLDER, PLACEHOLDER]);
                    }
                    cells.push(CrosswordCell::Rebus(text));
                } else {
                    cells.push(CrosswordCell::Letter(PLACEHOLDER));
                }
                usable = true;
                proof {
                    open_row = r as int;
                    open_col = c as int;
                }
            }
            proof {
                assert forall|i: int, j: int| 0 <= i < r && 0 <= j < width implies classified(
                    #[trigger] cells@[i * width + j],
                    raster.wall_cell(config, i, j),
                    config.marks_rebus(i, j),
                ) by {
                    lemma_cell_index(width as int, r as int, i, j);
                    assert(cells@[i * width + j] == before[i * width + j]);
                }
                assert forall|j: int| 0 <= j < c + 1 implies classified(
                    #[trigger] cells@[r * width + j],
                    raster.wall_cell(config, r as int, j),
                    config.marks_rebus(r as int, j),
                ) by {
                    if j < c {
                        assert(cells@[r * width + j] == before[r * width + j]);
                    }
                }
            }
            c += 1;
        }
        proof {
            assert((r + 1) * width == r * width + width) by (nonlinear_arith);
            assert forall|i: int, j: int| 0 <= i < r + 1 && 0 <= j < width implies classified(
                #[trigger] cells@[i * width + j],
                raster.wall_cell(config, i, j),
                config.marks_rebus(i, j),
            ) by {
                if i == r {
                    assert(cells@[r * width + j] == cells@[i * width + j]);
                }
            }
        }
        r += 1;
    }
    if !usable {
        return Err(ExtractionError::NoUsableCell);
    }
    let grid = CrosswordGrid { width: width as u8, height: height as u8, cells };
    proof {
        assert(raster.wall_cell(config, open_row, open_col) == false);
        assert(grid.cells@.len() == grid.width * grid.height) by (nonlinear_arith)
            requires
                grid.cells@.len() == height * width,
                grid.width == width,
                grid.height == height,
        ;
    }
    Ok(grid)
}

} // verus!
