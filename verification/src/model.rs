//! The crossword as a whole: grid, clues and credits, and its `.puz` file.

use crate::clues::{check_clues, claimed_numbers, clue_mismatch, clue_pairs};
use crate::grid::{CrosswordCell, CrosswordGrid};
use crate::numbering::{
    grid_starts, lemma_starts_of_prefix, lemma_starts_of_push, number_grid, numbered_before,
    numbers_of, starts_at, starts_before, starts_in_direction, starts_of, ClueStart, Direction,
};
use crate::multi_error::{message_view, with_fault, MultiError};
use crate::puz::{append_bytes, PuzContent, PuzFile, HEADER_LEN, WIDTH_AT};
use crate::text::{encode_text, text_bytes, text_representable};
use vstd::prelude::*;

verus! {

/// The byte of a wall, in the solution and in the player's state.
pub const WALL_BYTE: u8 = 0x2E;

/// The byte of a cell that the player has not filled.
pub const BLANK_BYTE: u8 = 0x2D;

/// A clue: the number of its entry and its text.
pub type Clue = (u16, String);

/// Why a crossword has no file.
#[derive(Debug, Clone, Copy, PartialEq, Eq, Structural)]
pub enum EncodingError {
    /// A text or a letter holds a character that has no byte in the file.
    Unrepresentable,
    /// A cell holds more than one character.
    UnsupportedRebus,
}

/// Why the encoder gave no file.
#[derive(Debug, Clone, Copy, PartialEq, Eq, Structural)]
pub enum EncodeError {
    /// The crossword breaks its own invariant: the grid is no grid, or the
    /// clues are not those of its entries.
    InternalInvariant,
    /// The crossword is sound, and something in it cannot be written.
    Encoding(EncodingError),
}

impl EncodingError {
    /// The message as text.
    pub open spec fn message_text(&self) -> Seq<char> {
        match self {
            EncodingError::Unrepresentable => "contains a character that cannot be written"@,
            EncodingError::UnsupportedRebus => "cells with more than one letter are not supported"@,
        }
    }

    /// A message for the person who made the crossword.
    pub fn message(&self) -> (text: String)
        ensures
            text@ == self.message_text(),
    {
        match self {
            EncodingError::Unrepresentable => String::from_str(
                "contains a character that cannot be written",
            ),
            EncodingError::UnsupportedRebus => String::from_str(
                "cells with more than one letter are not supported",
            ),
        }
    }
}

/// What is wrong with a text, if anything is.
pub open spec fn text_fault(text: Seq<char>) -> Option<Seq<char>> {
    if text_representable(text) {
        None
    } else {
        Some(EncodingError::Unrepresentable.message_text())
    }
}

/// A crossword: its grid, the clues of each direction in the order of their
/// entries, and its credits.
#[derive(Debug, Clone, PartialEq, Eq)]
pub struct CrosswordModel {
    pub grid: CrosswordGrid,
    pub across_clues: Vec<Clue>,
    pub down_clues: Vec<Clue>,
    pub title: String,
    pub author: String,
    pub copyright: String,
    pub notes: String,
}

/// A letter that the solution can hold: a visible ASCII character other than
/// the full stop, which stands for a wall.
pub open spec fn letter_encodable(c: char) -> bool {
    0x21 <= c as u32 <= 0x7E && c != '.'
}

/// The byte of a letter: the letter in upper case.
pub open spec fn upper_byte(c: char) -> u8 {
    if 'a' <= c <= 'z' {
        (c as u32 - 0x20) as u8
    } else {
        (c as u32) as u8
    }
}

/// What keeps a cell out of the file, if anything does.
pub open spec fn cell_fault(cell: CrosswordCell) -> Option<EncodingError> {
    match cell {
        CrosswordCell::Wall => None,
        CrosswordCell::Letter(c) => if letter_encodable(c) {
            None
        } else {
            Some(EncodingError::Unrepresentable)
        },
        CrosswordCell::Rebus(_) => Some(EncodingError::UnsupportedRebus),
    }
}

/// The fault of the first cell that has one.
pub open spec fn cells_fault(cells: Seq<CrosswordCell>) -> Option<EncodingError>
    decreases cells.len(),
{
    if cells.len() == 0 {
        None
    } else {
        match cells_fault(cells.drop_last()) {
            Some(e) => Some(e),
            None => cell_fault(cells.last()),
        }
    }
}

/// The byte of a cell in the solution: a letter in upper case, the wall byte
/// for a wall. A cell of several characters has no byte of its own; such a
/// crossword has no file.
pub open spec fn solution_byte(cell: CrosswordCell) -> u8 {
    match cell {
        CrosswordCell::Letter(c) => upper_byte(c),
        _ => WALL_BYTE,
    }
}

/// The byte of a cell in the player's state: every open cell is blank.
pub open spec fn state_byte(cell: CrosswordCell) -> u8 {
    if cell.is_wall() {
        WALL_BYTE
    } else {
        BLANK_BYTE
    }
}

/// The solution: one byte per cell, row by row.
pub open spec fn solution_bytes(cells: Seq<CrosswordCell>) -> Seq<u8> {
    cells.map_values(|cell: CrosswordCell| solution_byte(cell))
}

/// The player's state: one byte per cell, row by row.
pub open spec fn state_bytes(cells: Seq<CrosswordCell>) -> Seq<u8> {
    cells.map_values(|cell: CrosswordCell| state_byte(cell))
}

/// The texts of a list of clues.
pub open spec fn clue_texts(clues: Seq<Clue>) -> Seq<Seq<char>> {
    clues.map_values(|clue: Clue| clue.1@)
}

/// Every text of the list can be written.
pub open spec fn texts_representable(texts: Seq<Seq<char>>) -> bool {
    forall|i: int| 0 <= i < texts.len() ==> text_representable(#[trigger] texts[i])
}

/// The texts of a list as bytes.
pub open spec fn texts_bytes(texts: Seq<Seq<char>>) -> Seq<Seq<u8>> {
    texts.map_values(|text: Seq<char>| text_bytes(text))
}

/// The clues in the order of the file: by the cell in which their entry
/// starts and, in one cell, across before down. The clue of an entry is found
/// by the entry's place among the entries of its direction.
pub open spec fn clue_order(starts: Seq<ClueStart>, across: Seq<Seq<u8>>, down: Seq<Seq<u8>>) -> Seq<
    Seq<u8>,
>
    decreases starts.len(),
{
    if starts.len() == 0 {
        Seq::empty()
    } else {
        let earlier = starts.drop_last();
        let clue = match starts.last().direction {
            Direction::Across => across[starts_of(earlier, Direction::Across).len() as int],
            Direction::Down => down[starts_of(earlier, Direction::Down).len() as int],
        };
        clue_order(earlier, across, down).push(clue)
    }
}

/// The file has one clue for each entry.
pub proof fn lemma_clue_order_len(starts: Seq<ClueStart>, across: Seq<Seq<u8>>, down: Seq<Seq<u8>>)
    ensures
        clue_order(starts, across, down).len() == starts.len(),
    decreases starts.len(),
{
    if starts.len() > 0 {
        lemma_clue_order_len(starts.drop_last(), across, down);
    }
}

impl CrosswordModel {
    /// The entries of the grid in one direction.
    pub open spec fn entries(&self, direction: Direction) -> Seq<ClueStart> {
        starts_of(grid_starts(&self.grid), direction)
    }

    /// The crossword's invariant, as far as it is about the puzzle itself:
    /// the grid is a grid, each direction has one clue for each of its
    /// entries, numbered as the entry is.
    pub open spec fn consistent(&self) -> bool {
        &&& self.grid.wf()
        &&& clue_mismatch(
            claimed_numbers(self.across_clues@),
            numbers_of(self.entries(Direction::Across)),
        ) is None
        &&& clue_mismatch(
            claimed_numbers(self.down_clues@),
            numbers_of(self.entries(Direction::Down)),
        ) is None
    }

    /// Every text of the crossword can be written.
    pub open spec fn writable_texts(&self) -> bool {
        &&& text_representable(self.title@)
        &&& text_representable(self.author@)
        &&& text_representable(self.copyright@)
        &&& text_representable(self.notes@)
        &&& texts_representable(clue_texts(self.across_clues@))
        &&& texts_representable(clue_texts(self.down_clues@))
    }

    /// The crossword has a file: it is consistent, every cell holds a wall or
    /// a letter that can be written, and every text can be written.
    pub open spec fn valid(&self) -> bool {
        &&& self.consistent()
        &&& cells_fault(self.grid.cells@) is None
        &&& self.writable_texts()
    }

    /// Why the crossword has no file, if it has none: a broken invariant
    /// before anything else, then the first cell that cannot be written, then
    /// a text that cannot.
    pub open spec fn encode_fault(&self) -> Option<EncodeError> {
        if !self.consistent() {
            Some(EncodeError::InternalInvariant)
        } else if cells_fault(self.grid.cells@) is Some {
            Some(EncodeError::Encoding(cells_fault(self.grid.cells@)->0))
        } else if !self.writable_texts() {
            Some(EncodeError::Encoding(EncodingError::Unrepresentable))
        } else {
            None
        }
    }

    /// The clues of one direction.
    pub open spec fn clues_of(&self, direction: Direction) -> Seq<Clue> {
        match direction {
            Direction::Across => self.across_clues@,
            Direction::Down => self.down_clues@,
        }
    }

    /// What is wrong with the grid, if anything is: the first rule of a grid
    /// that it breaks, or else the first cell that cannot be written.
    pub open spec fn grid_fault(&self) -> Option<Seq<char>> {
        match self.grid.first_fault() {
            Some(e) => Some(e.message_text()),
            None => match cells_fault(self.grid.cells@) {
                Some(e) => Some(e.message_text()),
                None => None,
            },
        }
    }

    /// What is wrong with the clues of one direction, if anything is: how
    /// they disagree with the entries of the grid, where the grid has a shape
    /// to number, or else that one of them cannot be written.
    pub open spec fn clues_fault(&self, direction: Direction) -> Option<Seq<char>> {
        let mismatch = if self.grid.shaped() {
            clue_mismatch(
                claimed_numbers(self.clues_of(direction)),
                numbers_of(self.entries(direction)),
            )
        } else {
            None
        };
        match mismatch {
            Some(e) => Some(e.message_text()),
            None => if texts_representable(clue_texts(self.clues_of(direction))) {
                None
            } else {
                Some(EncodingError::Unrepresentable.message_text())
            },
        }
    }

    /// Everything that is wrong with the crossword, by field: `grid`,
    /// `across_clues`, `down_clues`, `title`, `author`, `copyright`, `notes`.
    /// Each field is judged by itself, and a field without fault is absent.
    pub open spec fn faults(&self) -> Map<Seq<char>, Seq<char>> {
        with_fault(
            with_fault(
                with_fault(
                    with_fault(
                        with_fault(
                            with_fault(
                                with_fault(Map::empty(), "grid"@, self.grid_fault()),
                                "across_clues"@,
                                self.clues_fault(Direction::Across),
                            ),
                            "down_clues"@,
                            self.clues_fault(Direction::Down),
                        ),
                        "title"@,
                        text_fault(self.title@),
                    ),
                    "author"@,
                    text_fault(self.author@),
                ),
                "copyright"@,
                text_fault(self.copyright@),
            ),
            "notes"@,
            text_fault(self.notes@),
        )
    }

    /// The crossword has a file exactly when no field has a fault.
    pub proof fn lemma_valid_iff_no_fault(&self)
        ensures
            self.valid() <==> self.faults() =~= Map::<Seq<char>, Seq<char>>::empty(),
            self.valid() <==> {
                &&& self.grid_fault() is None
                &&& self.clues_fault(Direction::Across) is None
                &&& self.clues_fault(Direction::Down) is None
                &&& text_fault(self.title@) is None
                &&& text_fault(self.author@) is None
                &&& text_fault(self.copyright@) is None
                &&& text_fault(self.notes@) is None
            },
    {
        self.grid.lemma_first_fault();
        let r1 = with_fault(Map::empty(), "grid"@, self.grid_fault());
        let r2 = with_fault(r1, "across_clues"@, self.clues_fault(Direction::Across));
        let r3 = with_fault(r2, "down_clues"@, self.clues_fault(Direction::Down));
        let r4 = with_fault(r3, "title"@, text_fault(self.title@));
        let r5 = with_fault(r4, "author"@, text_fault(self.author@));
        let r6 = with_fault(r5, "copyright"@, text_fault(self.copyright@));
        let r7 = with_fault(r6, "notes"@, text_fault(self.notes@));
        assert(r7 == self.faults());
        if self.grid_fault() is Some {
            assert(r1.dom().contains("grid"@));
            assert(r7.dom().contains("grid"@));
        }
        if self.clues_fault(Direction::Across) is Some {
            assert(r2.dom().contains("across_clues"@));
            assert(r7.dom().contains("across_clues"@));
        }
        if self.clues_fault(Direction::Down) is Some {
            assert(r3.dom().contains("down_clues"@));
            assert(r7.dom().contains("down_clues"@));
        }
        if text_fault(self.title@) is Some {
            assert(r4.dom().contains("title"@));
            assert(r7.dom().contains("title"@));
        }
        if text_fault(self.author@) is Some {
            assert(r5.dom().contains("author"@));
            assert(r7.dom().contains("author"@));
        }
        if text_fault(self.copyright@) is Some {
            assert(r6.dom().contains("copyright"@));
            assert(r7.dom().contains("copyright"@));
        }
        if text_fault(self.notes@) is Some {
            assert(r7.dom().contains("notes"@));
        }
    }

    /// A crossword whose grid has a row of walls alone is not valid: it has
    /// no file, its assembly fails, and the report names the grid.
    pub proof fn lemma_wall_row_fails(&self, row: int)
        requires
            0 <= row < self.grid.height,
            self.grid.row_walled(row, self.grid.width as int),
        ensures
            !self.valid(),
            self.encode_fault() == Some(EncodeError::InternalInvariant),
            self.faults().dom().contains("grid"@),
    {
        self.lemma_valid_iff_no_fault();
        self.grid.lemma_first_fault();
        assert(!self.grid.wf());
        assert(self.grid_fault() is Some);
        lemma_faults_keep(self);
    }

    /// What the file holds besides its checksums.
    pub open spec fn layout(&self) -> PuzFile {
        PuzFile {
            width: self.grid.width,
            height: self.grid.height,
            solution: solution_bytes(self.grid.cells@),
            state: state_bytes(self.grid.cells@),
            title: text_bytes(self.title@),
            author: text_bytes(self.author@),
            copyright: text_bytes(self.copyright@),
            clues: clue_order(
                grid_starts(&self.grid),
                texts_bytes(clue_texts(self.across_clues@)),
                texts_bytes(clue_texts(self.down_clues@)),
            ),
            notes: text_bytes(self.notes@),
        }
    }

    /// The crossword's file.
    pub open spec fn puz_bytes(&self) -> Seq<u8> {
        self.layout().bytes()
    }

    /// The width of the grid.
    pub fn width(&self) -> (width: u8)
        ensures
            width == self.grid.width,
    {
        self.grid.width
    }

    /// The height of the grid.
    pub fn height(&self) -> (height: u8)
        ensures
            height == self.grid.height,
    {
        self.grid.height
    }

    /// Writes the crossword's file, or says why it has none.
    pub fn encode(&self) -> (outcome: Result<Vec<u8>, EncodeError>)
        ensures
            outcome is Ok <==> self.valid(),
            outcome matches Ok(file) ==> file@ == self.puz_bytes(),
            outcome matches Err(e) ==> self.encode_fault() == Some(e),
    {
        if self.grid.check().is_err() {
            return Err(EncodeError::InternalInvariant);
        }
        let starts = number_grid(&self.grid);
        let across_starts = starts_in_direction(&starts, Direction::Across);
        let down_starts = starts_in_direction(&starts, Direction::Down);
        if check_clues(&self.across_clues, &across_starts).is_err() {
            return Err(EncodeError::InternalInvariant);
        }
        if check_clues(&self.down_clues, &down_starts).is_err() {
            return Err(EncodeError::InternalInvariant);
        }
        assert(self.consistent());
        let (solution, state) = match encode_cells(&self.grid.cells) {
            Ok(grids) => grids,
            Err(e) => {
                return Err(EncodeError::Encoding(e));
            },
        };
        let title = encode_text(self.title.as_str());
        let author = encode_text(self.author.as_str());
        let copyright = encode_text(self.copyright.as_str());
        let notes = encode_text(self.notes.as_str());
        let across = encode_clue_texts(&self.across_clues);
        let down = encode_clue_texts(&self.down_clues);
        match (title, author, copyright, notes, across, down) {
            (Some(title), Some(author), Some(copyright), Some(notes), Some(across), Some(down)) => {
                proof {
                    assert(claimed_numbers(self.across_clues@).len() == numbers_of(
                        across_starts@,
                    ).len());
                    assert(claimed_numbers(self.down_clues@).len() == numbers_of(
                        down_starts@,
                    ).len());
                }
                let clues = order_clues(&starts, &across, &down);
                let content = PuzContent {
                    width: self.grid.width,
                    height: self.grid.height,
                    solution,
                    state,
                    title,
                    author,
                    copyright,
                    clues,
                    notes,
                };
                proof {
                    assert(content@.clues =~= self.layout().clues);
                    assert(content@ == self.layout());
                    lemma_clue_order_len(
                        starts@,
                        across@.map_values(|clue: Vec<u8>| clue@),
                        down@.map_values(|clue: Vec<u8>| clue@),
                    );
                }
                Ok(content.write())
            },
            _ => Err(EncodeError::Encoding(EncodingError::Unrepresentable)),
        }
    }

    /// What is wrong with the grid, if anything is.
    fn grid_fault_message(&self) -> (fault: Option<String>)
        ensures
            message_view(fault) == self.grid_fault(),
    {
        match self.grid.check() {
            Err(e) => Some(e.message()),
            Ok(()) => match encode_cells(&self.grid.cells) {
                Err(e) => Some(e.message()),
                Ok(_) => None,
            },
        }
    }

    /// What is wrong with the clues of one direction, if anything is.
    fn clues_fault_message(&self, direction: Direction) -> (fault: Option<String>)
        ensures
            message_view(fault) == self.clues_fault(direction),
    {
        let clues = match direction {
            Direction::Across => &self.across_clues,
            Direction::Down => &self.down_clues,
        };
        if self.grid.is_shaped() {
            let starts = number_grid(&self.grid);
            let wanted = starts_in_direction(&starts, direction);
            match check_clues(clues, &wanted) {
                Err(e) => {
                    return Some(e.message());
                },
                Ok(()) => {},
            }
        }
        match encode_clue_texts(clues) {
            Some(_) => None,
            None => Some(EncodingError::Unrepresentable.message()),
        }
    }

    /// Judges every field of the crossword, each by itself, and reports all
    /// faults together; a crossword without fault has a file.
    pub fn validate(&self) -> (outcome: Result<(), MultiError>)
        ensures
            outcome is Ok <==> self.valid(),
            outcome matches Err(report) ==> report.wf() && report@ == self.faults(),
    {
        let mut report = MultiError::new();
        report.note("grid", self.grid_fault_message());
        report.note("across_clues", self.clues_fault_message(Direction::Across));
        report.note("down_clues", self.clues_fault_message(Direction::Down));
        report.note("title", text_fault_message(&self.title));
        report.note("author", text_fault_message(&self.author));
        report.note("copyright", text_fault_message(&self.copyright));
        report.note("notes", text_fault_message(&self.notes));
        proof {
            self.lemma_valid_iff_no_fault();
        }
        if report.is_empty() {
            Ok(())
        } else {
            Err(report)
        }
    }

    /// Brings grid, clues and credits together into a crossword that has a
    /// file, or reports everything that is wrong with them.
    pub fn assemble(
        grid: CrosswordGrid,
        across_clues: Vec<Clue>,
        down_clues: Vec<Clue>,
        title: String,
        author: String,
        copyright: String,
        notes: String,
    ) -> (outcome: Result<CrosswordModel, MultiError>)
        ensures
            outcome is Ok <==> (CrosswordModel {
                grid,
                across_clues,
                down_clues,
                title,
                author,
                copyright,
                notes,
            }).valid(),
            outcome matches Ok(model) ==> model == (CrosswordModel {
                grid,
                across_clues,
                down_clues,
                title,
                author,
                copyright,
                notes,
            }),
            outcome matches Err(report) ==> report.wf() && report@ == (CrosswordModel {
                grid,
                across_clues,
                down_clues,
                title,
                author,
                copyright,
                notes,
            }).faults(),
    {
        let model = CrosswordModel { grid, across_clues, down_clues, title, author, copyright, notes };
        match model.validate() {
            Ok(()) => Ok(model),
            Err(report) => Err(report),
        }
    }

    /// The file of a crossword that has one.
    pub fn as_puz(&self) -> (file: Vec<u8>)
        requires
            self.valid(),
        ensures
            file@ == self.puz_bytes(),
    {
        match self.encode() {
            Ok(file) => file,
            Err(_) => Vec::new(),
        }
    }
}

/// What is wrong with a text, if anything is.
fn text_fault_message(text: &String) -> (fault: Option<String>)
    ensures
        message_view(fault) == text_fault(text@),
{
    match encode_text(text.as_str()) {
        Some(_) => None,
        None => Some(EncodingError::Unrepresentable.message()),
    }
}

/// A grid with a fault is named in the report, whatever else is.
proof fn lemma_faults_keep(model: &CrosswordModel)
    requires
        model.grid_fault() is Some,
    ensures
        model.faults().dom().contains("grid"@),
{
    let r1 = with_fault(Map::empty(), "grid"@, model.grid_fault());
    let r2 = with_fault(r1, "across_clues"@, model.clues_fault(Direction::Across));
    let r3 = with_fault(r2, "down_clues"@, model.clues_fault(Direction::Down));
    let r4 = with_fault(r3, "title"@, text_fault(model.title@));
    let r5 = with_fault(r4, "author"@, text_fault(model.author@));
    let r6 = with_fault(r5, "copyright"@, text_fault(model.copyright@));
    assert(r1.dom().contains("grid"@));
    assert(r2.dom().contains("grid"@));
    assert(r3.dom().contains("grid"@));
    assert(r4.dom().contains("grid"@));
    assert(r5.dom().contains("grid"@));
    assert(r6.dom().contains("grid"@));
}

/// The cell that a byte of the solution stands for.
pub open spec fn decoded_cell(byte: u8) -> CrosswordCell {
    if byte == WALL_BYTE {
        CrosswordCell::Wall
    } else {
        CrosswordCell::Letter(byte as char)
    }
}

/// The bytes of a file that hold its solution, where the file is long enough
/// to hold a header and one byte per cell.
pub open spec fn solution_region(file: Seq<u8>) -> Option<Seq<u8>> {
    if file.len() >= HEADER_LEN && file.len() >= HEADER_LEN + file[WIDTH_AT as int] * file[WIDTH_AT
        + 1] {
        Some(
            file.subrange(
                HEADER_LEN as int,
                HEADER_LEN + file[WIDTH_AT as int] * file[WIDTH_AT + 1],
            ),
        )
    } else {
        None
    }
}

/// Reads the solution of a file back: the grid's sides from the header and
/// one cell per byte of the solution, a wall for the wall byte and a letter
/// for any other.
pub fn read_solution(file: &Vec<u8>) -> (grid: Option<CrosswordGrid>)
    ensures
        match grid {
            Some(g) => {
                &&& solution_region(file@) is Some
                &&& g.width == file@[WIDTH_AT as int]
                &&& g.height == file@[WIDTH_AT + 1]
                &&& g.cells@ == solution_region(file@)->0.map_values(|byte: u8| decoded_cell(byte))
            },
            None => solution_region(file@) is None,
        },
{
    if file.len() < HEADER_LEN {
        return None;
    }
    let width: u8 = file[WIDTH_AT];
    let height: u8 = file[WIDTH_AT + 1];
    let count: usize = {
        let wide: usize = width as usize;
        let high: usize = height as usize;
        assert(wide * high <= 255 * 255) by (nonlinear_arith)
            requires
                wide <= 255,
                high <= 255,
        ;
        wide * high
    };
    if file.len() - HEADER_LEN < count {
        return None;
    }
    let ghost region = file@.subrange(HEADER_LEN as int, HEADER_LEN + count);
    let mut cells: Vec<CrosswordCell> = Vec::new();
    let mut i: usize = 0;
    while i < count
        invariant
            0 <= i <= count,
            HEADER_LEN + count <= file@.len() <= usize::MAX,
            region == file@.subrange(HEADER_LEN as int, HEADER_LEN + count),
            cells@ == region.take(i as int).map_values(|byte: u8| decoded_cell(byte)),
        decreases count - i,
    {
        let byte: u8 = file[HEADER_LEN + i];
        if byte == WALL_BYTE {
            cells.push(CrosswordCell::Wall);
        } else {
            cells.push(CrosswordCell::Letter(byte as char));
        }
        assert(cells@ =~= region.take(i + 1).map_values(|byte: u8| decoded_cell(byte)));
        i += 1;
    }
    assert(region.take(i as int) =~= region);
    Some(CrosswordGrid { width, height, cells })
}

/// Reading the solution of a crossword's file gives the crossword's grid
/// back: the same sides, a wall exactly where the grid has one, and each
/// letter in upper case.
pub proof fn lemma_solution_round_trip(model: &CrosswordModel)
    requires
        model.valid(),
    ensures
        model.puz_bytes()[WIDTH_AT as int] == model.grid.width,
        model.puz_bytes()[WIDTH_AT + 1] == model.grid.height,
        solution_region(model.puz_bytes()) == Some(solution_bytes(model.grid.cells@)),
        forall|i: int|
            0 <= i < model.grid.cells@.len() ==> (#[trigger] decoded_cell(
                solution_bytes(model.grid.cells@)[i],
            )).is_wall() == model.grid.cells@[i].is_wall(),
        forall|i: int|
            0 <= i < model.grid.cells@.len() ==> (#[trigger] model.grid.cells@[i] matches CrosswordCell::Letter(
                c,
            ) ==> decoded_cell(solution_bytes(model.grid.cells@)[i]) == CrosswordCell::Letter(
                upper_byte(c) as char,
            )),
{
    let layout = model.layout();
    let file = model.puz_bytes();
    let header = layout.header();
    let cells = model.grid.cells@;
    assert(header.len() == HEADER_LEN);
    assert(layout.solution.len() == cells.len());
    assert(file[WIDTH_AT as int] == header[WIDTH_AT as int]);
    assert(file[WIDTH_AT + 1] == header[WIDTH_AT + 1]);
    assert(header[WIDTH_AT as int] == layout.dimensions()[0]);
    assert(header[WIDTH_AT + 1] == layout.dimensions()[1]);
    assert(file.subrange(HEADER_LEN as int, HEADER_LEN + cells.len()) =~= layout.solution);
    assert forall|i: int| 0 <= i < cells.len() implies {
        &&& (#[trigger] decoded_cell(solution_bytes(cells)[i])).is_wall() == cells[i].is_wall()
        &&& (cells[i] matches CrosswordCell::Letter(c) ==> decoded_cell(solution_bytes(cells)[i])
            == CrosswordCell::Letter(upper_byte(c) as char))
    } by {
        lemma_cell_fault_at(cells, i);
    }
}

/// A run of cells without fault has no cell with a fault.
pub proof fn lemma_cell_fault_at(cells: Seq<CrosswordCell>, i: int)
    requires
        cells_fault(cells) is None,
        0 <= i < cells.len(),
    ensures
        cell_fault(cells[i]) is None,
    decreases cells.len(),
{
    if i < cells.len() - 1 {
        lemma_cell_fault_at(cells.drop_last(), i);
    }
}

/// Two crosswords hold the same: the same sides and cells, the same clues
/// and the same credits, each text character by character.
pub open spec fn same_content(a: &CrosswordModel, b: &CrosswordModel) -> bool {
    &&& a.grid.width == b.grid.width
    &&& a.grid.height == b.grid.height
    &&& a.grid.cells@ == b.grid.cells@
    &&& clue_pairs(a.across_clues@) == clue_pairs(b.across_clues@)
    &&& clue_pairs(a.down_clues@) == clue_pairs(b.down_clues@)
    &&& a.title@ == b.title@
    &&& a.author@ == b.author@
    &&& a.copyright@ == b.copyright@
    &&& a.notes@ == b.notes@
}

/// The numbering reads nothing of a grid but its sides and its cells.
pub proof fn lemma_starts_by_content(a: &CrosswordGrid, b: &CrosswordGrid, row: int, col: int)
    requires
        a.width == b.width,
        a.height == b.height,
        a.cells@ == b.cells@,
    ensures
        numbered_before(a, row, col) == numbered_before(b, row, col),
        starts_before(a, row, col) == starts_before(b, row, col),
    decreases row, col,
{
    if row >= 0 && col > 0 {
        lemma_starts_by_content(a, b, row, col - 1);
        assert(starts_at(a, row, col - 1) == starts_at(b, row, col - 1));
    } else if row > 0 && col == 0 {
        lemma_starts_by_content(a, b, row - 1, a.width as int);
    }
}

/// Encoding is a function of what the crossword holds: two crosswords that
/// hold the same have the same file, byte for byte and so with the same four
/// checksums, or both have none.
pub proof fn lemma_encoding_deterministic(a: &CrosswordModel, b: &CrosswordModel)
    requires
        same_content(a, b),
    ensures
        a.valid() == b.valid(),
        a.puz_bytes() == b.puz_bytes(),
        a.layout().overall_checksum() == b.layout().overall_checksum(),
        a.layout().header_checksum() == b.layout().header_checksum(),
        a.layout().masked_checksums() == b.layout().masked_checksums(),
{
    lemma_starts_by_content(&a.grid, &b.grid, a.grid.height as int, 0);
    assert(grid_starts(&a.grid) == grid_starts(&b.grid));
    assert(claimed_numbers(a.across_clues@) =~= claimed_numbers(b.across_clues@)) by {
        lemma_pairs_agree(a.across_clues@, b.across_clues@);
    }
    assert(claimed_numbers(a.down_clues@) =~= claimed_numbers(b.down_clues@)) by {
        lemma_pairs_agree(a.down_clues@, b.down_clues@);
    }
    assert(clue_texts(a.across_clues@) =~= clue_texts(b.across_clues@)) by {
        lemma_pairs_agree(a.across_clues@, b.across_clues@);
    }
    assert(clue_texts(a.down_clues@) =~= clue_texts(b.down_clues@)) by {
        lemma_pairs_agree(a.down_clues@, b.down_clues@);
    }
    assert(a.grid.wf() == b.grid.wf()) by {
        if a.grid.wf() {
            lemma_wf_by_content(&a.grid, &b.grid);
        }
        if b.grid.wf() {
            lemma_wf_by_content(&b.grid, &a.grid);
        }
    }
    assert(a.layout() == b.layout());
}

/// Clue lists that agree as plain values agree in their numbers and in their
/// texts.
proof fn lemma_pairs_agree(a: Seq<Clue>, b: Seq<Clue>)
    requires
        clue_pairs(a) == clue_pairs(b),
    ensures
        a.len() == b.len(),
        forall|i: int| 0 <= i < a.len() ==> (#[trigger] a[i]).0 == b[i].0 && a[i].1@ == b[i].1@,
{
    assert(clue_pairs(a).len() == a.len());
    assert(clue_pairs(b).len() == b.len());
    assert forall|i: int| 0 <= i < a.len() implies (#[trigger] a[i]).0 == b[i].0 && a[i].1@
        == b[i].1@ by {
        assert(clue_pairs(a)[i] == (a[i].0, a[i].1@));
        assert(clue_pairs(b)[i] == (b[i].0, b[i].1@));
    }
}

/// A grid's invariant reads nothing but its sides and its cells.
proof fn lemma_wf_by_content(a: &CrosswordGrid, b: &CrosswordGrid)
    requires
        a.width == b.width,
        a.height == b.height,
        a.cells@ == b.cells@,
        a.wf(),
    ensures
        b.wf(),
{
    assert forall|r: int| 0 <= r < b.height implies !#[trigger] b.row_walled(r, b.width as int) by {
        assert(!a.row_walled(r, a.width as int));
        let c = choose|c: int| 0 <= c < a.width && !(#[trigger] a.cell_at(r, c)).is_wall();
        assert(!b.cell_at(r, c).is_wall());
    }
    assert forall|c: int| 0 <= c < b.width implies !#[trigger] b.col_walled(c, b.height as int) by {
        assert(!a.col_walled(c, a.height as int));
        let r = choose|r: int| 0 <= r < a.height && !(#[trigger] a.cell_at(r, c)).is_wall();
        assert(!b.cell_at(r, c).is_wall());
    }
}

/// The byte of a letter that can be written.
fn letter_byte(c: char) -> (byte: u8)
    requires
        letter_encodable(c),
    ensures
        byte == upper_byte(c),
{
    let code: u32 = c as u32;
    if code >= 0x61 && code <= 0x7A {
        (code - 0x20) as u8
    } else {
        code as u8
    }
}

/// The solution and the player's state of a run of cells, or the fault of
/// the first cell that has one.
pub fn encode_cells(cells: &Vec<CrosswordCell>) -> (outcome: Result<
    (Vec<u8>, Vec<u8>),
    EncodingError,
>)
    ensures
        match outcome {
            Ok((solution, state)) => {
                &&& cells_fault(cells@) is None
                &&& solution@ == solution_bytes(cells@)
                &&& state@ == state_bytes(cells@)
            },
            Err(e) => cells_fault(cells@) == Some(e),
        },
{
    let mut solution: Vec<u8> = Vec::new();
    let mut state: Vec<u8> = Vec::new();
    let mut i: usize = 0;
    while i < cells.len()
        invariant
            0 <= i <= cells@.len(),
            cells_fault(cells@.take(i as int)) is None,
            solution@ == solution_bytes(cells@.take(i as int)),
            state@ == state_bytes(cells@.take(i as int)),
        decreases cells@.len() - i,
    {
        proof {
            assert(cells@.take(i + 1).drop_last() =~= cells@.take(i as int));
            lemma_cells_fault_sticks(cells@, i + 1);
        }
        match &cells[i] {
            CrosswordCell::Wall => {
                solution.push(WALL_BYTE);
                state.push(WALL_BYTE);
            },
            CrosswordCell::Letter(c) => {
                let code: u32 = *c as u32;
                if code < 0x21 || code > 0x7E || code == 0x2E {
                    return Err(EncodingError::Unrepresentable);
                }
                solution.push(letter_byte(*c));
                state.push(BLANK_BYTE);
            },
            CrosswordCell::Rebus(_) => {
                return Err(EncodingError::UnsupportedRebus);
            },
        }
        proof {
            assert(solution@ =~= solution_bytes(cells@.take(i + 1)));
            assert(state@ =~= state_bytes(cells@.take(i + 1)));
        }
        i += 1;
    }
    assert(cells@.take(i as int) =~= cells@);
    Ok((solution, state))
}

/// A fault among the first cells is the fault of the whole run.
proof fn lemma_cells_fault_sticks(cells: Seq<CrosswordCell>, upto: int)
    requires
        0 <= upto <= cells.len(),
    ensures
        cells_fault(cells.take(upto)) is Some ==> cells_fault(cells) == cells_fault(
            cells.take(upto),
        ),
    decreases cells.len() - upto,
{
    if upto < cells.len() {
        assert(cells.take(upto + 1).drop_last() =~= cells.take(upto));
        lemma_cells_fault_sticks(cells, upto + 1);
    } else {
        assert(cells.take(upto) =~= cells);
    }
}

/// The texts of a list of clues as bytes, where each can be written.
pub fn encode_clue_texts(clues: &Vec<Clue>) -> (bytes: Option<Vec<Vec<u8>>>)
    ensures
        bytes is Some <==> texts_representable(clue_texts(clues@)),
        bytes matches Some(b) ==> b@.len() == clues@.len() && b@.map_values(
            |clue: Vec<u8>| clue@,
        ) == texts_bytes(clue_texts(clues@)),
{
    let ghost texts = clue_texts(clues@);
    let mut bytes: Vec<Vec<u8>> = Vec::new();
    let mut i: usize = 0;
    while i < clues.len()
        invariant
            texts == clue_texts(clues@),
            0 <= i <= clues@.len(),
            bytes@.len() == i,
            texts_representable(texts.take(i as int)),
            bytes@.map_values(|clue: Vec<u8>| clue@) == texts_bytes(texts.take(i as int)),
        decreases clues@.len() - i,
    {
        let ghost prior = bytes@.map_values(|clue: Vec<u8>| clue@);
        match encode_text(clues[i].1.as_str()) {
            Some(clue) => {
                bytes.push(clue);
            },
            None => {
                assert(!text_representable(texts[i as int]));
                return None;
            },
        }
        proof {
            let grown = texts.take(i + 1);
            assert(texts_representable(grown)) by {
                assert forall|k: int| 0 <= k < grown.len() implies text_representable(
                    #[trigger] grown[k],
                ) by {
                    if k < i {
                        assert(grown[k] == texts.take(i as int)[k]);
                    }
                }
            }
            assert(bytes@.map_values(|clue: Vec<u8>| clue@) =~= texts_bytes(grown)) by {
                let have = bytes@.map_values(|clue: Vec<u8>| clue@);
                let want = texts_bytes(grown);
                assert(have.len() == want.len());
                assert forall|k: int| 0 <= k < have.len() implies have[k] == want[k] by {
                    if k < i {
                        assert(have[k] == prior[k]);
                        assert(grown[k] == texts.take(i as int)[k]);
                    }
                }
            }
        }
        i += 1;
    }
    assert(texts.take(i as int) =~= texts);
    Some(bytes)
}

/// Puts the clues of the two directions in the order of the file.
pub fn order_clues(starts: &Vec<ClueStart>, across: &Vec<Vec<u8>>, down: &Vec<Vec<u8>>) -> (clues:
    Vec<Vec<u8>>)
    requires
        across@.len() == starts_of(starts@, Direction::Across).len(),
        down@.len() == starts_of(starts@, Direction::Down).len(),
    ensures
        clues@.map_values(|clue: Vec<u8>| clue@) == clue_order(
            starts@,
            across@.map_values(|clue: Vec<u8>| clue@),
            down@.map_values(|clue: Vec<u8>| clue@),
        ),
{
    let ghost across_view = across@.map_values(|clue: Vec<u8>| clue@);
    let ghost down_view = down@.map_values(|clue: Vec<u8>| clue@);
    let mut clues: Vec<Vec<u8>> = Vec::new();
    let mut next_across: usize = 0;
    let mut next_down: usize = 0;
    let mut i: usize = 0;
    proof {
        reveal(Seq::filter);
        assert(starts@.take(0) =~= Seq::<ClueStart>::empty());
    }
    while i < starts.len()
        invariant
            across_view == across@.map_values(|clue: Vec<u8>| clue@),
            down_view == down@.map_values(|clue: Vec<u8>| clue@),
            across@.len() == starts_of(starts@, Direction::Across).len(),
            down@.len() == starts_of(starts@, Direction::Down).len(),
            0 <= i <= starts@.len(),
            clues@.len() == i,
            next_across == starts_of(starts@.take(i as int), Direction::Across).len(),
            next_down == starts_of(starts@.take(i as int), Direction::Down).len(),
            clues@.map_values(|clue: Vec<u8>| clue@) == clue_order(
                starts@.take(i as int),
                across_view,
                down_view,
            ),
        decreases starts@.len() - i,
    {
        let ghost earlier = starts@.take(i as int);
        let ghost grown = starts@.take(i + 1);
        let ghost before = clues@.map_values(|clue: Vec<u8>| clue@);
        proof {
            assert(grown =~= earlier.push(starts@[i as int]));
            assert(grown.drop_last() =~= earlier);
            lemma_starts_of_push(earlier, starts@[i as int], Direction::Across);
            lemma_starts_of_push(earlier, starts@[i as int], Direction::Down);
            lemma_starts_of_prefix(starts@, i + 1, Direction::Across);
            lemma_starts_of_prefix(starts@, i + 1, Direction::Down);
        }
        let mut clue: Vec<u8> = Vec::new();
        match starts[i].direction {
            Direction::Across => {
                append_bytes(&mut clue, &across[next_across]);
                next_across += 1;
            },
            Direction::Down => {
                append_bytes(&mut clue, &down[next_down]);
                next_down += 1;
            },
        }
        clues.push(clue);
        proof {
            let have = clues@.map_values(|clue: Vec<u8>| clue@);
            let want = clue_order(grown, across_view, down_view);
            assert(have =~= want) by {
                assert(have.len() == want.len());
                assert forall|k: int| 0 <= k < have.len() implies have[k] == want[k] by {
                    if k < i {
                        assert(have[k] == before[k]);
                    } else {
                        assert(have[k] =~= want[k]);
                    }
                }
            }
        }
        i += 1;
    }
    assert(starts@.take(i as int) =~= starts@);
    clues
}

} // verus!
