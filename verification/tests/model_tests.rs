use crossword_puz::model::{encode_cells, encode_clue_texts, order_clues, read_solution};
use crossword_puz::{
    number_grid, ClueStart, CrosswordCell, CrosswordGrid, CrosswordModel, Direction, EncodeError,
    EncodingError,
};

fn model_grid(rows: &[&str]) -> CrosswordGrid {
    let mut cells = Vec::new();
    for row in rows {
        for c in row.chars() {
            cells.push(if c == '.' { CrosswordCell::Wall } else { CrosswordCell::Letter(c) });
        }
    }
    CrosswordGrid { width: rows[0].chars().count() as u8, height: rows.len() as u8, cells }
}

fn numbered(number: u16, text: &str) -> (u16, String) {
    (number, String::from(text))
}

fn tiny_model() -> CrosswordModel {
    CrosswordModel {
        grid: model_grid(&["abc", "D.E", "FGH"]),
        across_clues: vec![numbered(1, "First row"), numbered(3, "Last row")],
        down_clues: vec![numbered(1, "Left side"), numbered(2, "Right side")],
        title: String::from("Tiny"),
        author: String::from("Ann Author"),
        copyright: String::from("(c) 2024"),
        notes: String::from("A note"),
    }
}

const TINY_FILE: [u8; 142] = [
    0x26, 0x2D, 0x41, 0x43, 0x52, 0x4F, 0x53, 0x53, 0x26, 0x44, 0x4F, 0x57, 0x4E, 0x00, 0x00,
    0x52, 0x49, 0xCF, 0x11, 0x00, 0x13, 0x25, 0xA6, 0x45, 0x31, 0x2E, 0x33, 0x00, 0x00, 0x00,
    0x00, 0x00, 0x00, 0x00, 0x00, 0x00, 0x00, 0x00, 0x00, 0x00, 0x00, 0x00, 0x00, 0x00, 0x03,
    0x03, 0x04, 0x00, 0x01, 0x00, 0x00, 0x00, 0x41, 0x42, 0x43, 0x44, 0x2E, 0x45, 0x46, 0x47,
    0x48, 0x2D, 0x2D, 0x2D, 0x2D, 0x2E, 0x2D, 0x2D, 0x2D, 0x2D, 0x54, 0x69, 0x6E, 0x79, 0x00,
    0x41, 0x6E, 0x6E, 0x20, 0x41, 0x75, 0x74, 0x68, 0x6F, 0x72, 0x00, 0x28, 0x63, 0x29, 0x20,
    0x32, 0x30, 0x32, 0x34, 0x00, 0x46, 0x69, 0x72, 0x73, 0x74, 0x20, 0x72, 0x6F, 0x77, 0x00,
    0x4C, 0x65, 0x66, 0x74, 0x20, 0x73, 0x69, 0x64, 0x65, 0x00, 0x52, 0x69, 0x67, 0x68, 0x74,
    0x20, 0x73, 0x69, 0x64, 0x65, 0x00, 0x4C, 0x61, 0x73, 0x74, 0x20, 0x72, 0x6F, 0x77, 0x00,
    0x41, 0x20, 0x6E, 0x6F, 0x74, 0x65, 0x00,
];

#[test]
fn encode_writes_the_file_byte_for_byte() {
    assert_eq!(tiny_model().encode(), Ok(TINY_FILE.to_vec()));
    assert_eq!(tiny_model().as_puz(), TINY_FILE.to_vec());
}

#[test]
fn clues_are_interleaved_by_cell() {
    let file = tiny_model().as_puz();
    let texts: Vec<&[u8]> = file[0x46..].split(|b| *b == 0).collect();
    assert_eq!(
        texts,
        vec![
            &b"Tiny"[..],
            b"Ann Author",
            b"(c) 2024",
            b"First row",
            b"Left side",
            b"Right side",
            b"Last row",
            b"A note",
            b"",
        ]
    );
}

#[test]
fn encoding_twice_gives_identical_bytes() {
    let model = tiny_model();
    let first = model.encode();
    let second = model.encode();
    assert_eq!(first, second);
    assert_eq!(model.clone().encode(), first);
    let file = first.unwrap();
    assert_eq!(&file[0x00..0x02], &[0x26, 0x2D]);
    assert_eq!(&file[0x0E..0x10], &[0x00, 0x52]);
    assert_eq!(&file[0x10..0x18], &[0x49, 0xCF, 0x11, 0x00, 0x13, 0x25, 0xA6, 0x45]);
}

#[test]
fn solution_reads_back_as_the_grid() {
    let model = tiny_model();
    let file = model.as_puz();
    let grid = read_solution(&file).unwrap();
    assert_eq!(grid, model_grid(&["ABC", "D.E", "FGH"]));
    for (read, given) in grid.cells.iter().zip(model.grid.cells.iter()) {
        assert_eq!(read.is_wall(), given.is_wall());
    }
}

#[test]
fn placeholder_grid_reads_back_exactly() {
    let mut model = tiny_model();
    model.grid = model_grid(&["XXX", "X.X", "XXX"]);
    let file = model.as_puz();
    assert_eq!(read_solution(&file), Some(model.grid.clone()));
}

#[test]
fn read_solution_needs_header_and_cells() {
    assert_eq!(read_solution(&vec![]), None);
    assert_eq!(read_solution(&TINY_FILE[..51].to_vec()), None);
    assert_eq!(read_solution(&TINY_FILE[..60].to_vec()), None);
    assert_eq!(
        read_solution(&TINY_FILE[..61].to_vec()),
        Some(model_grid(&["ABC", "D.E", "FGH"]))
    );
}

#[test]
fn player_state_is_blank() {
    let file = tiny_model().as_puz();
    assert_eq!(&file[0x3D..0x46], b"----.----");
}

#[test]
fn text_is_written_in_one_byte_per_character() {
    let mut model = tiny_model();
    model.title = String::from("Café");
    let file = model.as_puz();
    assert_eq!(&file[0x46..0x4B], &[0x43, 0x61, 0x66, 0xE9, 0x00]);
}

#[test]
fn unrepresentable_text_is_an_encoding_error() {
    let mut model = tiny_model();
    model.notes = String::from("snow ☃");
    assert_eq!(model.encode(), Err(EncodeError::Encoding(EncodingError::Unrepresentable)));
    let report = model.validate().unwrap_err();
    assert_eq!(report.len(), 1);
    assert_eq!(
        report.get("notes"),
        Some(String::from("contains a character that cannot be written"))
    );
    let mut model = tiny_model();
    model.across_clues[1].1 = String::from("€");
    assert_eq!(model.encode(), Err(EncodeError::Encoding(EncodingError::Unrepresentable)));
    let report = model.validate().unwrap_err();
    assert_eq!(
        report.get("across_clues"),
        Some(String::from("contains a character that cannot be written"))
    );
}

#[test]
fn rebus_cell_is_not_supported() {
    let mut model = tiny_model();
    model.grid.cells[0] = CrosswordCell::Rebus(String::from("AB"));
    assert_eq!(model.encode(), Err(EncodeError::Encoding(EncodingError::UnsupportedRebus)));
    let report = model.validate().unwrap_err();
    assert_eq!(
        report.get("grid"),
        Some(String::from("cells with more than one letter are not supported"))
    );
}

#[test]
fn letter_without_a_byte_is_an_encoding_error() {
    let mut model = tiny_model();
    model.grid.cells[2] = CrosswordCell::Letter('é');
    assert_eq!(model.encode(), Err(EncodeError::Encoding(EncodingError::Unrepresentable)));
    model.grid.cells[2] = CrosswordCell::Letter(' ');
    assert_eq!(model.encode(), Err(EncodeError::Encoding(EncodingError::Unrepresentable)));
    model.grid.cells[2] = CrosswordCell::Letter('.');
    assert_eq!(model.encode(), Err(EncodeError::Encoding(EncodingError::Unrepresentable)));
}

#[test]
fn grid_with_a_row_of_walls_fails_assembly() {
    let outcome = CrosswordModel::assemble(
        model_grid(&["AB", "..", "CD"]),
        vec![numbered(1, "top"), numbered(2, "bottom")],
        vec![],
        String::new(),
        String::new(),
        String::new(),
        String::new(),
    );
    let report = outcome.unwrap_err();
    assert_eq!(report.len(), 1);
    assert_eq!(report.get("grid"), Some(String::from("row 2 has no open cell")));
    let mut model = tiny_model();
    model.grid = model_grid(&["ABC", "...", "FGH"]);
    assert_eq!(model.encode(), Err(EncodeError::InternalInvariant));
}

#[test]
fn assemble_gives_the_crossword_of_its_parts() {
    let expected = tiny_model();
    let outcome = CrosswordModel::assemble(
        expected.grid.clone(),
        expected.across_clues.clone(),
        expected.down_clues.clone(),
        expected.title.clone(),
        expected.author.clone(),
        expected.copyright.clone(),
        expected.notes.clone(),
    );
    let model = outcome.unwrap();
    assert_eq!(model, expected);
    assert_eq!(model.width(), 3);
    assert_eq!(model.height(), 3);
    assert_eq!(model.validate().map_err(|r| r.len()), Ok(()));
}

#[test]
fn every_fault_is_reported_together() {
    let mut model = tiny_model();
    model.grid.cells[0] = CrosswordCell::Rebus(String::from("AB"));
    model.across_clues.pop();
    model.down_clues[1].0 = 5;
    model.title = String::from("☃");
    model.author = String::from("☃");
    model.copyright = String::from("☃");
    model.notes = String::from("☃");
    let report = model.validate().unwrap_err();
    assert_eq!(report.len(), 7);
    assert_eq!(report.get("across_clues"), Some(String::from("expected 2 clues, got 1")));
    assert_eq!(
        report.get("down_clues"),
        Some(String::from("clue at position 2 is numbered 5, expected 2"))
    );
    assert_eq!(model.encode(), Err(EncodeError::InternalInvariant));
}

#[test]
fn clue_numbers_must_be_those_of_the_grid() {
    let mut model = tiny_model();
    model.across_clues = vec![numbered(1, "First row"), numbered(2, "Last row")];
    assert_eq!(model.encode(), Err(EncodeError::InternalInvariant));
    let report = model.validate().unwrap_err();
    assert_eq!(report.len(), 1);
    assert_eq!(
        report.get("across_clues"),
        Some(String::from("clue at position 2 is numbered 2, expected 3"))
    );
}

#[test]
fn shapeless_grid_is_reported_without_numbering() {
    let mut model = tiny_model();
    model.grid.cells.pop();
    let report = model.validate().unwrap_err();
    assert_eq!(report.len(), 1);
    assert_eq!(report.get("grid"), Some(String::from("expected 9 cells, got 8")));
    assert_eq!(model.encode(), Err(EncodeError::InternalInvariant));
}

#[test]
fn encode_cells_gives_solution_and_state() {
    let cells = vec![
        CrosswordCell::Letter('a'),
        CrosswordCell::Wall,
        CrosswordCell::Letter('Z'),
        CrosswordCell::Letter('7'),
    ];
    assert_eq!(encode_cells(&cells), Ok((b"A.Z7".to_vec(), b"-.--".to_vec())));
    assert_eq!(encode_cells(&vec![]), Ok((vec![], vec![])));
}

#[test]
fn encode_cells_names_the_first_fault() {
    let cells = vec![
        CrosswordCell::Letter('a'),
        CrosswordCell::Letter('é'),
        CrosswordCell::Rebus(String::from("AB")),
    ];
    assert_eq!(encode_cells(&cells), Err(EncodingError::Unrepresentable));
    let cells = vec![CrosswordCell::Rebus(String::from("AB")), CrosswordCell::Letter('é')];
    assert_eq!(encode_cells(&cells), Err(EncodingError::UnsupportedRebus));
}

#[test]
fn encode_clue_texts_writes_each_text() {
    let clues = vec![numbered(1, "ab"), numbered(2, "")];
    assert_eq!(encode_clue_texts(&clues), Some(vec![b"ab".to_vec(), vec![]]));
    let clues = vec![numbered(1, "ab"), numbered(2, "☃")];
    assert_eq!(encode_clue_texts(&clues), None);
}

#[test]
fn order_clues_follows_the_entries() {
    let starts: Vec<ClueStart> = number_grid(&model_grid(&["ABC", "D.E", "FGH"]));
    let across = vec![b"1a".to_vec(), b"3a".to_vec()];
    let down = vec![b"1d".to_vec(), b"2d".to_vec()];
    assert_eq!(
        order_clues(&starts, &across, &down),
        vec![b"1a".to_vec(), b"1d".to_vec(), b"2d".to_vec(), b"3a".to_vec()]
    );
    assert_eq!(starts[3].direction, Direction::Across);
}

#[test]
fn encoding_error_messages() {
    assert_eq!(
        EncodingError::Unrepresentable.message(),
        "contains a character that cannot be written"
    );
    assert_eq!(
        EncodingError::UnsupportedRebus.message(),
        "cells with more than one letter are not supported"
    );
}
