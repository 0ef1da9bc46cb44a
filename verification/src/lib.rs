//! Turns a crossword grid, clue lists and metadata into an Across Lite `.puz`
//! file, with every step stated as a contract and proved.

pub mod clues;
pub mod extract;
pub mod grid;
pub mod model;
pub mod multi_error;
pub mod numbering;
pub mod picture;
pub mod puz;
pub mod request;
pub mod text;

pub use clues::{
    check_clues, parse_clue_block, parse_clue_prefix, ClueFormatError, ClueMismatchError,
};
pub use extract::{extract_grid, ExtractConfig, ExtractionError, Raster, Span};
pub use grid::{CrosswordCell, CrosswordGrid, GridError};
pub use model::{Clue, CrosswordModel, EncodeError, EncodingError};
pub use multi_error::MultiError;
pub use numbering::{number_grid, starts_in_direction, ClueStart, Direction};
pub use picture::read_image;
pub use puz::{checksum_region, PuzContent};
pub use request::{convert, generate_puz_file, CrosswordInput};
