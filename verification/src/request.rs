//! One request: an image of a grid, two blocks of clues and the credits in,
//! a `.puz` file or a report of everything that is wrong out.

use crate::clues::{clue_pairs, parse_clue_block, parsed_clue_block, ClueFormatError};
use crate::extract::ExtractConfig;
use crate::grid::CrosswordGrid;
use crate::model::CrosswordModel;
use crate::multi_error::{message_view, with_fault, MultiError};
use crate::picture::{decode_luma, image_read, read_image};
use vstd::prelude::*;

verus! {

/// What a request holds: the bytes of an image file, the clues of each
/// direction as text, and the credits.
#[derive(Debug, Clone, PartialEq, Eq)]
pub struct CrosswordInput {
    pub image: Vec<u8>,
    pub across_clues: String,
    pub down_clues: String,
    pub title: String,
    pub author: String,
    pub copyright: String,
    pub notes: String,
}

impl CrosswordInput {
    /// A request of these parts.
    pub fn new(
        image: Vec<u8>,
        across_clues: String,
        down_clues: String,
        title: String,
        author: String,
        copyright: String,
        notes: String,
    ) -> (input: CrosswordInput)
        ensures
            input == (CrosswordInput {
                image,
                across_clues,
                down_clues,
                title,
                author,
                copyright,
                notes,
            }),
    {
        CrosswordInput { image, across_clues, down_clues, title, author, copyright, notes }
    }
}

/// Why a block of clues cannot be read, if it cannot.
pub open spec fn block_fault(block: Seq<char>) -> Option<Seq<char>> {
    match parsed_clue_block(block) {
        Err(e) => Some(e.message_text()),
        Ok(_) => None,
    }
}

/// Why the image gave no grid, if it gave none.
pub open spec fn grid_message(image: Result<CrosswordGrid, String>) -> Option<Seq<char>> {
    match image {
        Err(message) => Some(message@),
        Ok(_) => None,
    }
}

/// The faults of the three inputs that are read each by itself, by field:
/// `across_clues`, `down_clues`, `image`.
pub open spec fn input_faults(
    across: Option<Seq<char>>,
    down: Option<Seq<char>>,
    image: Option<Seq<char>>,
) -> Map<Seq<char>, Seq<char>> {
    with_fault(
        with_fault(with_fault(Map::empty(), "across_clues"@, across), "down_clues"@, down),
        "image"@,
        image,
    )
}

/// The crossword is made of the request and the grid: it has that grid, the
/// clues that the two blocks of the request hold, and the request's credits.
pub open spec fn is_model_of(
    model: CrosswordModel,
    input: CrosswordInput,
    grid: CrosswordGrid,
) -> bool {
    &&& model.grid == grid
    &&& parsed_clue_block(input.across_clues@) == Ok::<
        Seq<(u16, Seq<char>)>,
        ClueFormatError,
    >(clue_pairs(model.across_clues@))
    &&& parsed_clue_block(input.down_clues@) == Ok::<
        Seq<(u16, Seq<char>)>,
        ClueFormatError,
    >(clue_pairs(model.down_clues@))
    &&& model.title == input.title
    &&& model.author == input.author
    &&& model.copyright == input.copyright
    &&& model.notes == input.notes
}

/// The names of the three inputs differ.
pub proof fn lemma_fields_differ()
    ensures
        "across_clues"@ != "down_clues"@,
        "across_clues"@ != "image"@,
        "down_clues"@ != "image"@,
{
    reveal_strlit("across_clues");
    reveal_strlit("down_clues");
    reveal_strlit("image");
    assert("across_clues"@.len() == 12);
    assert("down_clues"@.len() == 10);
    assert("image"@.len() == 5);
}

/// The outcome is what the request and the grid, or the message, of its
/// image give. The two blocks of clues and the image are judged each by
/// itself: where any of the three fails, the report names every one that
/// does, and nothing else. Where all three are sound the crossword is put
/// together, and the outcome is its file, or the report of all its faults.
pub open spec fn converted(
    input: CrosswordInput,
    image: Result<CrosswordGrid, String>,
    outcome: Result<Vec<u8>, MultiError>,
) -> bool {
    &&& outcome matches Err(report) ==> report.wf()
    &&& block_fault(input.across_clues@) is Some || block_fault(input.down_clues@) is Some
        || image is Err ==> (outcome matches Err(report) && report@ == input_faults(
        block_fault(input.across_clues@),
        block_fault(input.down_clues@),
        grid_message(image),
    ))
    &&& block_fault(input.across_clues@) is None && block_fault(input.down_clues@) is None
        && image is Ok ==> (exists|model: CrosswordModel| #[trigger]
        is_model_of(model, input, image->Ok_0) && match outcome {
            Ok(file) => model.valid() && file@ == model.puz_bytes(),
            Err(report) => !model.valid() && report@ == model.faults(),
        })
}

/// An image that cannot be read and a block of across clues that cannot are
/// reported together, each under its own name with its own message, and no
/// file comes out.
pub proof fn lemma_faults_reported_together(
    input: CrosswordInput,
    image: Result<CrosswordGrid, String>,
    outcome: Result<Vec<u8>, MultiError>,
)
    requires
        converted(input, image, outcome),
        image is Err,
        block_fault(input.across_clues@) is Some,
    ensures
        outcome is Err,
        outcome->Err_0@.dom().contains("image"@),
        outcome->Err_0@["image"@] == image->Err_0@,
        outcome->Err_0@.dom().contains("across_clues"@),
        outcome->Err_0@["across_clues"@] == block_fault(input.across_clues@)->0,
{
    lemma_fields_differ();
}

/// Converts a request whose image has been read already, to a grid or to a
/// message.
pub fn convert(input: CrosswordInput, image: Result<CrosswordGrid, String>) -> (outcome: Result<
    Vec<u8>,
    MultiError,
>)
    ensures
        converted(input, image, outcome),
{
    let mut report = MultiError::new();
    let across = parse_clue_block(input.across_clues.as_str());
    let down = parse_clue_block(input.down_clues.as_str());
    report.note(
        "across_clues",
        match &across {
            Err(e) => Some(e.message()),
            Ok(_) => None,
        },
    );
    report.note(
        "down_clues",
        match &down {
            Err(e) => Some(e.message()),
            Ok(_) => None,
        },
    );
    match (across, down, image) {
        (Ok(across_clues), Ok(down_clues), Ok(grid)) => {
            let model = CrosswordModel {
                grid,
                across_clues,
                down_clues,
                title: input.title,
                author: input.author,
                copyright: input.copyright,
                notes: input.notes,
            };
            assert(is_model_of(model, input, grid));
            match model.validate() {
                Ok(()) => Ok(model.as_puz()),
                Err(faults) => Err(faults),
            }
        },
        (_, _, Err(message)) => {
            report.note("image", Some(message));
            Err(report)
        },
        (_, _, Ok(_)) => {
            report.note("image", None);
            Err(report)
        },
    }
}

/// Converts a request: decodes the image, reads the grid off it with the
/// usual thresholds, reads the clues, and writes the file of the crossword
/// they make.
///
/// What the decoder makes of the image is not stated: it may differ from one
/// call to the next. Whatever it is, the outcome is that of `read_image` and
/// `convert` on it; and a block of clues that cannot be read is reported
/// under its name, with the block's own message, and then no file comes out.
pub fn generate_puz_file(input: CrosswordInput) -> (outcome: Result<Vec<u8>, MultiError>)
    ensures
        exists|
            decoded: Result<(u32, u32, Vec<u8>), String>,
            config: ExtractConfig,
            image: Result<CrosswordGrid, String>,
        |
            config.is_default() && #[trigger] image_read(decoded, &config, image) && converted(
                input,
                image,
                outcome,
            ),
        outcome matches Err(report) ==> report.wf(),
        block_fault(input.across_clues@) matches Some(message) ==> (outcome matches Err(report)
            && report@.dom().contains("across_clues"@) && report@["across_clues"@] == message),
        block_fault(input.down_clues@) matches Some(message) ==> (outcome matches Err(report)
            && report@.dom().contains("down_clues"@) && report@["down_clues"@] == message),
        outcome is Ok ==> block_fault(input.across_clues@) is None && block_fault(
            input.down_clues@,
        ) is None,
{
    let config = ExtractConfig::default();
    let decoded = decode_luma(input.image.as_slice());
    let image = read_image(decoded, &config);
    proof {
        lemma_fields_differ();
    }
    convert(input, image)
}

} // verus!
