//! From the bytes of an image file to the grid that the image shows.

use crate::extract::{extract_grid, extracted, extraction_fault, ExtractConfig, Raster};
use crate::grid::CrosswordGrid;
use vstd::prelude::*;

verus! {

/// Decodes an image file to shades of grey: width, height, and one intensity
/// per pixel, row by row; or the decoder's message where the bytes are no
/// image it can read.
///
/// The work is done by `image::load_from_memory`, which guesses the format
/// from the bytes and decodes them, by `DynamicImage::into_luma8`, and, for
/// the message, by the `Display` of `ImageError`. Nothing is claimed of the
/// result. It is not even a function of the bytes: the decoder asks the
/// format hooks that a process may register with it before its own formats.
/// What is made of the result is decided by `read_image`, which is proved
/// for every outcome, one with too few or too many pixels among them.
#[verifier::external_body]
pub(crate) fn decode_luma(bytes: &[u8]) -> (decoded: Result<(u32, u32, Vec<u8>), String>)
{
    match image::load_from_memory(bytes) {
        Ok(picture) => {
            let grey = picture.into_luma8();
            Ok((grey.width(), grey.height(), grey.into_raw()))
        },
        Err(e) => Err(e.to_string()),
    }
}

/// Why a decoded image gives no grid, if it gives none: the decoder's
/// message, or that the pixels are not as many as the size says, each after
/// `could not load image: `; or else why no grid was found in the pixels.
pub open spec fn image_fault(
    decoded: Result<(u32, u32, Vec<u8>), String>,
    config: &ExtractConfig,
) -> Option<Seq<char>> {
    match decoded {
        Err(message) => Some("could not load image: "@ + message@),
        Ok((width, height, pixels)) => if pixels@.len() != width * height {
            Some("could not load image: "@ + "the pixels do not fill the image"@)
        } else {
            match extraction_fault(&Raster { width, height, pixels }, config) {
                Some(e) => Some(e.message_text()),
                None => None,
            }
        },
    }
}

/// The grid, or the message, is what the decoded image gives: the grid that
/// its pixels show, where it has no fault, and else the message of its
/// fault.
pub open spec fn image_read(
    decoded: Result<(u32, u32, Vec<u8>), String>,
    config: &ExtractConfig,
    image: Result<CrosswordGrid, String>,
) -> bool {
    match image {
        Ok(grid) => {
            &&& image_fault(decoded, config) is None
            &&& decoded matches Ok((width, height, pixels)) && extracted(
                &Raster { width, height, pixels },
                config,
                grid,
            )
        },
        Err(message) => image_fault(decoded, config) == Some(message@),
    }
}

/// Reads the grid off a decoded image, whatever the decoder gave.
pub fn read_image(decoded: Result<(u32, u32, Vec<u8>), String>, config: &ExtractConfig) -> (outcome:
    Result<CrosswordGrid, String>)
    ensures
        image_read(decoded, config, outcome),
{
    match decoded {
        Err(message) => {
            let mut text = String::from_str("could not load image: ");
            text.append(message.as_str());
            Err(text)
        },
        Ok((width, height, pixels)) => {
            match Raster::new(width, height, pixels) {
                None => {
                    let mut text = String::from_str("could not load image: ");
                    text.append("the pixels do not fill the image");
                    Err(text)
                },
                Some(raster) => {
                    match extract_grid(&raster, config) {
                        Ok(grid) => Ok(grid),
                        Err(e) => Err(e.message()),
                    }
                },
            }
        },
    }
}

} // verus!
