use crossword_puz::model::read_solution;
use crossword_puz::{
    convert, generate_puz_file, read_image, CrosswordCell, CrosswordGrid, CrosswordInput,
    CrosswordModel, ExtractConfig,
};

fn drawn_pixels() -> Vec<u8> {
    let mut pixels = Vec::new();
    for y in 0..16u32 {
        for x in 0..16u32 {
            let on_line = y % 5 == 0 || x % 5 == 0;
            let wall = (6..10).contains(&y) && (6..10).contains(&x);
            pixels.push(if on_line || wall { 0u8 } else { 255u8 });
        }
    }
    pixels
}

fn drawn_file(format: image::ImageFormat) -> Vec<u8> {
    let picture = image::GrayImage::from_raw(16, 16, drawn_pixels()).unwrap();
    let mut bytes = Vec::new();
    image::DynamicImage::ImageLuma8(picture)
        .write_to(&mut std::io::Cursor::new(&mut bytes), format)
        .unwrap();
    bytes
}

fn shown_grid() -> CrosswordGrid {
    let mut cells = vec![CrosswordCell::Letter('X'); 9];
    cells[4] = CrosswordCell::Wall;
    CrosswordGrid { width: 3, height: 3, cells }
}

fn request(image: Vec<u8>, across: &str, down: &str) -> CrosswordInput {
    CrosswordInput::new(
        image,
        String::from(across),
        String::from(down),
        String::from("Tiny"),
        String::from("Ann Author"),
        String::from("(c) 2024"),
        String::from("A note"),
    )
}

const ACROSS: &str = "1. First row\n3. Last row";
const DOWN: &str = "1. Left side\n2. Right side";

#[test]
fn new_keeps_the_parts() {
    let input = request(vec![1, 2, 3], ACROSS, DOWN);
    assert_eq!(input.image, vec![1, 2, 3]);
    assert_eq!(input.across_clues, ACROSS);
    assert_eq!(input.down_clues, DOWN);
    assert_eq!(input.title, "Tiny");
    assert_eq!(input.author, "Ann Author");
    assert_eq!(input.copyright, "(c) 2024");
    assert_eq!(input.notes, "A note");
}

#[test]
fn generates_a_file_from_a_png() {
    let file = generate_puz_file(request(drawn_file(image::ImageFormat::Png), ACROSS, DOWN))
        .unwrap();
    assert_eq!(file.len(), 146);
    assert_eq!(
        &file[..24],
        &[
            0x00, 0xC2, 0x41, 0x43, 0x52, 0x4F, 0x53, 0x53, 0x26, 0x44, 0x4F, 0x57, 0x4E, 0x00,
            0x00, 0x52, 0x49, 0xEE, 0x11, 0xF7, 0x13, 0x5C, 0xA6, 0x27,
        ]
    );
    assert_eq!(&file[0x34..0x3D], b"XXXX.XXXX");
    assert_eq!(read_solution(&file), Some(shown_grid()));
    let model = CrosswordModel::assemble(
        shown_grid(),
        vec![(1, String::from(" First row")), (3, String::from(" Last row"))],
        vec![(1, String::from(" Left side")), (2, String::from(" Right side"))],
        String::from("Tiny"),
        String::from("Ann Author"),
        String::from("(c) 2024"),
        String::from("A note"),
    )
    .unwrap();
    assert_eq!(file, model.as_puz());
}

#[test]
fn generates_the_same_file_from_a_bmp() {
    let from_png = generate_puz_file(request(drawn_file(image::ImageFormat::Png), ACROSS, DOWN));
    let from_bmp = generate_puz_file(request(drawn_file(image::ImageFormat::Bmp), ACROSS, DOWN));
    assert_eq!(from_png.unwrap(), from_bmp.unwrap());
}

#[test]
fn bad_image_and_empty_clues_are_reported_together() {
    let report = generate_puz_file(request(vec![1, 2, 3, 4], "", DOWN)).unwrap_err();
    assert_eq!(report.len(), 2);
    assert_eq!(report.get("across_clues"), Some(String::from("no clues provided")));
    let message = report.get("image").unwrap();
    assert!(message.starts_with("could not load image: "), "{}", message);
    assert_eq!(report.get("down_clues"), None);
}

#[test]
fn all_three_inputs_are_reported_together() {
    let report = generate_puz_file(request(vec![], "First", "")).unwrap_err();
    assert_eq!(report.len(), 3);
    assert_eq!(
        report.get("across_clues"),
        Some(String::from("clues must include line numbers: ` 1. Clue`"))
    );
    assert_eq!(report.get("down_clues"), Some(String::from("no clues provided")));
    assert!(report.get("image").is_some());
}

#[test]
fn image_without_a_grid_is_reported() {
    let picture = image::GrayImage::from_raw(8, 8, vec![255; 64]).unwrap();
    let mut bytes = Vec::new();
    image::DynamicImage::ImageLuma8(picture)
        .write_to(&mut std::io::Cursor::new(&mut bytes), image::ImageFormat::Png)
        .unwrap();
    let report = generate_puz_file(request(bytes, ACROSS, DOWN)).unwrap_err();
    assert_eq!(report.len(), 1);
    assert_eq!(report.get("image"), Some(String::from("no grid detected")));
}

#[test]
fn clues_that_miss_the_grid_are_reported() {
    let report =
        generate_puz_file(request(drawn_file(image::ImageFormat::Png), "1. Only", "1. a\n3. b"))
            .unwrap_err();
    assert_eq!(report.len(), 2);
    assert_eq!(report.get("across_clues"), Some(String::from("expected 2 clues, got 1")));
    assert_eq!(
        report.get("down_clues"),
        Some(String::from("clue at position 2 is numbered 3, expected 2"))
    );
}

#[test]
fn convert_reports_the_message_of_the_image() {
    let report =
        convert(request(vec![], "", DOWN), Err(String::from("could not load image: nothing")))
            .unwrap_err();
    assert_eq!(report.len(), 2);
    assert_eq!(report.get("image"), Some(String::from("could not load image: nothing")));
    assert_eq!(report.get("across_clues"), Some(String::from("no clues provided")));
}

#[test]
fn convert_writes_the_file_of_a_grid() {
    let file = convert(request(vec![], ACROSS, DOWN), Ok(shown_grid())).unwrap();
    assert_eq!(&file[0x34..0x3D], b"XXXX.XXXX");
    assert_eq!(&file[0x2E..0x30], &[4, 0]);
}

#[test]
fn convert_reports_clues_alone_when_the_grid_is_sound() {
    let report = convert(request(vec![], "", DOWN), Ok(shown_grid())).unwrap_err();
    assert_eq!(report.len(), 1);
    assert_eq!(report.get("across_clues"), Some(String::from("no clues provided")));
}

#[test]
fn read_image_names_what_the_decoder_said() {
    let config = ExtractConfig::default();
    assert_eq!(
        read_image(Err(String::from("unknown format")), &config),
        Err(String::from("could not load image: unknown format"))
    );
    assert_eq!(
        read_image(Ok((2, 2, vec![0; 3])), &config),
        Err(String::from("could not load image: the pixels do not fill the image"))
    );
    assert_eq!(read_image(Ok((16, 16, drawn_pixels())), &config), Ok(shown_grid()));
    assert_eq!(
        read_image(Ok((4, 4, vec![255; 16])), &config),
        Err(String::from("no grid detected"))
    );
}
