use crossword_puz::{
    check_clues, parse_clue_block, parse_clue_prefix, ClueFormatError, ClueMismatchError,
    ClueStart, Direction,
};

fn across_start(number: u16) -> ClueStart {
    ClueStart { number, row: 0, col: 0, direction: Direction::Across }
}

fn clue(number: u16, text: &str) -> (u16, String) {
    (number, String::from(text))
}

#[test]
fn prefix_is_a_number_and_a_full_stop() {
    assert_eq!(parse_clue_prefix("1. Clue"), Some(clue(1, " Clue")));
    assert_eq!(parse_clue_prefix("  12.Clue. More"), Some(clue(12, "Clue. More")));
    assert_eq!(parse_clue_prefix("\t+7."), Some(clue(7, "")));
    assert_eq!(parse_clue_prefix("007. Bond"), Some(clue(7, " Bond")));
    assert_eq!(parse_clue_prefix("65535. Last"), Some(clue(65535, " Last")));
}

#[test]
fn prefix_needs_a_number_that_fits() {
    assert_eq!(parse_clue_prefix("65536. Too big"), None);
    assert_eq!(parse_clue_prefix("99999999999999999999. Far too big"), None);
    assert_eq!(parse_clue_prefix("-1. Negative"), None);
    assert_eq!(parse_clue_prefix("1 . Space"), None);
    assert_eq!(parse_clue_prefix("one. Word"), None);
    assert_eq!(parse_clue_prefix(". Nothing"), None);
    assert_eq!(parse_clue_prefix("+. Sign only"), None);
    assert_eq!(parse_clue_prefix("12 Clue"), None);
    assert_eq!(parse_clue_prefix(""), None);
    assert_eq!(parse_clue_prefix("1x. Mixed"), None);
}

#[test]
fn prefix_agrees_with_the_standard_library() {
    let lines = [
        "1. Clue", " 2.x", "\u{a0}3. nbsp", "\u{3000}4. wide", "x5. no", "6", "7.", "+8.y",
        "++9.", "1e3.", "\u{2003}10. em", "\u{200b}11. zero width", "٣. arabic digit",
    ];
    for line in lines {
        let expected = line.trim_start().split_once('.').and_then(|(number, text)| {
            number.parse::<u16>().ok().map(|n| (n, text.to_string()))
        });
        assert_eq!(parse_clue_prefix(line), expected, "{:?}", line);
    }
}

#[test]
fn block_holds_one_clue_per_numbered_line() {
    assert_eq!(
        parse_clue_block("1. First\n3. Third\n6. Sixth"),
        Ok(vec![clue(1, " First"), clue(3, " Third"), clue(6, " Sixth")])
    );
}

#[test]
fn line_without_number_continues_the_clue_above() {
    assert_eq!(
        parse_clue_block("1. First\n  goes on\n\n2. Second\nend"),
        Ok(vec![clue(1, " First\n  goes on\n"), clue(2, " Second\nend")])
    );
}

#[test]
fn block_lines_end_at_line_feeds() {
    assert_eq!(
        parse_clue_block("1. First\r\n2. Second\r\n"),
        Ok(vec![clue(1, " First"), clue(2, " Second")])
    );
    assert_eq!(parse_clue_block("1. First\r"), Ok(vec![clue(1, " First\r")]));
    assert_eq!(parse_clue_block("1. First\n"), Ok(vec![clue(1, " First")]));
    assert_eq!(parse_clue_block("1. First\n\n"), Ok(vec![clue(1, " First\n")]));
}

#[test]
fn empty_block_has_no_clues() {
    assert_eq!(parse_clue_block(""), Err(ClueFormatError::Empty));
    assert_eq!(ClueFormatError::Empty.message(), "no clues provided");
}

#[test]
fn first_line_must_have_a_number() {
    assert_eq!(parse_clue_block("First\n1. Second"), Err(ClueFormatError::MissingNumber));
    assert_eq!(parse_clue_block("\n1. Second"), Err(ClueFormatError::MissingNumber));
    assert_eq!(parse_clue_block("\n"), Err(ClueFormatError::MissingNumber));
    assert_eq!(
        ClueFormatError::MissingNumber.message(),
        "clues must include line numbers: ` 1. Clue`"
    );
}

#[test]
fn block_agrees_with_the_standard_library_on_lines() {
    let blocks = ["1. a\n2. b", "1. a\r\n\r\nb\r", "1. a\n\n\n", "1. a\rb\n2. c", "1.\n2.\n"];
    for block in blocks {
        let mut expected: Vec<(u16, String)> = Vec::new();
        for line in block.lines() {
            match parse_clue_prefix(line) {
                Some(pair) => expected.push(pair),
                None => {
                    let open = expected.last_mut().unwrap();
                    open.1.push('\n');
                    open.1.push_str(line);
                }
            }
        }
        assert_eq!(parse_clue_block(block), Ok(expected), "{:?}", block);
    }
}

#[test]
fn too_few_clues_is_a_count_mismatch() {
    let derived = vec![across_start(1), across_start(3), across_start(6)];
    let claimed = vec![clue(1, "a"), clue(3, "b")];
    assert_eq!(
        check_clues(&claimed, &derived),
        Err(ClueMismatchError::Count { expected: 3, got: 2 })
    );
}

#[test]
fn wrong_number_is_a_mismatch_at_its_position() {
    let derived = vec![across_start(1), across_start(3), across_start(6)];
    let claimed = vec![clue(1, "a"), clue(3, "b"), clue(7, "c")];
    assert_eq!(
        check_clues(&claimed, &derived),
        Err(ClueMismatchError::Number { position: 2, expected: 6, got: 7 })
    );
}

#[test]
fn first_wrong_number_is_reported() {
    let derived = vec![across_start(1), across_start(3), across_start(6)];
    let claimed = vec![clue(1, "a"), clue(4, "b"), clue(7, "c")];
    assert_eq!(
        check_clues(&claimed, &derived),
        Err(ClueMismatchError::Number { position: 1, expected: 3, got: 4 })
    );
}

#[test]
fn matching_numbers_pass() {
    let derived = vec![across_start(1), across_start(3), across_start(6)];
    let claimed = vec![clue(1, "a"), clue(3, "b"), clue(6, "c")];
    assert_eq!(check_clues(&claimed, &derived), Ok(()));
    assert_eq!(check_clues(&vec![], &vec![]), Ok(()));
}

#[test]
fn too_many_clues_is_a_count_mismatch() {
    let derived = vec![across_start(1)];
    let claimed = vec![clue(1, "a"), clue(2, "b")];
    assert_eq!(
        check_clues(&claimed, &derived),
        Err(ClueMismatchError::Count { expected: 1, got: 2 })
    );
}

#[test]
fn mismatch_messages() {
    assert_eq!(
        ClueMismatchError::Count { expected: 3, got: 2 }.message(),
        "expected 3 clues, got 2"
    );
    assert_eq!(
        ClueMismatchError::Number { position: 2, expected: 6, got: 7 }.message(),
        "clue at position 3 is numbered 7, expected 6"
    );
    assert_eq!(
        ClueMismatchError::Number { position: 9, expected: 65535, got: 0 }.message(),
        "clue at position 10 is numbered 0, expected 65535"
    );
}
