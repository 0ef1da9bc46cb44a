//! Clue lists: reading a block of numbered clues, and holding the numbers a
//! solver wrote against the numbers that the grid gives.

use crate::numbering::{numbers_of, ClueStart};
use crate::text::{
    char_is_space, chars_of, decimal, decimal_string, find_from, first_index_of, is_space,
    lemma_first_index_bound, lemma_leading_spaces, line_content, line_end, parse_number,
    parsed_number, split_lines, trim_start,
};
use vstd::prelude::*;

verus! {

/// Why a block of clues cannot be read.
#[derive(Debug, Clone, Copy, PartialEq, Eq, Structural)]
pub enum ClueFormatError {
    /// The block has no line.
    Empty,
    /// The first line does not begin with a number and a full stop.
    MissingNumber,
}

impl ClueFormatError {
    /// The message as text.
    pub open spec fn message_text(&self) -> Seq<char> {
        match self {
            ClueFormatError::Empty => "no clues provided"@,
            ClueFormatError::MissingNumber => "clues must include line numbers: ` 1. Clue`"@,
        }
    }

    /// A message for the person who wrote the clues.
    pub fn message(&self) -> (text: String)
        ensures
            text@ == self.message_text(),
    {
        match self {
            ClueFormatError::Empty => String::from_str("no clues provided"),
            ClueFormatError::MissingNumber => String::from_str(
                "clues must include line numbers: ` 1. Clue`",
            ),
        }
    }
}

/// The number and the text of a line that begins a clue: after any leading
/// white space a number, then a full stop, then the text. The number is what
/// stands before the first full stop. A line of another form begins no clue.
pub open spec fn clue_prefix(line: Seq<char>) -> Option<(u16, Seq<char>)> {
    let body = trim_start(line);
    let dot = first_index_of(body, '.') as int;
    if dot < body.len() {
        match parsed_number(body.take(dot)) {
            Some(number) => Some((number, body.skip(dot + 1))),
            None => None,
        }
    } else {
        None
    }
}

/// The clues that a run of lines holds. A line that begins a clue opens a new
/// one; any other line continues the clue before it, after a line feed. Lines
/// that stand before the first clue are dropped.
pub open spec fn gather_clues(lines: Seq<Seq<char>>) -> Seq<(u16, Seq<char>)>
    decreases lines.len(),
{
    if lines.len() == 0 {
        Seq::empty()
    } else {
        let before = gather_clues(lines.drop_last());
        match clue_prefix(lines.last()) {
            Some(pair) => before.push(pair),
            None => if before.len() == 0 {
                before
            } else {
                before.drop_last().push(
                    (before.last().0, before.last().1 + seq!['\n'] + lines.last()),
                )
            },
        }
    }
}

/// What reading a block of clues gives: the clues of its lines, where it has
/// a line and the first line begins a clue.
pub open spec fn parsed_clue_block(block: Seq<char>) -> Result<
    Seq<(u16, Seq<char>)>,
    ClueFormatError,
> {
    let lines = split_lines(block);
    if lines.len() == 0 {
        Err(ClueFormatError::Empty)
    } else if clue_prefix(lines[0]) is None {
        Err(ClueFormatError::MissingNumber)
    } else {
        Ok(gather_clues(lines))
    }
}

/// Numbered clues as plain values.
pub open spec fn clue_pairs(clues: Seq<(u16, String)>) -> Seq<(u16, Seq<char>)> {
    clues.map_values(|pair: (u16, String)| (pair.0, pair.1@))
}

/// The numbers of a list of numbered clues.
pub open spec fn claimed_numbers(clues: Seq<(u16, String)>) -> Seq<u16> {
    clues.map_values(|pair: (u16, String)| pair.0)
}

/// Reads the number and the text of a line that begins a clue.
pub fn parse_clue_prefix(line: &str) -> (parsed: Option<(u16, String)>)
    ensures
        match parsed {
            Some((number, text)) => clue_prefix(line@) == Some((number, text@)),
            None => clue_prefix(line@) is None,
        },
{
    let chars = chars_of(line);
    let mut start: usize = 0;
    while start < chars.len() && char_is_space(chars[start])
        invariant
            0 <= start <= chars@.len(),
            forall|i: int| 0 <= i < start ==> is_space(#[trigger] chars@[i]),
        decreases chars@.len() - start,
    {
        start += 1;
    }
    proof {
        lemma_leading_spaces(chars@, start as int);
    }
    let ghost body = trim_start(line@);
    let dot = find_from(&chars, start, '.');
    if dot >= chars.len() {
        return None;
    }
    assert(body.take(dot - start) =~= chars@.subrange(start as int, dot as int));
    match parse_number(&chars, start, dot) {
        Some(number) => {
            let text = String::from_str(line.substring_char(dot + 1, chars.len()));
            assert(text@ =~= body.skip(dot - start + 1));
            Some((number, text))
        },
        None => None,
    }
}

/// The open clue takes one more line.
proof fn lemma_gather_step(lines: Seq<Seq<char>>, line: Seq<char>)
    ensures
        gather_clues(lines.push(line)) == match clue_prefix(line) {
            Some(pair) => gather_clues(lines).push(pair),
            None => if gather_clues(lines).len() == 0 {
                gather_clues(lines)
            } else {
                gather_clues(lines).drop_last().push(
                    (
                        gather_clues(lines).last().0,
                        gather_clues(lines).last().1 + seq!['\n'] + line,
                    ),
                )
            },
        },
{
    assert(lines.push(line).drop_last() =~= lines);
}

/// The lines of a text are its first line and the lines of what follows it.
proof fn lemma_split_lines_from(text: Seq<char>, from: int)
    requires
        0 <= from < text.len(),
    ensures
        ({
            let rest = text.skip(from);
            let end = from + line_end(rest);
            &&& end <= text.len()
            &&& split_lines(rest) == if end >= text.len() {
                seq![line_content(rest)]
            } else {
                seq![line_content(rest)] + split_lines(text.skip(end + 1))
            }
        }),
{
    let rest = text.skip(from);
    lemma_first_index_bound(rest, '\n');
    let end = line_end(rest) as int;
    if end < rest.len() {
        assert(rest.skip(end + 1) =~= text.skip(from + end + 1));
    }
}

/// Reads a block of numbered clues, one clue to a line; a line without a
/// number continues the clue above it.
pub fn parse_clue_block(clue_block: &str) -> (outcome: Result<
    Vec<(u16, String)>,
    ClueFormatError,
>)
    ensures
        match outcome {
            Ok(clues) => parsed_clue_block(clue_block@) == Ok::<
                Seq<(u16, Seq<char>)>,
                ClueFormatError,
            >(clue_pairs(clues@)),
            Err(e) => parsed_clue_block(clue_block@) == Err::<
                Seq<(u16, Seq<char>)>,
                ClueFormatError,
            >(e),
        },
{
    let chars = chars_of(clue_block);
    let total: usize = chars.len();
    if total == 0 {
        return Err(ClueFormatError::Empty);
    }
    let mut clues: Vec<(u16, String)> = Vec::new();
    let mut open: Option<(u16, String)> = None;
    let mut pos: usize = 0;
    let ghost mut seen: Seq<Seq<char>> = Seq::empty();
    proof {
        assert(clue_block@.skip(0) =~= clue_block@);
        assert(seen + split_lines(clue_block@) =~= split_lines(clue_block@));
    }
    while pos < total
        invariant
            chars@ == clue_block@,
            total == chars@.len(),
            total > 0,
            0 <= pos <= total,
            split_lines(clue_block@) == seen + split_lines(clue_block@.skip(pos as int)),
            pos == 0 <==> seen.len() == 0,
            seen.len() > 0 ==> clue_prefix(seen[0]) is Some,
            match open {
                Some((number, text)) => gather_clues(seen) == clue_pairs(clues@).push(
                    (number, text@),
                ),
                None => seen.len() == 0 && clues@.len() == 0,
            },
        decreases total - pos,
    {
        proof {
            lemma_split_lines_from(clue_block@, pos as int);
        }
        let ghost rest = clue_block@.skip(pos as int);
        assert(chars@.skip(pos as int) == rest);
        let end = find_from(&chars, pos, '\n');
        let stop: usize = if end < total && end > pos && chars[end - 1] == '\r' {
            end - 1
        } else {
            end
        };
        let line = clue_block.substring_char(pos, stop);
        proof {
            if end > pos {
                assert(rest[end - 1 - pos] == chars@[end - 1]);
            }
            assert(line@ =~= line_content(rest));
            lemma_gather_step(seen, line@);
            assert(seen.push(line@) + split_lines(clue_block@.skip(end + 1)) =~= seen + (
            seq![line@] + split_lines(clue_block@.skip(end + 1))));
            assert(seen.push(line@) =~= seen + seq![line@]);
            if seen.len() > 0 {
                assert(seen.push(line@)[0] == seen[0]);
            }
        }
        let parsed = parse_clue_prefix(line);
        match open {
            None => {
                match parsed {
                    Some((number, text)) => {
                        assert(gather_clues(seen.push(line@)) =~= clue_pairs(clues@).push(
                            (number, text@),
                        ));
                        open = Some((number, text));
                    },
                    None => {
                        proof {
                            assert(split_lines(clue_block@)[0] == line@);
                        }
                        return Err(ClueFormatError::MissingNumber);
                    },
                }
            },
            Some((open_number, mut open_text)) => {
                match parsed {
                    Some((number, text)) => {
                        clues.push((open_number, open_text));
                        assert(clue_pairs(clues@) =~= gather_clues(seen));
                        open = Some((number, text));
                    },
                    None => {
                        let ghost old_text = open_text@;
                        open_text.append("\n");
                        open_text.append(line);
                        proof {
                            reveal_strlit("\n");
                            assert("\n"@ =~= seq!['\n']);
                            assert(open_text@ =~= old_text + seq!['\n'] + line@);
                            assert(gather_clues(seen).drop_last() =~= clue_pairs(clues@));
                        }
                        open = Some((open_number, open_text));
                    },
                }
            },
        }
        proof {
            seen = seen.push(line@);
            if end >= total {
                assert(split_lines(clue_block@.skip(total as int)) =~= Seq::<Seq<char>>::empty());
            }
        }
        pos = if end < total {
            end + 1
        } else {
            total
        };
    }
    assert(split_lines(clue_block@.skip(pos as int)) =~= Seq::<Seq<char>>::empty());
    assert(split_lines(clue_block@) =~= seen);
    match open {
        Some((number, text)) => {
            clues.push((number, text));
            assert(clue_pairs(clues@) =~= gather_clues(seen));
            Ok(clues)
        },
        None => Err(ClueFormatError::Empty),
    }
}

/// How a list of claimed clue numbers disagrees with the numbers that the
/// grid gives.
#[derive(Debug, Clone, Copy, PartialEq, Eq, Structural)]
#[allow(inconsistent_fields)]
pub enum ClueMismatchError {
    /// The grid has `expected` entries in this direction and `got` clues
    /// were given.
    Count { expected: usize, got: usize },
    /// The clue at `position` (counted from 0) claims the number `got`
    /// where the grid gives `expected`.
    Number { position: usize, expected: u16, got: u16 },
}

/// The two lists agree on their first `upto` numbers.
pub open spec fn numbers_agree(claimed: Seq<u16>, derived: Seq<u16>, upto: int) -> bool {
    forall|i: int| 0 <= i < upto ==> #[trigger] claimed[i] == derived[i]
}

/// The disagreement between claimed and derived numbers: a difference in
/// count, or else the first position at which the numbers differ.
pub open spec fn clue_mismatch(claimed: Seq<u16>, derived: Seq<u16>) -> Option<
    ClueMismatchError,
> {
    if claimed.len() != derived.len() {
        Some(
            ClueMismatchError::Count {
                expected: derived.len() as usize,
                got: claimed.len() as usize,
            },
        )
    } else if !numbers_agree(claimed, derived, claimed.len() as int) {
        let position = choose|p: int|
            0 <= p < claimed.len() && claimed[p] != derived[p] && numbers_agree(
                claimed,
                derived,
                p,
            );
        Some(
            ClueMismatchError::Number {
                position: position as usize,
                expected: derived[position],
                got: claimed[position],
            },
        )
    } else {
        None
    }
}

impl ClueMismatchError {
    /// The message as text.
    pub open spec fn message_text(&self) -> Seq<char> {
        match self {
            ClueMismatchError::Count { expected, got } => "expected "@ + decimal(*expected as nat)
                + " clues, got "@ + decimal(*got as nat),
            ClueMismatchError::Number { position, expected, got } => "clue at position "@
                + decimal(*position as nat + 1) + " is numbered "@ + decimal(*got as nat)
                + ", expected "@ + decimal(*expected as nat),
        }
    }

    /// A message for the person who wrote the clues. Positions in it count
    /// from 1.
    pub fn message(&self) -> (text: String)
        ensures
            text@ == self.message_text(),
    {
        match self {
            ClueMismatchError::Count { expected, got } => {
                let mut text = String::from_str("expected ");
                text.append(decimal_string(*expected as u128).as_str());
                text.append(" clues, got ");
                text.append(decimal_string(*got as u128).as_str());
                text
            },
            ClueMismatchError::Number { position, expected, got } => {
                let mut text = String::from_str("clue at position ");
                text.append(decimal_string(*position as u128 + 1).as_str());
                text.append(" is numbered ");
                text.append(decimal_string(*got as u128).as_str());
                text.append(", expected ");
                text.append(decimal_string(*expected as u128).as_str());
                text
            },
        }
    }
}

/// Holds the claimed numbers of a list of clues against the entries that the
/// grid gives in one direction.
pub fn check_clues(claimed: &Vec<(u16, String)>, derived: &Vec<ClueStart>) -> (outcome: Result<
    (),
    ClueMismatchError,
>)
    ensures
        outcome == match clue_mismatch(claimed_numbers(claimed@), numbers_of(derived@)) {
            Some(e) => Err::<(), ClueMismatchError>(e),
            None => Ok::<(), ClueMismatchError>(()),
        },
{
    let ghost want = numbers_of(derived@);
    let ghost have = claimed_numbers(claimed@);
    if claimed.len() != derived.len() {
        return Err(ClueMismatchError::Count { expected: derived.len(), got: claimed.len() });
    }
    let mut i: usize = 0;
    while i < claimed.len()
        invariant
            want == numbers_of(derived@),
            have == claimed_numbers(claimed@),
            claimed@.len() == derived@.len(),
            0 <= i <= claimed@.len(),
            numbers_agree(have, want, i as int),
        decreases claimed@.len() - i,
    {
        if claimed[i].0 != derived[i].number {
            proof {
                assert(have[i as int] != want[i as int]);
                let p = choose|p: int|
                    0 <= p < have.len() && have[p] != want[p] && numbers_agree(have, want, p);
                assert(p == i) by {
                    if p < i {
                        assert(have[p] == want[p]);
                    }
                    if i < p {
                        assert(have[i as int] == want[i as int]);
                    }
                }
            }
            return Err(
                ClueMismatchError::Number {
                    position: i,
                    expected: derived[i].number,
                    got: claimed[i].0,
                },
            );
        }
        i += 1;
    }
    Ok(())
}

} // verus!
