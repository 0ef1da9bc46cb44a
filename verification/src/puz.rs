//! The byte layout of a `.puz` file and its checksums.
//!
//! A file is a header of 52 bytes, the solution, the player's state, and the
//! texts, each closed by a zero byte. Numbers are little-endian.

use vstd::prelude::*;

verus! {

/// The length of the header.
pub const HEADER_LEN: usize = 0x34;

/// Where the header holds the width; the height follows it.
pub const WIDTH_AT: usize = 0x2C;

/// One round of the checksum: the sum is rotated right by one bit within 16
/// bits, then the byte is added modulo 2^16.
pub open spec fn checksum_step(sum: u16, byte: u8) -> u16 {
    let rotated: int = if sum % 2 == 1 {
        sum / 2 + 0x8000
    } else {
        (sum / 2) as int
    };
    ((rotated + byte) % 0x10000) as u16
}

/// The checksum of a region that continues from `start`: one round per byte,
/// in order.
pub open spec fn checksum(bytes: Seq<u8>, start: u16) -> u16
    decreases bytes.len(),
{
    if bytes.len() == 0 {
        start
    } else {
        checksum_step(checksum(bytes.drop_last(), start), bytes.last())
    }
}

/// The round in terms of bits: where the low bit of the sum is set, the sum
/// is shifted right by one and 0x8000 is added; otherwise it is only shifted.
pub proof fn lemma_checksum_step_bits(sum: u16, byte: u8)
    ensures
        checksum_step(sum, byte) == (((if sum & 1 == 1 {
            (sum >> 1) + 0x8000
        } else {
            (sum >> 1) as int
        }) + byte) % 0x10000) as u16,
{
    assert((sum & 1 == 1) == (sum % 2 == 1)) by (bit_vector);
    assert(sum >> 1 == sum / 2) by (bit_vector);
}

/// The checksum of two regions in a row is the checksum of the second,
/// continued from that of the first.
pub proof fn lemma_checksum_concat(first: Seq<u8>, second: Seq<u8>, start: u16)
    ensures
        checksum(first + second, start) == checksum(second, checksum(first, start)),
    decreases second.len(),
{
    if second.len() == 0 {
        assert(first + second =~= first);
    } else {
        assert((first + second).drop_last() =~= first + second.drop_last());
        lemma_checksum_concat(first, second.drop_last(), start);
    }
}

/// One round of the checksum.
pub fn checksum_add(sum: u16, byte: u8) -> (next: u16)
    ensures
        next == checksum_step(sum, byte),
{
    let rotated: u32 = if sum % 2 == 1 {
        (sum / 2) as u32 + 0x8000
    } else {
        (sum / 2) as u32
    };
    ((rotated + byte as u32) % 0x10000) as u16
}

/// The checksum of a region, continued from `start`.
pub fn checksum_region(bytes: &Vec<u8>, start: u16) -> (sum: u16)
    ensures
        sum == checksum(bytes@, start),
{
    let mut sum: u16 = start;
    let mut i: usize = 0;
    while i < bytes.len()
        invariant
            0 <= i <= bytes@.len(),
            sum == checksum(bytes@.take(i as int), start),
        decreases bytes@.len() - i,
    {
        assert(bytes@.take(i + 1).drop_last() =~= bytes@.take(i as int));
        sum = checksum_add(sum, bytes[i]);
        i += 1;
    }
    assert(bytes@.take(i as int) =~= bytes@);
    sum
}

/// The low byte of a 16-bit number.
pub open spec fn low_byte(value: u16) -> u8 {
    (value % 256) as u8
}

/// The high byte of a 16-bit number.
pub open spec fn high_byte(value: u16) -> u8 {
    (value / 256) as u8
}

/// A 16-bit number as two bytes, the low byte first.
pub open spec fn le16(value: u16) -> Seq<u8> {
    seq![low_byte(value), high_byte(value)]
}

/// The file's magic string, `ACROSS&DOWN` and a zero byte.
pub open spec fn magic() -> Seq<u8> {
    seq![0x41u8, 0x43, 0x52, 0x4F, 0x53, 0x53, 0x26, 0x44, 0x4F, 0x57, 0x4E, 0x00]
}

/// The version string, `1.3` and a zero byte.
pub open spec fn version() -> Seq<u8> {
    seq![0x31u8, 0x2E, 0x33, 0x00]
}

/// The reserved bytes between the version and the dimensions: two reserved
/// bytes, the checksum of a scrambled solution (none here), and twelve more
/// reserved bytes, all zero.
pub open spec fn reserved() -> Seq<u8> {
    Seq::new(16, |i: int| 0u8)
}

/// The last eight bytes of the header: width, height, the number of clues,
/// and the flags of an unscrambled puzzle.
pub open spec fn dimensions(width: u8, height: u8, clue_count: u16) -> Seq<u8> {
    seq![width, height, low_byte(clue_count), high_byte(clue_count), 1u8, 0u8, 0u8, 0u8]
}

/// A text with the zero byte that closes it.
pub open spec fn terminated(text: Seq<u8>) -> Seq<u8> {
    text.push(0u8)
}

/// The clues in a row, each closed by a zero byte.
pub open spec fn clue_block(clues: Seq<Seq<u8>>) -> Seq<u8>
    decreases clues.len(),
{
    if clues.len() == 0 {
        Seq::empty()
    } else {
        clue_block(clues.drop_last()) + terminated(clues.last())
    }
}

/// The checksum over the clues, continued from `start`: each clue without
/// its zero byte.
pub open spec fn clues_checksum(clues: Seq<Seq<u8>>, start: u16) -> u16
    decreases clues.len(),
{
    if clues.len() == 0 {
        start
    } else {
        checksum(clues.last(), clues_checksum(clues.drop_last(), start))
    }
}

/// The checksum over a text that counts with its zero byte, and not at all
/// where it is empty.
pub open spec fn field_checksum(text: Seq<u8>, start: u16) -> u16 {
    if text.len() > 0 {
        checksum(terminated(text), start)
    } else {
        start
    }
}

/// What a file holds besides its checksums.
pub struct PuzFile {
    pub width: u8,
    pub height: u8,
    /// One byte per cell, row by row: the answers.
    pub solution: Seq<u8>,
    /// One byte per cell, row by row: what the player has entered.
    pub state: Seq<u8>,
    pub title: Seq<u8>,
    pub author: Seq<u8>,
    pub copyright: Seq<u8>,
    /// The clues in the order of the file.
    pub clues: Seq<Seq<u8>>,
    pub notes: Seq<u8>,
}

impl PuzFile {
    /// The content fits the layout: the two grids have one byte per cell and
    /// the number of clues fits in 16 bits.
    pub open spec fn framed(&self) -> bool {
        &&& self.solution.len() == self.width * self.height
        &&& self.state.len() == self.width * self.height
        &&& self.clues.len() <= 0xFFFF
    }

    /// The checksum over the texts, continued from `start`: title, author
    /// and copyright, the clues, then the notes.
    pub open spec fn text_checksum(&self, start: u16) -> u16 {
        field_checksum(
            self.notes,
            clues_checksum(
                self.clues,
                field_checksum(
                    self.copyright,
                    field_checksum(self.author, field_checksum(self.title, start)),
                ),
            ),
        )
    }

    /// The last eight bytes of the header.
    pub open spec fn dimensions(&self) -> Seq<u8> {
        dimensions(self.width, self.height, self.clues.len() as u16)
    }

    /// The checksum of the header: over its last eight bytes, from 0.
    pub open spec fn header_checksum(&self) -> u16 {
        checksum(self.dimensions(), 0)
    }

    /// The checksum of the whole file: the header's, continued over the
    /// solution, the state and the texts.
    pub open spec fn overall_checksum(&self) -> u16 {
        self.text_checksum(checksum(self.state, checksum(self.solution, self.header_checksum())))
    }

    /// The eight masked checksums: the low bytes, then the high bytes, of the
    /// checksums of header, solution, state and texts, each from 0 and each
    /// combined by exclusive or with one letter of `ICHEATED`.
    pub open spec fn masked_checksums(&self) -> Seq<u8> {
        let header = self.header_checksum();
        let solution = checksum(self.solution, 0);
        let state = checksum(self.state, 0);
        let texts = self.text_checksum(0);
        seq![
            0x49u8 ^ low_byte(header),
            0x43u8 ^ low_byte(solution),
            0x48u8 ^ low_byte(state),
            0x45u8 ^ low_byte(texts),
            0x41u8 ^ high_byte(header),
            0x54u8 ^ high_byte(solution),
            0x45u8 ^ high_byte(state),
            0x44u8 ^ high_byte(texts),
        ]
    }

    /// The header: 52 bytes.
    pub open spec fn header(&self) -> Seq<u8> {
        le16(self.overall_checksum()) + magic() + le16(self.header_checksum())
            + self.masked_checksums() + version() + reserved() + self.dimensions()
    }

    /// The texts, each closed by a zero byte: title, author, copyright, the
    /// clues, the notes.
    pub open spec fn texts(&self) -> Seq<u8> {
        terminated(self.title) + terminated(self.author) + terminated(self.copyright)
            + clue_block(self.clues) + terminated(self.notes)
    }

    /// The bytes of the file: header, solution, state, texts.
    pub open spec fn bytes(&self) -> Seq<u8> {
        self.header() + self.solution + self.state + self.texts()
    }
}

/// What a file holds besides its checksums, ready to be written.
#[derive(Debug)]
pub struct PuzContent {
    pub width: u8,
    pub height: u8,
    pub solution: Vec<u8>,
    pub state: Vec<u8>,
    pub title: Vec<u8>,
    pub author: Vec<u8>,
    pub copyright: Vec<u8>,
    pub clues: Vec<Vec<u8>>,
    pub notes: Vec<u8>,
}

impl View for PuzContent {
    type V = PuzFile;

    open spec fn view(&self) -> PuzFile {
        PuzFile {
            width: self.width,
            height: self.height,
            solution: self.solution@,
            state: self.state@,
            title: self.title@,
            author: self.author@,
            copyright: self.copyright@,
            clues: self.clues@.map_values(|clue: Vec<u8>| clue@),
            notes: self.notes@,
        }
    }
}

impl PuzContent {
    /// The checksum over the texts, continued from `start`.
    fn sum_texts(&self, start: u16) -> (sum: u16)
        ensures
            sum == self@.text_checksum(start),
    {
        let mut sum: u16 = sum_field(&self.title, start);
        sum = sum_field(&self.author, sum);
        sum = sum_field(&self.copyright, sum);
        let ghost before = sum;
        let mut i: usize = 0;
        while i < self.clues.len()
            invariant
                0 <= i <= self.clues@.len(),
                sum == clues_checksum(self@.clues.take(i as int), before),
            decreases self.clues@.len() - i,
        {
            assert(self@.clues.take(i + 1).drop_last() =~= self@.clues.take(i as int));
            sum = checksum_region(&self.clues[i], sum);
            i += 1;
        }
        assert(self@.clues.take(i as int) =~= self@.clues);
        sum_field(&self.notes, sum)
    }

    /// Writes the file.
    pub fn write(&self) -> (file: Vec<u8>)
        requires
            self@.framed(),
        ensures
            file@ == self@.bytes(),
    {
        let count: u16 = self.clues.len() as u16;
        let mut dims: Vec<u8> = Vec::new();
        dims.push(self.width);
        dims.push(self.height);
        dims.push((count % 256) as u8);
        dims.push((count / 256) as u8);
        dims.push(1u8);
        dims.push(0u8);
        dims.push(0u8);
        dims.push(0u8);
        assert(dims@ =~= self@.dimensions());
        let header_sum: u16 = checksum_region(&dims, 0);
        let solution_sum: u16 = checksum_region(&self.solution, 0);
        let state_sum: u16 = checksum_region(&self.state, 0);
        let text_sum: u16 = self.sum_texts(0);
        let overall: u16 = self.sum_texts(
            checksum_region(&self.state, checksum_region(&self.solution, header_sum)),
        );

        let mut file: Vec<u8> = Vec::new();
        push_le16(&mut file, overall);
        push_magic(&mut file);
        push_le16(&mut file, header_sum);
        file.push(0x49u8 ^ ((header_sum % 256) as u8));
        file.push(0x43u8 ^ ((solution_sum % 256) as u8));
        file.push(0x48u8 ^ ((state_sum % 256) as u8));
        file.push(0x45u8 ^ ((text_sum % 256) as u8));
        file.push(0x41u8 ^ ((header_sum / 256) as u8));
        file.push(0x54u8 ^ ((solution_sum / 256) as u8));
        file.push(0x45u8 ^ ((state_sum / 256) as u8));
        file.push(0x44u8 ^ ((text_sum / 256) as u8));
        assert(file@ =~= le16(self@.overall_checksum()) + magic() + le16(
            self@.header_checksum(),
        ) + self@.masked_checksums());
        push_version(&mut file);
        push_zeros(&mut file, 16);
        append_bytes(&mut file, &dims);
        assert(file@ =~= self@.header());
        append_bytes(&mut file, &self.solution);
        append_bytes(&mut file, &self.state);
        let ghost grids = file@;
        append_terminated(&mut file, &self.title);
        append_terminated(&mut file, &self.author);
        append_terminated(&mut file, &self.copyright);
        let ghost lead = file@;
        let mut i: usize = 0;
        while i < self.clues.len()
            invariant
                0 <= i <= self.clues@.len(),
                file@ == lead + clue_block(self@.clues.take(i as int)),
            decreases self.clues@.len() - i,
        {
            assert(self@.clues.take(i + 1).drop_last() =~= self@.clues.take(i as int));
            append_terminated(&mut file, &self.clues[i]);
            assert(file@ =~= lead + clue_block(self@.clues.take(i + 1)));
            i += 1;
        }
        assert(self@.clues.take(i as int) =~= self@.clues);
        append_terminated(&mut file, &self.notes);
        assert(file@ =~= grids + self@.texts());
        file
    }
}

/// The checksum over a text that counts with its zero byte, and not at all
/// where it is empty.
fn sum_field(text: &Vec<u8>, start: u16) -> (sum: u16)
    ensures
        sum == field_checksum(text@, start),
{
    if text.len() > 0 {
        let sum: u16 = checksum_region(text, start);
        proof {
            assert(terminated(text@).drop_last() =~= text@);
        }
        checksum_add(sum, 0u8)
    } else {
        start
    }
}

/// Appends a copy of `bytes`.
pub fn append_bytes(out: &mut Vec<u8>, bytes: &Vec<u8>)
    ensures
        final(out)@ == old(out)@ + bytes@,
{
    let mut i: usize = 0;
    while i < bytes.len()
        invariant
            0 <= i <= bytes@.len(),
            out@ == old(out)@ + bytes@.take(i as int),
        decreases bytes@.len() - i,
    {
        out.push(bytes[i]);
        assert(out@ =~= old(out)@ + bytes@.take(i + 1));
        i += 1;
    }
    assert(bytes@.take(i as int) =~= bytes@);
}

/// Appends a text and the zero byte that closes it.
fn append_terminated(out: &mut Vec<u8>, text: &Vec<u8>)
    ensures
        final(out)@ == old(out)@ + terminated(text@),
{
    append_bytes(out, text);
    out.push(0u8);
    assert(out@ =~= old(out)@ + terminated(text@));
}

/// Appends a 16-bit number, the low byte first.
fn push_le16(out: &mut Vec<u8>, value: u16)
    ensures
        final(out)@ == old(out)@ + le16(value),
{
    out.push((value % 256) as u8);
    out.push((value / 256) as u8);
    assert(out@ =~= old(out)@ + le16(value));
}

/// Appends the magic string.
fn push_magic(out: &mut Vec<u8>)
    ensures
        final(out)@ == old(out)@ + magic(),
{
    out.push(0x41u8);
    out.push(0x43u8);
    out.push(0x52u8);
    out.push(0x4Fu8);
    out.push(0x53u8);
    out.push(0x53u8);
    out.push(0x26u8);
    out.push(0x44u8);
    out.push(0x4Fu8);
    out.push(0x57u8);
    out.push(0x4Eu8);
    out.push(0x00u8);
    assert(out@ =~= old(out)@ + magic());
}

/// Appends the version string.
fn push_version(out: &mut Vec<u8>)
    ensures
        final(out)@ == old(out)@ + version(),
{
    out.push(0x31u8);
    out.push(0x2Eu8);
    out.push(0x33u8);
    out.push(0x00u8);
    assert(out@ =~= old(out)@ + version());
}

/// Appends `count` zero bytes.
fn push_zeros(out: &mut Vec<u8>, count: usize)
    ensures
        final(out)@ == old(out)@ + Seq::new(count as nat, |i: int| 0u8),
{
    let mut i: usize = 0;
    while i < count
        invariant
            0 <= i <= count,
            out@ == old(out)@ + Seq::new(i as nat, |k: int| 0u8),
        decreases count - i,
    {
        out.push(0u8);
        assert(out@ =~= old(out)@ + Seq::new((i + 1) as nat, |k: int| 0u8));
        i += 1;
    }
}

} // verus!
