//! The block layout of a zstd frame, as far as it bounds what a block can
//! regenerate.
//!
//! The decoder sums the lengths of a block's sequences in 32 bits and panics where
//! they exceed that. How long the sequences are is known only once they are decoded;
//! what the headers bound is told here, before that.
use vstd::prelude::*;

use crate::bytes::read_le32;

verus! {

/// zstd frame magic, little-endian.
pub const FRAME_MAGIC: u32 = 0xfd2f_b528;

/// Type of a block that repeats one byte.
pub const RLE_BLOCK: usize = 1;

/// Type of a compressed block.
pub const COMPRESSED_BLOCK: usize = 2;

/// Type of block that no decoder takes.
pub const RESERVED_BLOCK: usize = 3;

/// Largest block that is decoded.
pub const MAX_BLOCK_SIZE: usize = 0x2_0000;

/// Largest match.
pub const LONGEST_MATCH: usize = 131_074;

/// Largest match whose code is [`MIDDLE_CODE`] or below.
pub const LONGEST_MIDDLE_MATCH: usize = 32_770;

/// Match length code below those of the two longest classes of matches.
pub const MIDDLE_CODE: u8 = 50;

/// Number of literals that no block has.
pub const LITERALS_LIMIT: usize = 0x10_0000;

/// Number of bytes that a block must not regenerate.
pub const SUM_LIMIT: u64 = 0x1_0000_0000;

/// The bytes that `count` matches regenerate at most, out of a section of `len`
/// bytes: none is longer than [`LONGEST_MATCH`], and one of `n` extra bits is of at
/// most `34 + 8192 * n` bytes.
pub open spec fn longest_matches(count: int, len: int) -> int {
    let by_count = LONGEST_MATCH * count;
    let by_bits = 34 * count + 8192 * (8 * len);
    if by_count <= by_bits {
        by_count
    } else {
        by_bits
    }
}

/// The sum of the numbers.
pub open spec fn total(numbers: Seq<int>) -> int
    decreases numbers.len(),
{
    if numbers.len() == 0 {
        0
    } else {
        total(numbers.drop_last()) + numbers.last()
    }
}

/// Matches of these lengths, with these numbers of extra bits in a section of `len`
/// bytes, regenerate no more than [`longest_matches`].
pub proof fn matches_are_bounded(lengths: Seq<int>, bits: Seq<int>, len: int)
    requires
        lengths.len() == bits.len(),
        forall|i: int| 0 <= i < lengths.len() ==> #[trigger] lengths[i] <= LONGEST_MATCH,
        forall|i: int| 0 <= i < lengths.len() ==> #[trigger] lengths[i] <= 34 + 8192 * bits[i],
        total(bits) <= 8 * len,
    ensures
        total(lengths) <= longest_matches(lengths.len() as int, len),
{
    lemma_total_bound(lengths, LONGEST_MATCH as int);
    lemma_total_by_bits(lengths, bits);
}

/// Matches of codes up to [`MIDDLE_CODE`], as many as a section can declare, stay
/// below the limit with all the literals of a block.
pub proof fn middle_matches_fit(lengths: Seq<int>, literals: int)
    requires
        lengths.len() <= 0x7f00 + 0xffff,
        forall|i: int| 0 <= i < lengths.len() ==> #[trigger] lengths[i] <= LONGEST_MIDDLE_MATCH,
        literals < LITERALS_LIMIT,
    ensures
        total(lengths) + literals < SUM_LIMIT,
{
    lemma_total_bound(lengths, LONGEST_MIDDLE_MATCH as int);
}

/// Numbers of at most `most` sum up to at most that many times `most`.
proof fn lemma_total_bound(numbers: Seq<int>, most: int)
    requires
        forall|i: int| 0 <= i < numbers.len() ==> #[trigger] numbers[i] <= most,
    ensures
        total(numbers) <= most * numbers.len(),
    decreases numbers.len(),
{
    if numbers.len() > 0 {
        let front = numbers.drop_last();
        assert forall|i: int| 0 <= i < front.len() implies #[trigger] front[i] <= most by {
            assert(front[i] == numbers[i]);
        }
        lemma_total_bound(front, most);
        assert(most * numbers.len() == most * front.len() + most) by (nonlinear_arith)
            requires
                numbers.len() == front.len() + 1,
        ;
    }
}

/// Lengths that their extra bits bound sum up to what all the bits bound.
proof fn lemma_total_by_bits(lengths: Seq<int>, bits: Seq<int>)
    requires
        lengths.len() == bits.len(),
        forall|i: int| 0 <= i < lengths.len() ==> #[trigger] lengths[i] <= 34 + 8192 * bits[i],
    ensures
        total(lengths) <= 34 * lengths.len() + 8192 * total(bits),
    decreases lengths.len(),
{
    if lengths.len() > 0 {
        let front = lengths.drop_last();
        assert forall|i: int| 0 <= i < front.len() implies #[trigger] front[i] <= 34 + 8192
            * bits.drop_last()[i] by {
            assert(front[i] == lengths[i]);
        }
        lemma_total_by_bits(front, bits.drop_last());
    }
}

/// The number of sequences that a sequences section declares. It stands for
/// sections of three bytes and more.
pub open spec fn sequence_count(section: Seq<u8>) -> int {
    if section[0] < 128 {
        section[0] as int
    } else if section[0] < 255 {
        0x100 * (section[0] - 128) + section[1]
    } else {
        0x7f00 + section[1] + 0x100 * section[2]
    }
}

/// Bytes that the literals section at the front of a block takes up, with its
/// header. It stands for blocks of five bytes and more.
pub open spec fn literals_len(block: Seq<u8>) -> int {
    let encoding = block[0] % 4;
    let format = block[0] / 4 % 4;
    if encoding < 2 {
        let (header, size) = if format == 1 {
            (2int, block[0] / 16 + 0x10 * block[1])
        } else if format == 3 {
            (3int, block[0] / 16 + 0x10 * block[1] + 0x1000 * block[2])
        } else {
            (1int, (block[0] / 8) as int)
        };
        if encoding == 0 {
            header + size
        } else {
            header + 1
        }
    } else if format == 3 {
        5 + block[2] / 64 + 4 * block[3] + 0x400 * block[4]
    } else if format == 2 {
        4 + block[2] / 4 + 0x40 * block[3]
    } else {
        3 + block[1] / 64 + 4 * block[2]
    }
}

/// Whether a sequences section with the long form of the count gives one code for all
/// matches, of [`MIDDLE_CODE`] or below. The code is looked for only where no table
/// for literal lengths or offsets stands before it.
pub open spec fn has_middle_code(section: Seq<u8>) -> bool {
    let modes = section[3];
    let at = 4 + (if modes / 64 == 1 {
        1int
    } else {
        0
    }) + (if modes / 16 % 4 == 1 {
        1int
    } else {
        0
    });
    &&& section.len() > at
    &&& section[0] == 255
    &&& modes / 64 != 2
    &&& modes / 16 % 4 != 2
    &&& modes / 4 % 4 == 1
    &&& section[at] <= MIDDLE_CODE
}

/// Whether what a sequences section regenerates is known to stay below the limit
/// with all the literals of a block.
pub open spec fn section_fits(section: Seq<u8>) -> bool {
    ||| section.len() < 3
    ||| longest_matches(sequence_count(section), section.len() as int) + LITERALS_LIMIT < SUM_LIMIT
    ||| has_middle_code(section)
}

/// Whether the sequences section of a compressed block fits. A block whose literals do
/// not lie within it is not decoded.
pub open spec fn block_fits(block: Seq<u8>) -> bool {
    ||| block.len() < 5
    ||| literals_len(block) > block.len()
    ||| section_fits(block.skip(literals_len(block)))
}

/// The block header at `pos`, as a number.
pub open spec fn block_header(bytes: Seq<u8>, pos: int) -> int {
    bytes[pos] + 0x100 * bytes[pos + 1] + 0x1_0000 * bytes[pos + 2]
}

/// The type of a block.
pub open spec fn block_type(header: int) -> int {
    header / 2 % 4
}

/// Bytes that a block takes up behind its header: one where it repeats one byte,
/// else as many as the header says.
pub open spec fn block_body(header: int) -> int {
    if block_type(header) == RLE_BLOCK {
        1
    } else {
        header / 8
    }
}

/// Whether the block at `pos` is one that is decoded: of a known type, not too
/// large, and whole.
pub open spec fn block_is_decoded(bytes: Seq<u8>, pos: int) -> bool {
    &&& pos + 3 <= bytes.len()
    &&& block_type(block_header(bytes, pos)) != RESERVED_BLOCK
    &&& block_header(bytes, pos) / 8 <= MAX_BLOCK_SIZE
    &&& pos + 3 + block_body(block_header(bytes, pos)) <= bytes.len()
}

/// Whether every compressed block that is decoded, from `pos` on and up to the
/// frame's last, fits.
pub open spec fn blocks_fit(bytes: Seq<u8>, pos: int) -> bool
    decreases bytes.len() - pos,
{
    block_is_decoded(bytes, pos) ==> {
        let header = block_header(bytes, pos);
        let next = pos + 3 + block_body(header);
        &&& block_type(header) == COMPRESSED_BLOCK ==> block_fits(bytes.subrange(pos + 3, next))
        &&& header % 2 == 0 ==> blocks_fit(bytes, next)
    }
}

/// Where the first block of a frame with this descriptor begins.
pub open spec fn first_block(descriptor: u8) -> int {
    let single_segment = descriptor / 32 % 2 == 1;
    let window = if single_segment {
        0int
    } else {
        1
    };
    let dictionary = if descriptor % 4 == 3 {
        4
    } else {
        (descriptor % 4) as int
    };
    let content_size = if descriptor / 64 == 0 {
        1 - window
    } else if descriptor / 64 == 1 {
        2
    } else if descriptor / 64 == 2 {
        4
    } else {
        8
    };
    5 + window + dictionary + content_size
}

/// Whether every compressed block of the zstd frame at the front of `bytes` fits, so
/// that none regenerates [`SUM_LIMIT`] bytes.
pub open spec fn sums_fit(bytes: Seq<u8>) -> bool {
    ||| bytes.len() < 5
    ||| crate::bytes::le32(bytes, 0) != FRAME_MAGIC
    ||| blocks_fit(bytes, first_block(bytes[4]))
}

/// Bytes that the literals section at the front of a block takes up.
fn literals_end(block: &[u8]) -> (r: usize)
    requires
        block@.len() >= 5,
    ensures
        r == literals_len(block@),
{
    let encoding: u8 = block[0] % 4;
    let format: u8 = block[0] / 4 % 4;
    if encoding < 2 {
        let header: usize = if format == 1 {
            2
        } else if format == 3 {
            3
        } else {
            1
        };
        if encoding == 1 {
            return header + 1;
        }
        let size: usize = if format == 1 {
            (block[0] / 16) as usize + 0x10 * (block[1] as usize)
        } else if format == 3 {
            (block[0] / 16) as usize + 0x10 * (block[1] as usize) + 0x1000 * (block[2] as usize)
        } else {
            (block[0] / 8) as usize
        };
        header + size
    } else if format == 3 {
        5 + (block[2] / 64) as usize + 4 * (block[3] as usize) + 0x400 * (block[4] as usize)
    } else if format == 2 {
        4 + (block[2] / 4) as usize + 0x40 * (block[3] as usize)
    } else {
        3 + (block[1] / 64) as usize + 4 * (block[2] as usize)
    }
}

/// The number of sequences that a sequences section declares.
fn count_sequences(section: &[u8]) -> (r: usize)
    requires
        section@.len() >= 3,
    ensures
        r == sequence_count(section@),
{
    if section[0] < 128 {
        section[0] as usize
    } else if section[0] < 255 {
        0x100 * ((section[0] - 128) as usize) + section[1] as usize
    } else {
        0x7f00 + section[1] as usize + 0x100 * (section[2] as usize)
    }
}

/// Whether a sequences section gives one code of [`MIDDLE_CODE`] or below for all
/// matches.
fn is_of_middle_code(section: &[u8]) -> (r: bool)
    ensures
        r == has_middle_code(section@),
{
    let len: usize = section.len();
    if len < 4 {
        return false;
    }
    let modes: u8 = section[3];
    let mut at: usize = 4;
    if modes / 64 == 1 {
        at = at + 1;
    }
    if modes / 16 % 4 == 1 {
        at = at + 1;
    }
    len > at && section[0] == 255 && modes / 64 != 2 && modes / 16 % 4 != 2 && modes / 4 % 4 == 1
        && section[at] <= MIDDLE_CODE
}

/// Whether a sequences section is known to stay below the limit.
pub fn section_has_fitting_sum(section: &[u8]) -> (r: bool)
    ensures
        r == section_fits(section@),
{
    let len: usize = section.len();
    if len < 3 {
        return true;
    }
    let count: u64 = count_sequences(section) as u64;
    assert(LONGEST_MATCH * count <= 0x4_0000_0000) by (nonlinear_arith)
        requires
            0 <= count <= 0x7f00 + 0xffff,
            LONGEST_MATCH == 131_074,
    ;
    let limit: u64 = SUM_LIMIT - LITERALS_LIMIT as u64;
    // Sections of 65536 bytes and more hold enough bits for any matches.
    LONGEST_MATCH as u64 * count < limit || (len < 0x1_0000 && 34 * count + 0x1_0000 * (len as u64)
        < limit) || is_of_middle_code(section)
}

/// Whether the sequences section of a compressed block fits.
pub fn block_has_fitting_sum(block: &[u8]) -> (r: bool)
    ensures
        r == block_fits(block@),
{
    let len: usize = block.len();
    if len < 5 {
        return true;
    }
    let at: usize = literals_end(block);
    if at > len {
        return true;
    }
    let section: &[u8] = &block[at..len];
    assert(section@ =~= block@.skip(at as int));
    section_has_fitting_sum(section)
}

/// Whether every compressed block of the zstd frame at the front of `bytes` fits.
pub fn has_fitting_sums(bytes: &[u8]) -> (r: bool)
    ensures
        r == sums_fit(bytes@),
{
    let len: usize = bytes.len();
    if len < 5 || read_le32(bytes, 0) != FRAME_MAGIC {
        return true;
    }
    let descriptor: u8 = bytes[4];
    let window: usize = if descriptor / 32 % 2 == 1 {
        0
    } else {
        1
    };
    let dictionary: usize = if descriptor % 4 == 3 {
        4
    } else {
        (descriptor % 4) as usize
    };
    let content_size: usize = if descriptor / 64 == 0 {
        1 - window
    } else if descriptor / 64 == 1 {
        2
    } else if descriptor / 64 == 2 {
        4
    } else {
        8
    };
    let mut pos: usize = 5 + window + dictionary + content_size;
    assert(pos == first_block(descriptor));
    while pos <= len && len - pos >= 3
        invariant
            len == bytes@.len(),
            sums_fit(bytes@) == blocks_fit(bytes@, pos as int),
        decreases len - pos,
    {
        let header: usize = bytes[pos] as usize + 0x100 * (bytes[pos + 1] as usize) + 0x1_0000 * (
        bytes[pos + 2] as usize);
        assert(header == block_header(bytes@, pos as int));
        let of_type: usize = header / 2 % 4;
        let body: usize = if of_type == RLE_BLOCK {
            1
        } else {
            header / 8
        };
        if of_type == RESERVED_BLOCK || header / 8 > MAX_BLOCK_SIZE || body > len - pos - 3 {
            return true;
        }
        let next: usize = pos + 3 + body;
        assert(block_is_decoded(bytes@, pos as int));
        if of_type == COMPRESSED_BLOCK && !block_has_fitting_sum(&bytes[pos + 3..next]) {
            return false;
        }
        if header % 2 == 1 {
            return true;
        }
        pos = next;
    }
    true
}

/// Whatever a file of up to 65469 bytes holds, it fits: it has too few bits for matches
/// of 4 GiB.
pub proof fn small_files_fit(bytes: Seq<u8>)
    requires
        bytes.len() <= 65_469,
    ensures
        sums_fit(bytes),
{
    if bytes.len() >= 5 {
        lemma_small_blocks_fit(bytes, first_block(bytes[4]));
    }
}

/// Every block of a small file fits.
proof fn lemma_small_blocks_fit(bytes: Seq<u8>, pos: int)
    requires
        bytes.len() <= 65_469,
        0 <= pos,
    ensures
        blocks_fit(bytes, pos),
    decreases bytes.len() - pos,
{
    if block_is_decoded(bytes, pos) {
        let next = pos + 3 + block_body(block_header(bytes, pos));
        small_blocks_fit(bytes.subrange(pos + 3, next));
        lemma_small_blocks_fit(bytes, next);
    }
}

/// Whatever a block of up to 65469 bytes holds, it fits.
pub proof fn small_blocks_fit(block: Seq<u8>)
    requires
        block.len() <= 65_469,
    ensures
        block_fits(block),
{
    if block.len() >= 5 && literals_len(block) <= block.len() {
        let section = block.skip(literals_len(block));
        if section.len() >= 3 {
            assert(0 <= sequence_count(section) <= 0x7f00 + 0xffff);
        }
    }
}

/// What does not begin with the magic of a zstd frame is none, and fits.
pub proof fn other_files_fit(bytes: Seq<u8>)
    requires
        bytes.len() < 4 || !(bytes[0] == 0x28 && bytes[1] == 0xb5 && bytes[2] == 0x2f && bytes[3]
            == 0xfd),
    ensures
        sums_fit(bytes),
{
}

/// The blocks of a frame begin behind its magic, its descriptor, the window descriptor
/// unless it is one segment, the dictionary id and the content size, which the
/// descriptor gives the sizes of.
pub proof fn blocks_begin_behind_frame_header(bytes: Seq<u8>, at: int)
    requires
        bytes.len() >= 5,
        bytes[0] == 0x28,
        bytes[1] == 0xb5,
        bytes[2] == 0x2f,
        bytes[3] == 0xfd,
        at == 5 + (if bytes[4] & 0x20 == 0 {
            1int
        } else {
            0
        }) + (if bytes[4] & 3 == 3 {
            4int
        } else {
            (bytes[4] & 3) as int
        }) + (if bytes[4] >> 6 == 3 {
            8int
        } else if bytes[4] >> 6 == 2 {
            4
        } else if bytes[4] >> 6 == 1 {
            2
        } else if bytes[4] & 0x20 == 0 {
            0
        } else {
            1
        }),
    ensures
        sums_fit(bytes) <==> blocks_fit(bytes, at),
{
    let d = bytes[4];
    assert((d & 0x20 == 0 <==> d / 32 % 2 == 0) && d & 3 == d % 4 && d >> 6 == d / 64 && d / 32 % 2
        < 2) by (bit_vector);
}

/// Blocks are walked from header to header, up to the last and as far as they are
/// decoded: stored and repeated ones are passed over, and each compressed one has to
/// fit.
pub proof fn compressed_blocks_have_to_fit(bytes: Seq<u8>, pos: int, last: bool, kind: int, n: int)
    requires
        0 <= pos,
        pos + 3 <= bytes.len(),
        0 <= kind < 4,
        0 <= n,
        bytes[pos] + 0x100 * bytes[pos + 1] + 0x1_0000 * bytes[pos + 2] == (if last {
            1int
        } else {
            0
        }) + 2 * kind + 8 * n,
    ensures
        ({
            let next = pos + 3 + if kind == 1 {
                1
            } else {
                n
            };
            if kind == 3 || n > 0x2_0000 || next > bytes.len() {
                blocks_fit(bytes, pos)
            } else {
                blocks_fit(bytes, pos) <==> (kind == 2 ==> block_fits(
                    bytes.subrange(pos + 3, next),
                )) && (!last ==> blocks_fit(bytes, next))
            }
        }),
{
}

/// Where no further block begins there is nothing that could not fit.
pub proof fn end_of_file_fits(bytes: Seq<u8>, pos: int)
    requires
        pos + 3 > bytes.len(),
    ensures
        blocks_fit(bytes, pos),
{
}

/// A section with up to 32759 sequences fits, however long they are.
pub proof fn few_sequences_fit(section: Seq<u8>)
    requires
        section.len() >= 3 ==> section[0] < 255 || section[1] + 0x100 * section[2] <= 247,
    ensures
        section_fits(section),
{
    if section.len() >= 3 {
        let n = sequence_count(section);
        assert(0 <= n <= 32_759);
        assert(LONGEST_MATCH * n <= 131_074 * 32_759) by (nonlinear_arith)
            requires
                0 <= n <= 32_759,
                LONGEST_MATCH == 131_074,
        ;
    }
}

/// A section with more sequences, and with bits enough to make all of them as long as
/// can be, does not fit, unless one code for all of them says otherwise.
pub proof fn many_long_sequences_do_not_fit(section: Seq<u8>)
    requires
        section.len() >= 0x1_0000,
        section[0] == 255,
        section[1] + 0x100 * section[2] >= 248,
        section[3] / 4 % 4 != 1,
    ensures
        !section_fits(section),
{
    let n = sequence_count(section);
    assert(131_074 * 32_760 <= LONGEST_MATCH * n) by (nonlinear_arith)
        requires
            n >= 32_760,
            LONGEST_MATCH == 131_074,
    ;
}

/// The sequences section of a block stands behind its literals: `n` bytes as they are,
/// one byte that is repeated, or `n` compressed bytes, behind a header whose first byte
/// tells the form and the size of it.
pub proof fn sequences_stand_behind_literals(block: Seq<u8>)
    requires
        block.len() >= 5,
    ensures
        block[0] % 8 == 0 ==> literals_len(block) == 1
            + block[0] / 8,
        block[0] % 16 == 4 ==> literals_len(block) == 2 + block[0] / 16 + 0x10 * block[1],
        block[0] % 16 == 12 ==> literals_len(block) == 3 + block[0] / 16 + 0x10 * block[1] + 0x1000
            * block[2],
        block[0] % 8 == 1 ==> literals_len(block) == 2,
        block[0] % 16 == 5 ==> literals_len(block) == 3,
        block[0] % 16 == 13 ==> literals_len(block) == 4,
        block[0] % 16 == 2 || block[0] % 16 == 3 || block[0] % 16 == 6 || block[0] % 16 == 7
            ==> literals_len(block) == 3 + block[1] / 64 + 4 * block[2],
        block[0] % 16 == 10 || block[0] % 16 == 11 ==> literals_len(block) == 4 + block[2] / 4 + 0x40
            * block[3],
        block[0] % 16 == 14 || block[0] % 16 == 15 ==> literals_len(block) == 5 + block[2] / 64 + 4
            * block[3] + 0x400 * block[4],
        block_fits(block) <==> literals_len(block) > block.len() || section_fits(
            block.skip(literals_len(block)),
        ),
{
    let d = block[0];
    assert((d % 8 == 0 ==> d % 4 == 0 && d / 4 % 4 % 2 == 0) && (d % 16 == 4 ==> d % 4 == 0 && d / 4
        % 4 == 1) && (d % 16 == 12 ==> d % 4 == 0 && d / 4 % 4 == 3) && (d % 8 == 1 ==> d % 4 == 1
        && d / 4 % 4 % 2 == 0) && (d % 16 == 5 ==> d % 4 == 1 && d / 4 % 4 == 1) && (d % 16 == 13
        ==> d % 4 == 1 && d / 4 % 4 == 3) && (d % 16 == 2 || d % 16 == 3 ==> d % 4 >= 2 && d / 4 % 4
        == 0) && (d % 16 == 6 || d % 16 == 7 ==> d % 4 >= 2 && d / 4 % 4 == 1) && (d % 16 == 10 || d
        % 16 == 11 ==> d % 4 >= 2 && d / 4 % 4 == 2) && (d % 16 == 14 || d % 16 == 15 ==> d % 4 >= 2
        && d / 4 % 4 == 3)) by (bit_vector);
}

/// Whatever a sequences section of up to 65469 bytes holds, it fits.
pub proof fn small_sections_fit(section: Seq<u8>)
    requires
        section.len() <= 65_469,
    ensures
        section_fits(section),
{
    if section.len() >= 3 {
        assert(0 <= sequence_count(section) <= 0x7f00 + 0xffff);
    }
}

/// A section that gives one code up to 50 for all its matches fits, however many they
/// are: the code is the byte behind the compression modes and the codes for literal
/// lengths and offsets, where these are given by one code too.
pub proof fn one_short_code_fits(section: Seq<u8>, at: int)
    requires
        section[0] == 255,
        section[3] / 4 % 4 == 1,
        section[3] / 64 != 2,
        section[3] / 16 % 4 != 2,
        at == if section[3] / 64 == 1 && section[3] / 16 % 4 == 1 {
            6int
        } else if section[3] / 64 == 1 || section[3] / 16 % 4 == 1 {
            5
        } else {
            4
        },
        at < section.len(),
        section[at] <= 50,
    ensures
        section_fits(section),
{
}

} // verus!
