//! AML encoding of the namespace objects that the emitters write.
use vstd::prelude::*;

use crate::dtb::{DtbError, Sense};

verus! {

/// Prefix of the extended opcodes.
pub const EXT_OP_PREFIX: u8 = 0x5b;

/// Extended opcode of `Device`.
pub const DEVICE_OP: u8 = 0x82;

pub const NAME_OP: u8 = 0x08;

pub const BUFFER_OP: u8 = 0x11;

pub const BYTE_PREFIX: u8 = 0x0a;

pub const WORD_PREFIX: u8 = 0x0b;

pub const DWORD_PREFIX: u8 = 0x0c;

pub const STRING_PREFIX: u8 = 0x0d;

/// Bytes of a package length in the two-byte form.
pub const PKG_LENGTH_BYTES: usize = 2;

/// Bytes of a QWord memory descriptor.
pub const QWORD_MEMORY_BYTES: usize = 46;

/// Bytes of an extended interrupt descriptor with one interrupt.
pub const EXTENDED_INTERRUPT_BYTES: usize = 9;

/// Bytes of an end tag.
pub const END_TAG_BYTES: usize = 2;

/// Bytes of `Name(_CRS, Buffer(..) {` before the descriptors.
pub const CRS_WRAPPER_BYTES: usize = 11;

/// `before` with `data` laid over it from `pos` on.
pub open spec fn overlaid(before: Seq<u8>, pos: int, data: Seq<u8>) -> Seq<u8> {
    Seq::new(
        before.len(),
        |k: int|
            if pos <= k < pos + data.len() {
                data[k - pos]
            } else {
                before[k]
            },
    )
}

/// What writing `data` at `pos` does: it succeeds exactly where the data fits,
/// and then gives the position behind it; where it fails, a first part of the
/// data may have been written, and nothing else has changed.
pub open spec fn wrote(
    before: Seq<u8>,
    pos: int,
    data: Seq<u8>,
    after: Seq<u8>,
    r: Result<usize, DtbError>,
) -> bool {
    match r {
        Ok(end) => {
            &&& end == pos + data.len()
            &&& end <= before.len()
            &&& after == overlaid(before, pos, data)
        },
        Err(e) => {
            &&& e == DtbError::Internal
            &&& pos + data.len() > before.len()
            &&& wrote_part(before, pos, data, after)
        },
    }
}

/// Whether a first part of `data`, and nothing else, has been written at `pos`.
pub open spec fn wrote_part(before: Seq<u8>, pos: int, data: Seq<u8>, after: Seq<u8>) -> bool {
    exists|n: int|
        0 <= n <= data.len() && after == overlaid(before, pos, #[trigger] data.take(n))
}

/// Writing a next piece of `whole` behind the pieces written so far is writing
/// one piece more; failing to write it is failing to write `whole`.
pub proof fn lemma_wrote_next(
    before: Seq<u8>,
    pos: int,
    sofar: Seq<u8>,
    middle: Seq<u8>,
    at: usize,
    piece: Seq<u8>,
    after: Seq<u8>,
    r: Result<usize, DtbError>,
    whole: Seq<u8>,
)
    requires
        wrote(before, pos, sofar, middle, Ok(at)),
        wrote(middle, at as int, piece, after, r),
        (sofar + piece).len() <= whole.len(),
        whole.take((sofar + piece).len() as int) == sofar + piece,
    ensures
        r is Ok ==> wrote(before, pos, sofar + piece, after, r),
        r is Err ==> wrote(before, pos, whole, after, r),
{
    let both = sofar + piece;
    match r {
        Ok(_) => {
            assert(after =~= overlaid(before, pos, both));
        },
        Err(_) => {
            let n = choose|n: int|
                0 <= n <= piece.len() && after == overlaid(
                    middle,
                    at as int,
                    #[trigger] piece.take(n),
                );
            assert(whole.take(sofar.len() + n) =~= both.take(sofar.len() + n));
            assert(after =~= overlaid(before, pos, whole.take(sofar.len() + n)));
        },
    }
}

/// Failing to write a first part of `whole` is failing to write it.
pub proof fn lemma_failed_within(
    before: Seq<u8>,
    pos: int,
    part: Seq<u8>,
    whole: Seq<u8>,
    after: Seq<u8>,
    r: Result<usize, DtbError>,
)
    requires
        wrote(before, pos, part, after, r),
        r is Err,
        part.len() <= whole.len(),
        whole.take(part.len() as int) == part,
    ensures
        wrote(before, pos, whole, after, r),
{
    let n = choose|n: int|
        0 <= n <= part.len() && after == overlaid(before, pos, #[trigger] part.take(n));
    assert(part.take(n) =~= whole.take(n));
}

/// Writes the bytes at `pos` and gives the position behind them. Where they do
/// not fit, nothing is written.
pub fn write_bytes(slot: &mut [u8], pos: usize, data: &[u8]) -> (r: Result<usize, DtbError>)
    ensures
        wrote(old(slot)@, pos as int, data@, final(slot)@, r),
        r is Err ==> final(slot)@ == old(slot)@,
{
    let ghost before = slot@;
    let len: usize = slot.len();
    let n: usize = data.len();
    if pos > len || n > len - pos {
        proof {
            assert(data@.take(0) =~= seq![]);
            assert(slot@ =~= overlaid(before, pos as int, data@.take(0)));
        }
        return Err(DtbError::Internal);
    }
    let mut k: usize = 0;
    while k < n
        invariant
            k <= n,
            n == data@.len(),
            len == slot@.len(),
            pos + n <= len,
            before.len() == len,
            forall|i: int|
                0 <= i < len ==> #[trigger] slot@[i] == (if pos <= i < pos + k {
                    data@[i - pos]
                } else {
                    before[i]
                }),
        decreases n - k,
    {
        slot[pos + k] = data[k];
        k = k + 1;
    }
    assert(slot@ =~= overlaid(before, pos as int, data@));
    Ok(pos + n)
}

/// The two-byte form of a package length: the low nibble with the byte count,
/// then the rest.
pub open spec fn pkg_length(value: int) -> Seq<u8> {
    seq![(0x40 + value % 16) as u8, (value / 16) as u8]
}

/// Writes a package length in the two-byte form.
pub fn write_pkg_length(slot: &mut [u8], pos: usize, value: usize) -> (r: Result<usize, DtbError>)
    requires
        value < 0x1000,
    ensures
        wrote(old(slot)@, pos as int, pkg_length(value as int), final(slot)@, r),
        r is Err ==> final(slot)@ == old(slot)@,
{
    let data: [u8; 2] = [(0x40 + value % 16) as u8, (value / 16) as u8];
    assert(data@ =~= pkg_length(value as int));
    write_bytes(slot, pos, data.as_slice())
}

/// The base-36 digit of `d`: `0` to `9`, then `A` to `Z`.
pub open spec fn digit36(d: int) -> u8 {
    if d < 10 {
        (0x30 + d) as u8
    } else {
        (0x41 + d - 10) as u8
    }
}

/// A three-letter prefix with the index's last base-36 digit behind it.
pub open spec fn indexed_name(prefix: Seq<u8>, index: u8) -> Seq<u8> {
    prefix.push(digit36(index as int % 36))
}

/// Makes a name segment out of a three-letter prefix and an index.
pub fn name_seg_indexed(prefix: &[u8; 3], index: u8) -> (r: [u8; 4])
    ensures
        r@ == indexed_name(prefix@, index),
{
    let d: u8 = index % 36;
    let c: u8 = if d < 10 {
        0x30 + d
    } else {
        0x41 + (d - 10)
    };
    let r: [u8; 4] = [prefix[0], prefix[1], prefix[2], c];
    assert(r@ =~= indexed_name(prefix@, index));
    r
}

/// Whether a byte may begin a name segment: a letter or `_`.
pub open spec fn is_lead_char(c: u8) -> bool {
    0x41 <= c <= 0x5a || c == 0x5f
}

/// Whether a byte may stand in a name segment: a letter, `_` or a digit.
pub open spec fn is_name_char(c: u8) -> bool {
    is_lead_char(c) || 0x30 <= c <= 0x39
}

/// Whether the bytes are a name segment.
pub open spec fn is_name_seg(s: Seq<u8>) -> bool {
    &&& s.len() == 4
    &&& is_lead_char(s[0])
    &&& is_name_char(s[1])
    &&& is_name_char(s[2])
    &&& is_name_char(s[3])
}

/// An indexed name is a name segment where its prefix can begin one, and indices
/// below 36 have names of their own.
pub proof fn indexed_names_are_valid(prefix: Seq<u8>, a: u8, b: u8)
    requires
        prefix.len() == 3,
        is_lead_char(prefix[0]),
        is_name_char(prefix[1]),
        is_name_char(prefix[2]),
    ensures
        is_name_seg(indexed_name(prefix, a)),
        a < 36 && b < 36 && indexed_name(prefix, a) == indexed_name(prefix, b) ==> a == b,
{
    if indexed_name(prefix, a) == indexed_name(prefix, b) {
        assert(indexed_name(prefix, a)[3] == indexed_name(prefix, b)[3]);
    }
}

/// Writes a name segment.
pub fn write_name_seg(slot: &mut [u8], pos: usize, name: &[u8; 4]) -> (r: Result<usize, DtbError>)
    ensures
        wrote(old(slot)@, pos as int, name@, final(slot)@, r),
        r is Err ==> final(slot)@ == old(slot)@,
{
    write_bytes(slot, pos, name.as_slice())
}

/// The opening of `Device(name) {` for a device of `total` bytes.
pub open spec fn device_header(name: Seq<u8>, total: int) -> Seq<u8> {
    seq![EXT_OP_PREFIX, DEVICE_OP] + pkg_length(total - 2) + name
}

/// Writes the opening of `Device(name) {` for a device of `total` bytes: the
/// package length counts all of them but the opcode.
pub fn write_device_header(slot: &mut [u8], pos: usize, name: &[u8; 4], total: usize) -> (r: Result<
    usize,
    DtbError,
>)
    requires
        2 <= total < 0x1002,
    ensures
        wrote(old(slot)@, pos as int, device_header(name@, total as int), final(slot)@, r),
        r is Err ==> final(slot)@ == old(slot)@,
{
    let value: usize = total - 2;
    let data: [u8; 8] = [
        EXT_OP_PREFIX,
        DEVICE_OP,
        (0x40 + value % 16) as u8,
        (value / 16) as u8,
        name[0],
        name[1],
        name[2],
        name[3],
    ];
    assert(data@ =~= device_header(name@, total as int));
    write_bytes(slot, pos, data.as_slice())
}

/// The value of an upper-case hexadecimal digit.
pub open spec fn hex_value(c: u8) -> int {
    if c <= 0x39 {
        c - 0x30
    } else {
        c - 0x41 + 10
    }
}

/// Whether the bytes are an EISA id: three capital letters and four upper-case
/// hexadecimal digits.
pub open spec fn is_eisa_id(id: Seq<u8>) -> bool {
    &&& id.len() == 7
    &&& forall|i: int| 0 <= i < 3 ==> 0x41 <= #[trigger] id[i] <= 0x5a
    &&& forall|i: int|
        3 <= i < 7 ==> 0x30 <= #[trigger] id[i] <= 0x39 || 0x41 <= id[i] <= 0x46
}

/// The compressed form of an EISA id: five bits a letter and four a digit, most
/// significant byte first, read as a little-endian word.
pub open spec fn eisa_word(id: Seq<u8>) -> int {
    let letters = 0x400 * (id[0] - 0x40) + 0x20 * (id[1] - 0x40) + (id[2] - 0x40);
    let high = 0x10 * hex_value(id[3]) + hex_value(id[4]);
    let low = 0x10 * hex_value(id[5]) + hex_value(id[6]);
    letters / 0x100 + 0x100 * (letters % 0x100) + 0x1_0000 * high + 0x100_0000 * low
}

/// The value of an upper-case hexadecimal digit.
fn hex_digit(c: u8) -> (r: u32)
    requires
        0x30 <= c <= 0x39 || 0x41 <= c <= 0x46,
    ensures
        r == hex_value(c),
        r < 16,
{
    if c <= 0x39 {
        (c - 0x30) as u32
    } else {
        (c - 0x41) as u32 + 10
    }
}

/// The compressed form of an EISA id.
pub fn eisaid(id: &[u8; 7]) -> (r: u32)
    requires
        is_eisa_id(id@),
    ensures
        r == eisa_word(id@),
{
    assert(0x41 <= id@[0] <= 0x5a && 0x41 <= id@[1] <= 0x5a && 0x41 <= id@[2] <= 0x5a);
    let letters: u32 = 0x400 * ((id[0] - 0x40) as u32) + 0x20 * ((id[1] - 0x40) as u32) + (id[2]
        - 0x40) as u32;
    let high: u32 = 0x10 * hex_digit(id[3]) + hex_digit(id[4]);
    let low: u32 = 0x10 * hex_digit(id[5]) + hex_digit(id[6]);
    letters / 0x100 + 0x100 * (letters % 0x100) + 0x1_0000 * high + 0x100_0000 * low
}

/// `Name(seg, value)` with a DWord value.
pub open spec fn name_dword(seg: Seq<u8>, value: u32) -> Seq<u8> {
    seq![NAME_OP] + seg + seq![DWORD_PREFIX] + crate::bytes::le32_bytes(value)
}

/// Writes `Name(seg, value)` with a DWord value.
pub fn write_name_dword(slot: &mut [u8], pos: usize, seg: &[u8; 4], value: u32) -> (r: Result<
    usize,
    DtbError,
>)
    ensures
        wrote(old(slot)@, pos as int, name_dword(seg@, value), final(slot)@, r),
        r is Err ==> final(slot)@ == old(slot)@,
{
    let data: [u8; 10] = [
        NAME_OP,
        seg[0],
        seg[1],
        seg[2],
        seg[3],
        DWORD_PREFIX,
        (value % 0x100) as u8,
        (value / 0x100 % 0x100) as u8,
        (value / 0x1_0000 % 0x100) as u8,
        (value / 0x100_0000) as u8,
    ];
    assert(data@ =~= name_dword(seg@, value));
    write_bytes(slot, pos, data.as_slice())
}

/// `Name(seg, value)` with a Byte value.
pub open spec fn name_byte(seg: Seq<u8>, value: u8) -> Seq<u8> {
    seq![NAME_OP] + seg + seq![BYTE_PREFIX, value]
}

/// Writes `Name(seg, value)` with a Byte value.
pub fn write_name_byte(slot: &mut [u8], pos: usize, seg: &[u8; 4], value: u8) -> (r: Result<
    usize,
    DtbError,
>)
    ensures
        wrote(old(slot)@, pos as int, name_byte(seg@, value), final(slot)@, r),
        r is Err ==> final(slot)@ == old(slot)@,
{
    let data: [u8; 7] = [NAME_OP, seg[0], seg[1], seg[2], seg[3], BYTE_PREFIX, value];
    assert(data@ =~= name_byte(seg@, value));
    write_bytes(slot, pos, data.as_slice())
}

/// `Name(seg, "text")`.
pub open spec fn name_string(seg: Seq<u8>, text: Seq<u8>) -> Seq<u8> {
    seq![NAME_OP] + seg + seq![STRING_PREFIX] + text + seq![0u8]
}

/// Writes `Name(seg, "text")`.
pub fn write_name_string(slot: &mut [u8], pos: usize, seg: &[u8; 4], text: &[u8]) -> (r: Result<
    usize,
    DtbError,
>)
    ensures
        wrote(old(slot)@, pos as int, name_string(seg@, text@), final(slot)@, r),
        r is Err ==> final(slot)@ == old(slot)@,
{
    let mut data: Vec<u8> = Vec::new();
    data.push(NAME_OP);
    data.push(seg[0]);
    data.push(seg[1]);
    data.push(seg[2]);
    data.push(seg[3]);
    data.push(STRING_PREFIX);
    data.extend_from_slice(text);
    data.push(0);
    assert(data@ =~= name_string(seg@, text@));
    write_bytes(slot, pos, data.as_slice())
}

/// `Name(_CRS, Buffer(n) {`: the package length counts itself, the buffer size
/// and the descriptors.
pub open spec fn crs_header(n: int) -> Seq<u8> {
    seq![NAME_OP, 0x5fu8, 0x43u8, 0x52u8, 0x53u8, BUFFER_OP] + pkg_length(n + 5) + seq![
        WORD_PREFIX,
        (n % 0x100) as u8,
        (n / 0x100) as u8,
    ]
}

/// Writes `Name(_CRS, Buffer(n) {` for descriptors of `n` bytes.
pub fn write_crs_buffer_header(slot: &mut [u8], pos: usize, n: usize) -> (r: Result<
    usize,
    DtbError,
>)
    requires
        n < 0xffb,
    ensures
        wrote(old(slot)@, pos as int, crs_header(n as int), final(slot)@, r),
        r is Err ==> final(slot)@ == old(slot)@,
{
    let value: usize = n + 5;
    let data: [u8; 11] = [
        NAME_OP,
        0x5f,
        0x43,
        0x52,
        0x53,
        BUFFER_OP,
        (0x40 + value % 16) as u8,
        (value / 16) as u8,
        WORD_PREFIX,
        (n % 0x100) as u8,
        (n / 0x100) as u8,
    ];
    assert(data@ =~= crs_header(n as int));
    write_bytes(slot, pos, data.as_slice())
}

/// A QWord memory descriptor for a fixed, consumed, read-write window.
pub open spec fn qword_memory(base: u64, size: u64) -> Seq<u8> {
    seq![0x8au8, 0x2bu8, 0u8, 0u8, 0x0du8, 0x01u8] + crate::bytes::le64_bytes(0)
        + crate::bytes::le64_bytes(base) + crate::bytes::le64_bytes((base + size - 1) as u64)
        + crate::bytes::le64_bytes(0) + crate::bytes::le64_bytes(size)
}

/// Appends the eight little-endian bytes of `v`.
fn push_le64(out: &mut Vec<u8>, v: u64)
    ensures
        final(out)@ == old(out)@ + crate::bytes::le64_bytes(v),
{
    let low: u32 = (v % 0x1_0000_0000) as u32;
    let high: u32 = (v / 0x1_0000_0000) as u32;
    crate::bytes::push_le32(out, low);
    crate::bytes::push_le32(out, high);
    assert(out@ =~= old(out)@ + crate::bytes::le64_bytes(v));
}

/// Writes a QWord memory descriptor for the window of `size` bytes at `base`.
/// Where that is no window nothing is written.
pub fn write_qword_memory(slot: &mut [u8], pos: usize, base: u64, size: u64) -> (r: Result<
    usize,
    DtbError,
>)
    ensures
        crate::dtb::is_window(base, size) ==> wrote(
            old(slot)@,
            pos as int,
            qword_memory(base, size),
            final(slot)@,
            r,
        ),
        !crate::dtb::is_window(base, size) ==> r == Err::<usize, DtbError>(DtbError::Internal),
        r is Err ==> final(slot)@ == old(slot)@,
{
    if size == 0 {
        return Err(DtbError::Internal);
    }
    let last: u64 = match base.checked_add(size - 1) {
        Some(last) => last,
        None => return Err(DtbError::Internal),
    };
    let mut data: Vec<u8> = Vec::new();
    data.push(0x8a);
    data.push(0x2b);
    data.push(0);
    data.push(0);
    data.push(0x0d);
    data.push(0x01);
    assert(data@ =~= seq![0x8au8, 0x2bu8, 0u8, 0u8, 0x0du8, 0x01u8]);
    push_le64(&mut data, 0);
    push_le64(&mut data, base);
    push_le64(&mut data, last);
    push_le64(&mut data, 0);
    push_le64(&mut data, size);
    assert(data@ == qword_memory(base, size));
    write_bytes(slot, pos, data.as_slice())
}

/// The flags of an extended interrupt descriptor: consumed, edge or level,
/// active high or low.
pub open spec fn interrupt_flags(sense: Sense) -> u8 {
    match sense {
        Sense::EdgeRising => 0x03,
        Sense::EdgeFalling => 0x07,
        Sense::LevelHigh => 0x01,
        Sense::LevelLow => 0x05,
    }
}

/// An extended interrupt descriptor with one interrupt.
pub open spec fn extended_interrupt(gsi: u32, sense: Sense) -> Seq<u8> {
    seq![0x89u8, 0x06u8, 0u8, interrupt_flags(sense), 0x01u8] + crate::bytes::le32_bytes(gsi)
}

/// Writes an extended interrupt descriptor with one interrupt.
pub fn write_extended_interrupt(slot: &mut [u8], pos: usize, gsi: u32, sense: Sense) -> (r: Result<
    usize,
    DtbError,
>)
    ensures
        wrote(old(slot)@, pos as int, extended_interrupt(gsi, sense), final(slot)@, r),
        r is Err ==> final(slot)@ == old(slot)@,
{
    let flags: u8 = match sense {
        Sense::EdgeRising => 0x03,
        Sense::EdgeFalling => 0x07,
        Sense::LevelHigh => 0x01,
        Sense::LevelLow => 0x05,
    };
    let data: [u8; 9] = [
        0x89,
        0x06,
        0,
        flags,
        0x01,
        (gsi % 0x100) as u8,
        (gsi / 0x100 % 0x100) as u8,
        (gsi / 0x1_0000 % 0x100) as u8,
        (gsi / 0x100_0000) as u8,
    ];
    assert(data@ =~= extended_interrupt(gsi, sense));
    write_bytes(slot, pos, data.as_slice())
}

/// The end tag of a resource template, with no checksum.
pub open spec fn end_tag() -> Seq<u8> {
    seq![0x79u8, 0u8]
}

/// Writes the end tag of a resource template.
pub fn write_end_tag(slot: &mut [u8], pos: usize) -> (r: Result<usize, DtbError>)
    ensures
        wrote(old(slot)@, pos as int, end_tag(), final(slot)@, r),
        r is Err ==> final(slot)@ == old(slot)@,
{
    let data: [u8; 2] = [0x79, 0];
    assert(data@ =~= end_tag());
    write_bytes(slot, pos, data.as_slice())
}

/// Laying data over keeps the size, puts each byte of it in its place as far as there is
/// one, and changes nothing else.
pub proof fn overlaying_is_bytewise(before: Seq<u8>, pos: int, data: Seq<u8>, k: int)
    requires
        0 <= k < before.len(),
    ensures
        overlaid(before, pos, data).len() == before.len(),
        pos <= k < pos + data.len() ==> overlaid(before, pos, data)[k] == data[k - pos],
        k < pos || k >= pos + data.len() ==> overlaid(before, pos, data)[k] == before[k],
{
}

/// What is written fits, gives the position behind it and stands there, and nothing else
/// has changed; what is not written did not fit, and what stands outside its place has
/// not changed.
pub proof fn writing_is_all_or_a_fault(
    before: Seq<u8>,
    pos: int,
    data: Seq<u8>,
    after: Seq<u8>,
    r: Result<usize, DtbError>,
)
    requires
        wrote(before, pos, data, after, r),
    ensures
        r is Ok <==> pos + data.len() <= before.len(),
        r is Ok ==> r->Ok_0 == pos + data.len(),
        r is Err ==> r->Err_0 == DtbError::Internal,
        after.len() == before.len(),
        forall|k: int|
            0 <= k < before.len() && !(pos <= k < pos + data.len()) ==> #[trigger] after[k]
                == before[k],
        r is Ok ==> forall|k: int|
            0 <= k < before.len() && pos <= k < pos + data.len() ==> #[trigger] after[k] == data[k
                - pos],
{
}

/// A package length of up to twelve bits has its low four in the first byte, which tells
/// that one more follows, and the others in the second.
pub proof fn package_length_has_two_bytes(value: int)
    requires
        0 <= value < 0x1000,
    ensures
        pkg_length(value).len() == 2,
        pkg_length(value)[0] as int / 0x10 == 4,
        pkg_length(value)[0] as int % 0x10 + 0x10 * pkg_length(value)[1] == value,
{
}

/// An indexed name is its prefix and one digit: that of the index, counted round after 36.
pub proof fn indexed_names_count_round(prefix: Seq<u8>, index: u8)
    requires
        prefix.len() == 3,
    ensures
        indexed_name(prefix, index).len() == 4,
        indexed_name(prefix, index).take(3) == prefix,
        index as int % 36 < 10 ==> indexed_name(prefix, index)[3] as int == '0' as int + index as int
            % 36,
        index as int % 36 >= 10 ==> indexed_name(prefix, index)[3] as int == 'A' as int + index as int
            % 36 - 10,
{
    assert(indexed_name(prefix, index).take(3) =~= prefix);
}

/// The opening of a device is its opcode, the length of all that follows, and its name.
pub proof fn device_opens_with_its_length(name: Seq<u8>, total: int)
    requires
        name.len() == 4,
        2 <= total < 0x1002,
    ensures
        ({
            let d = device_header(name, total);
            &&& d.len() == 8
            &&& d[0] == 0x5b && d[1] == 0x82
            &&& d[2] as int / 0x10 == 4
            &&& d[2] as int % 0x10 + 0x10 * d[3] == total - 2
            &&& d.skip(4) == name
        }),
{
    assert(device_header(name, total).skip(4) =~= name);
}

/// The compressed form of an EISA id has its letters, five bits each, in the two low
/// bytes, the high one first, and its digits in the two others.
pub proof fn eisa_word_packs_letters_and_digits(id: Seq<u8>)
    requires
        is_eisa_id(id),
    ensures
        ({
            let w = eisa_word(id);
            let digit = |c: u8|
                if c < 0x3a {
                    c as int - '0' as int
                } else {
                    c as int - 'A' as int + 10
                };
            &&& 0 <= w < 0x1_0000_0000
            &&& 0x100 * (w % 0x100) + w / 0x100 % 0x100 == 0x400 * (id[0] - 0x40) + 0x20 * (id[1]
                - 0x40) + (id[2] - 0x40)
            &&& w / 0x1_0000 % 0x100 == 0x10 * digit(id[3]) + digit(id[4])
            &&& w / 0x100_0000 == 0x10 * digit(id[5]) + digit(id[6])
        }),
{
    assert(0x41 <= id[0] <= 0x5a && 0x41 <= id[1] <= 0x5a && 0x41 <= id[2] <= 0x5a);
    assert(0x30 <= id[3] <= 0x39 || 0x41 <= id[3] <= 0x46);
    assert(0x30 <= id[4] <= 0x39 || 0x41 <= id[4] <= 0x46);
    assert(0x30 <= id[5] <= 0x39 || 0x41 <= id[5] <= 0x46);
    assert(0x30 <= id[6] <= 0x39 || 0x41 <= id[6] <= 0x46);
    let letters = 0x400 * (id[0] - 0x40) + 0x20 * (id[1] - 0x40) + (id[2] - 0x40);
    assert(0 <= letters < 0x1_0000);
    let high = 0x10 * hex_value(id[3]) + hex_value(id[4]);
    let low = 0x10 * hex_value(id[5]) + hex_value(id[6]);
    let w = eisa_word(id);
    let a = letters / 0x100;
    let b = letters % 0x100;
    assert(w == a + 0x100 * b + 0x1_0000 * high + 0x100_0000 * low);
    lemma_digits(a, b, high, low);
}

/// The digits of a number to the base 256 are what it was made of.
proof fn lemma_digits(a: int, b: int, c: int, d: int)
    requires
        0 <= a < 0x100,
        0 <= b < 0x100,
        0 <= c < 0x100,
        0 <= d < 0x100,
    ensures
        ({
            let w = a + 0x100 * b + 0x1_0000 * c + 0x100_0000 * d;
            &&& 0 <= w < 0x1_0000_0000
            &&& w % 0x100 == a
            &&& w / 0x100 % 0x100 == b
            &&& w / 0x1_0000 % 0x100 == c
            &&& w / 0x100_0000 == d
        }),
{
    let x = c + 0x100 * d;
    let y = b + 0x100 * x;
    let w = a + 0x100 * y;
    assert(w == a + 0x100 * b + 0x1_0000 * c + 0x100_0000 * d);
    assert(w / 0x100 == y && w % 0x100 == a);
    assert(y / 0x100 == x && y % 0x100 == b);
    assert(x / 0x100 == d && x % 0x100 == c);
    assert(w / 0x1_0000 == w / 0x100 / 0x100);
    assert(w / 0x100_0000 == w / 0x1_0000 / 0x100);
}

/// An EISA id is three capital letters and four upper-case hexadecimal digits.
pub proof fn eisa_ids_are_letters_and_digits(id: Seq<u8>)
    ensures
        is_eisa_id(id) <==> id.len() == 7 && (forall|i: int|
            0 <= i < 3 ==> 'A' as int <= #[trigger] id[i] as int <= 'Z' as int) && (forall|i: int|
            3 <= i < 7 ==> '0' as int <= #[trigger] id[i] as int <= '9' as int || 'A' as int
                <= id[i] as int <= 'F' as int),
{
}

/// A named value is the opcode, the name, the tag of the value, and the value, lowest
/// byte first; a text ends with a NUL.
pub proof fn names_are_followed_by_their_values(seg: Seq<u8>, value: u32, byte: u8, text: Seq<u8>)
    requires
        seg.len() == 4,
    ensures
        name_dword(seg, value).len() == 10,
        name_dword(seg, value)[0] == 0x08,
        name_dword(seg, value).subrange(1, 5) == seg,
        name_dword(seg, value)[5] == 0x0c,
        crate::bytes::le32(name_dword(seg, value), 6) == value,
        name_byte(seg, byte).len() == 7,
        name_byte(seg, byte)[0] == 0x08,
        name_byte(seg, byte).subrange(1, 5) == seg,
        name_byte(seg, byte)[5] == 0x0a,
        name_byte(seg, byte)[6] == byte,
        name_string(seg, text).len() == 7 + text.len(),
        name_string(seg, text)[0] == 0x08,
        name_string(seg, text).subrange(1, 5) == seg,
        name_string(seg, text)[5] == 0x0d,
        name_string(seg, text).subrange(6, 6 + text.len() as int) == text,
        name_string(seg, text).last() == 0,
{
    crate::bytes::word_bytes_are_digits(value);
    let d = name_dword(seg, value);
    let v = crate::bytes::le32_bytes(value);
    assert(d[6] == v[0] && d[7] == v[1] && d[8] == v[2] && d[9] == v[3]);
    crate::bytes::words_are_little_endian(d, 6, value);
    assert(d.subrange(1, 5) =~= seg);
    assert(name_byte(seg, byte).subrange(1, 5) =~= seg);
    assert(name_string(seg, text).subrange(1, 5) =~= seg);
    assert(name_string(seg, text).subrange(6, 6 + text.len() as int) =~= text);
}

/// The resources of a device open with their name, the opcode of a buffer, the length of
/// all that follows, and the size of the descriptors, lowest byte first.
pub proof fn resources_open_with_their_size(n: int)
    requires
        0 <= n < 0xffb,
    ensures
        ({
            let d = crs_header(n);
            &&& d.len() == 11
            &&& d[0] == 0x08
            &&& d[1] as char == '_' && d[2] as char == 'C' && d[3] as char == 'R' && d[4] as char
                == 'S'
            &&& d[5] == 0x11
            &&& d[6] as int / 0x10 == 4
            &&& d[6] as int % 0x10 + 0x10 * d[7] == n + 5
            &&& d[8] == 0x0b
            &&& d[9] + 0x100 * d[10] == n
        }),
{
}

/// A memory descriptor gives the first and the last address of the window, and its size,
/// with no granularity and no translation.
pub proof fn memory_descriptor_spans_the_window(base: u64, size: u64)
    requires
        crate::dtb::is_window(base, size),
    ensures
        ({
            let d = qword_memory(base, size);
            &&& d.len() == 46
            &&& d[0] == 0x8a && d[1] == 0x2b && d[2] == 0 && d[3] == 0 && d[4] == 0x0d && d[5] == 1
            &&& crate::bytes::le64(d, 6) == 0
            &&& crate::bytes::le64(d, 14) == base
            &&& crate::bytes::le64(d, 22) == base + size - 1
            &&& crate::bytes::le64(d, 30) == 0
            &&& crate::bytes::le64(d, 38) == size
        }),
{
    let d = qword_memory(base, size);
    let last = (base + size - 1) as u64;
    lemma_long_word_at(d, 6, 0);
    lemma_long_word_at(d, 14, base);
    lemma_long_word_at(d, 22, last);
    lemma_long_word_at(d, 30, 0);
    lemma_long_word_at(d, 38, size);
}

/// A long word stands where its bytes do.
proof fn lemma_long_word_at(d: Seq<u8>, at: int, v: u64)
    ensures
        0 <= at && at + 8 <= d.len() && d.subrange(at, at + 8) =~= crate::bytes::le64_bytes(v)
            ==> crate::bytes::le64(d, at) == v,
{
    if 0 <= at && at + 8 <= d.len() && d.subrange(at, at + 8) =~= crate::bytes::le64_bytes(v) {
        let b = crate::bytes::le64_bytes(v);
        let s = d.subrange(at, at + 8);
        crate::bytes::long_word_bytes_are_digits(v);
        assert(s[0] == d[at] && s[1] == d[at + 1] && s[2] == d[at + 2] && s[3] == d[at + 3] && s[4]
            == d[at + 4] && s[5] == d[at + 5] && s[6] == d[at + 6] && s[7] == d[at + 7]);
        crate::bytes::long_words_are_little_endian(d, at, v);
    }
}

/// An interrupt descriptor gives one interrupt, lowest byte first, and whether it is edge
/// triggered and whether it is active low; it is consumed by the device.
pub proof fn interrupt_descriptor_gives_line_and_sense(gsi: u32, sense: Sense)
    ensures
        ({
            let d = extended_interrupt(gsi, sense);
            let flags = d[3] as int;
            &&& d.len() == 9
            &&& d[0] == 0x89 && d[1] == 6 && d[2] == 0 && d[4] == 1
            &&& flags < 8
            &&& flags % 2 == 1
            &&& flags / 2 % 2 == 1 <==> sense == Sense::EdgeRising || sense == Sense::EdgeFalling
            &&& flags / 4 % 2 == 1 <==> sense == Sense::EdgeFalling || sense == Sense::LevelLow
            &&& crate::bytes::le32(d, 5) == gsi
        }),
{
    crate::bytes::word_bytes_are_digits(gsi);
    let d = extended_interrupt(gsi, sense);
    let v = crate::bytes::le32_bytes(gsi);
    assert(d[5] == v[0] && d[6] == v[1] && d[7] == v[2] && d[8] == v[3]);
    crate::bytes::words_are_little_endian(d, 5, gsi);
}

/// The resources end with a tag and no checksum.
pub proof fn resources_end_without_checksum()
    ensures
        end_tag().len() == 2,
        end_tag()[0] == 0x79,
        end_tag()[1] == 0,
{
}

} // verus!
