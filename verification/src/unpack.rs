//! Unwrapping of the compressed kernel forms that distributions ship.
use std::io::Read;

use vstd::prelude::*;

use crate::bytes::{find_bytes, read_le32};
use crate::error::{Fault, KernelError};
use crate::kernel::is_elf;
use crate::zstd::has_fitting_sums;

verus! {

/// What `flate2::read::GzDecoder` over `bytes` gives when it is read to its end:
/// the decompressed bytes, or the text of its error.
pub uninterp spec fn gunzipped(bytes: Seq<u8>) -> Result<Seq<u8>, Seq<char>>;

/// What `ruzstd::decoding::StreamingDecoder` over `bytes` gives when it is read
/// to its end: the decompressed bytes, or the text of its error.
pub uninterp spec fn unzstded(bytes: Seq<u8>) -> Result<Seq<u8>, Seq<char>>;

/// What `String::from_utf8_lossy` makes of `bytes`.
pub uninterp spec fn lossy_text(bytes: Seq<u8>) -> Seq<char>;

/// Reads `flate2::read::GzDecoder` over `bytes` to its end. The contract claims
/// that the outcome, the text of the error among it, is a function of the bytes
/// alone. What the format makes of given bytes is left unsaid.
#[verifier::external_body]
pub(crate) fn gunzip(bytes: &[u8]) -> (r: Result<Vec<u8>, String>)
    ensures
        match r {
            Ok(out) => gunzipped(bytes@) == Ok::<Seq<u8>, Seq<char>>(out@),
            Err(e) => gunzipped(bytes@) == Err::<Seq<u8>, Seq<char>>(e@),
        },
{
    let mut out = Vec::new();
    match flate2::read::GzDecoder::new(bytes).read_to_end(&mut out) {
        Ok(_) => Ok(out),
        Err(e) => Err(e.to_string()),
    }
}

/// Opens `ruzstd::decoding::StreamingDecoder` over `bytes` and reads it to its
/// end. The contract claims that the outcome, the text of the error among it, is
/// a function of the bytes alone. What the format makes of given bytes is left
/// unsaid. The decoder sums the lengths of a block's sequences in 32 bits and
/// panics where they exceed that, so frames whose blocks are not known to stay below
/// that are left out.
#[verifier::external_body]
fn unzstd(bytes: &[u8]) -> (r: Result<Vec<u8>, String>)
    requires
        crate::zstd::sums_fit(bytes@),
    ensures
        match r {
            Ok(out) => unzstded(bytes@) == Ok::<Seq<u8>, Seq<char>>(out@),
            Err(e) => unzstded(bytes@) == Err::<Seq<u8>, Seq<char>>(e@),
        },
{
    let mut dec = ruzstd::decoding::StreamingDecoder::new(bytes).map_err(|e| e.to_string())?;
    let mut out = Vec::new();
    match dec.read_to_end(&mut out) {
        Ok(_) => Ok(out),
        Err(e) => Err(e.to_string()),
    }
}

/// Calls `String::from_utf8_lossy`. The contract claims that the text is a
/// function of the bytes alone, and that valid UTF-8 is decoded as it stands.
#[verifier::external_body]
fn text_lossy(bytes: &[u8]) -> (r: String)
    ensures
        r@ == lossy_text(bytes@),
        vstd::utf8::valid_utf8(bytes@) ==> r@ == vstd::utf8::decode_utf8(bytes@),
{
    String::from_utf8_lossy(bytes).into_owned()
}

/// The text that a name is reported as: its decoding where it is UTF-8, else what
/// is made of it lossily.
pub open spec fn reported_name(name: Seq<u8>) -> Seq<char> {
    if vstd::utf8::valid_utf8(name) {
        vstd::utf8::decode_utf8(name)
    } else {
        lossy_text(name)
    }
}

/// A name in ASCII is reported letter for letter.
pub proof fn ascii_name_is_reported(name: Seq<char>, bytes: Seq<u8>)
    requires
        vstd::utf8::is_ascii_chars(name),
        bytes.len() == name.len(),
        forall|i: int| 0 <= i < name.len() ==> #[trigger] bytes[i] == name[i] as u8,
    ensures
        reported_name(bytes) == name,
{
    vstd::utf8::is_ascii_chars_encode_utf8(name);
    assert forall|i: int| 0 <= i < name.len() implies vstd::utf8::encode_utf8(name)[i]
        == bytes[i] by {
        assert(name[i] as u8 == vstd::utf8::encode_utf8(name)[i]);
    }
    assert(vstd::utf8::encode_utf8(name) =~= bytes);
    vstd::utf8::encode_utf8_valid_utf8(name);
    vstd::utf8::encode_utf8_decode_utf8(name);
}

/// "HdrS", little-endian, at offset 0x202 of a bzImage.
pub const BZIMAGE_HDRS_MAGIC: u32 = 0x5372_6448;

/// Offset of the bzImage magic.
pub const BZIMAGE_HDRS_OFFSET: usize = 0x202;

// arm64 EFI-zboot header: "MZ" at 0, "zimg" at 4, u32 payload offset at 8, u32
// payload size at 12, NUL-padded compression name at 24.
pub const ZBOOT_ZIMG_OFFSET: usize = 4;

pub const ZBOOT_PAYLOAD_OFFSET_FIELD: usize = 8;

pub const ZBOOT_PAYLOAD_SIZE_FIELD: usize = 12;

pub const ZBOOT_COMP_OFFSET: usize = 24;

pub const ZBOOT_COMP_LEN: usize = 32;

pub const ZBOOT_HEADER_MIN: usize = 56;

/// gzip member header: magic `1f 8b` + deflate method `08`.
pub const GZIP_MAGIC: [u8; 3] = [0x1f, 0x8b, 0x08];

/// zstd frame magic.
pub const ZSTD_MAGIC: [u8; 4] = [0x28, 0xb5, 0x2f, 0xfd];

/// Whether the file is an arm64 EFI-zboot kernel: a whole header, tagged `MZ`
/// and `zimg`.
pub open spec fn is_zboot(input: Seq<u8>) -> bool {
    &&& input.len() >= 56
    &&& input[0] == 0x4d && input[1] == 0x5a
    &&& input[4] == 0x7a && input[5] == 0x69 && input[6] == 0x6d && input[7] == 0x67
}

/// Where the payload begins, as the header says.
pub open spec fn payload_offset(input: Seq<u8>) -> int {
    crate::bytes::le32(input, 8)
}

/// How long the payload is, as the header says.
pub open spec fn payload_size(input: Seq<u8>) -> int {
    crate::bytes::le32(input, 12)
}

/// The payload.
pub open spec fn payload(input: Seq<u8>) -> Seq<u8> {
    input.subrange(payload_offset(input), payload_offset(input) + payload_size(input))
}

/// The name of the compression: the field at 24 up to its first NUL.
pub open spec fn compression(input: Seq<u8>) -> Seq<u8> {
    let field = input.subrange(24, 56);
    match crate::bytes::least(32, |i: int| field[i] == 0) {
        Some(n) => field.take(n),
        None => field,
    }
}

/// "gzip".
pub open spec fn gzip_name() -> Seq<u8> {
    seq![0x67u8, 0x7au8, 0x69u8, 0x70u8]
}

/// "zstd".
pub open spec fn zstd_name() -> Seq<u8> {
    seq![0x7au8, 0x73u8, 0x74u8, 0x64u8]
}

/// The image that a decoded payload is, or the error that tells why it does not
/// decode.
pub open spec fn payload_image(decoded: Result<Seq<u8>, Seq<char>>) -> Result<Seq<u8>, Fault> {
    match decoded {
        Ok(image) => Ok(image),
        Err(text) => Err(Fault::ZbootDecompress(text)),
    }
}

/// What unwrapping makes of a kernel file.
pub open spec fn unwrapped(input: Seq<u8>) -> Result<Seq<u8>, Fault> {
    if !is_zboot(input) {
        Ok(input)
    } else if payload_offset(input) + payload_size(input) > input.len() {
        Err(
            Fault::ZbootMalformed {
                offset: payload_offset(input) as usize,
                size: payload_size(input) as usize,
                file: input.len() as usize,
            },
        )
    } else if compression(input) == gzip_name() {
        payload_image(gunzipped(payload(input)))
    } else if compression(input) == zstd_name() {
        payload_image(unzstded(payload(input)))
    } else {
        Err(Fault::ZbootCompression(reported_name(compression(input))))
    }
}

/// Whether the payload of a zboot kernel, if it is to be decoded as a zstd frame, is
/// one that the decoder can take.
pub open spec fn payload_fits(input: Seq<u8>) -> bool {
    is_zboot(input) && payload_offset(input) + payload_size(input) <= input.len() && compression(
        input,
    ) == zstd_name() ==> crate::zstd::sums_fit(payload(input))
}

/// Input that is not EFI-zboot passes through unchanged.
pub proof fn non_zboot_passes_through(input: Seq<u8>)
    requires
        !is_zboot(input),
    ensures
        unwrapped(input) == Ok::<Seq<u8>, Fault>(input),
{
}

/// An ELF kernel passes through unwrapping unchanged.
pub proof fn elf_is_not_unwrapped(input: Seq<u8>)
    requires
        input.len() >= 4,
        input.take(4) == crate::kernel::elf_magic(),
    ensures
        unwrapped(input) == Ok::<Seq<u8>, Fault>(input),
{
    assert(input.take(4)[0] == 0x7f);
}

/// Whether the file is an arm64 EFI-zboot kernel.
pub fn has_zboot_header(input: &[u8]) -> (r: bool)
    ensures
        r == is_zboot(input@),
{
    input.len() >= ZBOOT_HEADER_MIN && input[0] == 0x4d && input[1] == 0x5a
        && input[ZBOOT_ZIMG_OFFSET] == 0x7a && input[ZBOOT_ZIMG_OFFSET + 1] == 0x69
        && input[ZBOOT_ZIMG_OFFSET + 2] == 0x6d && input[ZBOOT_ZIMG_OFFSET + 3] == 0x67
}

/// Where the name of the compression ends.
pub fn compression_end(input: &[u8]) -> (r: usize)
    requires
        is_zboot(input@),
    ensures
        ZBOOT_COMP_OFFSET <= r <= ZBOOT_HEADER_MIN,
        input@.subrange(24, r as int) == compression(input@),
{
    let ghost field = input@.subrange(24, 56);
    let ghost nul = |i: int| field[i] == 0;
    let mut n: usize = 0;
    while n < ZBOOT_COMP_LEN && input[ZBOOT_COMP_OFFSET + n] != 0
        invariant
            n <= 32,
            input@.len() >= 56,
            field == input@.subrange(24, 56),
            nul == (|i: int| field[i] == 0),
            forall|j: int| 0 <= j < n ==> !#[trigger] nul(j),
        decreases 32 - n,
    {
        assert(field[n as int] == input@[24 + n]);
        n = n + 1;
    }
    proof {
        if n < 32 {
            assert(field[n as int] == input@[24 + n]);
            crate::bytes::lemma_least_is(32, nul, n as int);
            assert(input@.subrange(24, 24 + n) =~= field.take(n as int));
        } else {
            crate::bytes::lemma_least_none(32, nul);
        }
    }
    ZBOOT_COMP_OFFSET + n
}

/// Maps the outcome of decoding the payload.
pub fn zboot_image(decoded: Result<Vec<u8>, String>) -> (r: Result<Vec<u8>, KernelError>)
    ensures
        match (r, decoded) {
            (Ok(image), Ok(out)) => image@ == out@,
            (Err(e), Err(text)) => e@ == Fault::ZbootDecompress(text@),
            _ => false,
        },
{
    match decoded {
        Ok(out) => Ok(out),
        Err(text) => Err(KernelError::ZbootDecompress(text)),
    }
}

/// Unwrap an arm64 EFI-zboot kernel to its raw `Image`.
///
/// `CONFIG_EFI_ZBOOT` kernels are a tiny EFI stub (`MZ`) tagged `zimg` at offset
/// 4, wrapping a compressed raw `Image`. Input that is not zboot passes through
/// unchanged, so this is safe to call on any kernel before
/// [`crate::kernel::parse`]. gzip and zstd are handled; other compression
/// schemes are an error rather than a silent pass.
///
/// The zstd decoder panics on blocks that regenerate 4 GiB; see
/// [`try_unwrap_zboot`] for input that may hold one.
pub fn unwrap_zboot(input: Vec<u8>) -> (r: Result<Vec<u8>, KernelError>)
    requires
        payload_fits(input@),
    ensures
        match r {
            Ok(image) => unwrapped(input@) == Ok::<Seq<u8>, Fault>(image@),
            Err(e) => unwrapped(input@) == Err::<Seq<u8>, Fault>(e@),
        },
{
    if !has_zboot_header(input.as_slice()) {
        return Ok(input);
    }
    let file: usize = input.len();
    let offset: usize = read_le32(input.as_slice(), ZBOOT_PAYLOAD_OFFSET_FIELD) as usize;
    let size: usize = read_le32(input.as_slice(), ZBOOT_PAYLOAD_SIZE_FIELD) as usize;
    let end: usize = match offset.checked_add(size) {
        Some(end) => end,
        None => return Err(KernelError::ZbootMalformed { offset, size, file }),
    };
    if end > file {
        return Err(KernelError::ZbootMalformed { offset, size, file });
    }
    let comp_end: usize = compression_end(input.as_slice());
    let comp: &[u8] = &input[ZBOOT_COMP_OFFSET..comp_end];
    let body: &[u8] = &input[offset..end];
    assert(comp@ == compression(input@));
    assert(body@ == payload(input@));
    if is_gzip(comp) {
        zboot_image(gunzip(body))
    } else if is_zstd(comp) {
        zboot_image(unzstd(body))
    } else {
        Err(KernelError::ZbootCompression(text_lossy(comp)))
    }
}

/// Unwrap an arm64 EFI-zboot kernel to its raw `Image`, unless its payload is a zstd
/// frame that the decoder may not be able to take.
pub fn try_unwrap_zboot(input: Vec<u8>) -> (r: Option<Result<Vec<u8>, KernelError>>)
    ensures
        r is Some == payload_fits(input@),
        match r {
            Some(Ok(image)) => unwrapped(input@) == Ok::<Seq<u8>, Fault>(image@),
            Some(Err(e)) => unwrapped(input@) == Err::<Seq<u8>, Fault>(e@),
            None => true,
        },
{
    if has_fitting_payload(input.as_slice()) {
        Some(unwrap_zboot(input))
    } else {
        None
    }
}

/// Whether the payload of a zboot kernel, if it is a zstd frame, is one that the
/// decoder can take.
pub fn has_fitting_payload(input: &[u8]) -> (r: bool)
    ensures
        r == payload_fits(input@),
{
    if !has_zboot_header(input) {
        return true;
    }
    let offset: usize = read_le32(input, ZBOOT_PAYLOAD_OFFSET_FIELD) as usize;
    let size: usize = read_le32(input, ZBOOT_PAYLOAD_SIZE_FIELD) as usize;
    let len: usize = input.len();
    if offset > len || size > len - offset {
        return true;
    }
    let comp_end: usize = compression_end(input);
    let comp: &[u8] = &input[ZBOOT_COMP_OFFSET..comp_end];
    let body: &[u8] = &input[offset..offset + size];
    assert(comp@ == compression(input@));
    assert(body@ == payload(input@));
    !is_zstd(comp) || has_fitting_sums(body)
}

/// Whether the name of the compression is "gzip".
pub fn is_gzip(comp: &[u8]) -> (r: bool)
    ensures
        r == (comp@ == gzip_name()),
{
    let r: bool = comp.len() == 4 && comp[0] == 0x67 && comp[1] == 0x7a && comp[2] == 0x69
        && comp[3] == 0x70;
    assert(r ==> comp@ =~= gzip_name());
    r
}

/// Whether the name of the compression is "zstd".
pub fn is_zstd(comp: &[u8]) -> (r: bool)
    ensures
        r == (comp@ == zstd_name()),
{
    let r: bool = comp.len() == 4 && comp[0] == 0x7a && comp[1] == 0x73 && comp[2] == 0x74
        && comp[3] == 0x64;
    assert(r ==> comp@ =~= zstd_name());
    r
}

/// Whether decompression gave an ELF file.
pub open spec fn gave_elf(out: Option<Seq<u8>>) -> bool {
    match out {
        Some(b) => b.len() >= 4 && b.take(4) == crate::kernel::elf_magic(),
        None => false,
    }
}

/// The bytes of an outcome.
pub open spec fn outcome_view(out: Option<Vec<u8>>) -> Option<Seq<u8>> {
    match out {
        Some(v) => Some(v@),
        None => None,
    }
}

/// Whether `decompress`, run on `input` from `at` on, may give `out`.
pub open spec fn may_give<F: Fn(&[u8]) -> Option<Vec<u8>>>(
    decompress: F,
    input: Seq<u8>,
    at: int,
    out: Option<Vec<u8>>,
) -> bool {
    exists|s: &[u8]| s@ == input.skip(at) && #[trigger] call_ensures(decompress, (s,), out)
}

/// Whether `decompress`, run on `input` from `at` on, may give anything but an
/// ELF file.
pub open spec fn may_reject<F: Fn(&[u8]) -> Option<Vec<u8>>>(
    decompress: F,
    input: Seq<u8>,
    at: int,
) -> bool {
    exists|out: Option<Vec<u8>>|
        #[trigger] may_give(decompress, input, at, out) && !gave_elf(outcome_view(out))
}

/// Whether a scan of `input` for `magic` may come to the hit at `at`: none of those
/// before it need have given an ELF file.
pub open spec fn may_reach<F: Fn(&[u8]) -> Option<Vec<u8>>>(
    decompress: F,
    input: Seq<u8>,
    magic: Seq<u8>,
    at: int,
) -> bool {
    &&& crate::bytes::occurs_at(input, magic, at)
    &&& forall|j: int|
        0 <= j < at && #[trigger] crate::bytes::occurs_at(input, magic, j) ==> may_reject(
            decompress,
            input,
            j,
        )
}

/// Scan `input` for `magic` and run `decompress` at each hit, returning the
/// first decompressed output that is an ELF. A `magic` hit may be spurious, so a
/// failed decompress or a non-ELF result just advances the scan.
pub fn scan_decompress<F: Fn(&[u8]) -> Option<Vec<u8>>>(
    input: &[u8],
    magic: &[u8],
    decompress: F,
) -> (r: Option<Vec<u8>>)
    requires
        magic@.len() > 0,
        forall|s: &[u8], at: int|
            s@ == input@.skip(at) && #[trigger] may_reach(decompress, input@, magic@, at)
                ==> #[trigger] call_requires(decompress, (s,)),
    ensures
        r is Some ==> gave_elf(outcome_view(r)) && exists|at: int|
            {
                &&& #[trigger] crate::bytes::occurs_at(input@, magic@, at)
                &&& may_give(decompress, input@, at, r)
                &&& forall|j: int|
                    0 <= j < at && #[trigger] crate::bytes::occurs_at(input@, magic@, j)
                        ==> may_reject(decompress, input@, j)
            },
        r is None ==> forall|j: int| #[trigger]
            crate::bytes::occurs_at(input@, magic@, j) ==> may_reject(decompress, input@, j),
{
    let mut from: usize = 0;
    loop
        invariant
            from <= input@.len(),
            magic@.len() > 0,
            forall|s: &[u8], at: int|
                s@ == input@.skip(at) && #[trigger] may_reach(decompress, input@, magic@, at)
                    ==> #[trigger] call_requires(decompress, (s,)),
            forall|j: int|
                0 <= j < from && #[trigger] crate::bytes::occurs_at(input@, magic@, j)
                    ==> may_reject(decompress, input@, j),
        decreases input@.len() - from,
    {
        let pos: usize = match find_bytes(input, magic, from) {
            Some(pos) => pos,
            None => return None,
        };
        let rest: &[u8] = &input[pos..input.len()];
        assert(rest@ == input@.skip(pos as int));
        assert(may_reach(decompress, input@, magic@, pos as int));
        let out: Option<Vec<u8>> = decompress(rest);
        assert(may_give(decompress, input@, pos as int, out));
        if let Some(v) = &out {
            if is_elf(v.as_slice()) {
                return out;
            }
        }
        assert(may_reject(decompress, input@, pos as int));
        from = pos + 1;
    }
}

/// What decompressing `input` as a gzip member gives, if it decompresses.
pub open spec fn gzip_output(input: Seq<u8>) -> Option<Seq<u8>> {
    match gunzipped(input) {
        Ok(out) => Some(out),
        Err(_) => None,
    }
}

/// What decompressing `input` as a zstd frame gives, if it decompresses.
pub open spec fn zstd_output(input: Seq<u8>) -> Option<Seq<u8>> {
    match unzstded(input) {
        Ok(out) => Some(out),
        Err(_) => None,
    }
}

/// The bytes of [`GZIP_MAGIC`].
pub open spec fn gzip_magic() -> Seq<u8> {
    seq![0x1fu8, 0x8bu8, 0x08u8]
}

/// The bytes of [`ZSTD_MAGIC`].
pub open spec fn zstd_magic() -> Seq<u8> {
    seq![0x28u8, 0xb5u8, 0x2fu8, 0xfdu8]
}

/// What `decode` gives at the first occurrence of `magic` where that is an ELF
/// file.
pub open spec fn first_elf(
    input: Seq<u8>,
    magic: Seq<u8>,
    decode: spec_fn(Seq<u8>) -> Option<Seq<u8>>,
) -> Option<Seq<u8>> {
    match crate::bytes::least(
        input.len() as int,
        |i: int| crate::bytes::occurs_at(input, magic, i) && gave_elf(decode(input.skip(i))),
    ) {
        Some(i) => decode(input.skip(i)),
        None => None,
    }
}

/// Whether the file is a bzImage: "HdrS" at 0x202.
pub open spec fn is_bzimage(input: Seq<u8>) -> bool {
    input.len() >= 0x206 && crate::bytes::le32(input, 0x202) == BZIMAGE_HDRS_MAGIC
}

/// What extraction makes of a kernel file: the first ELF file that decompresses
/// out of a bzImage, by gzip if there is one, else by zstd; any other file as it
/// is.
pub open spec fn vmlinux_of(input: Seq<u8>) -> Result<Seq<u8>, Fault> {
    if !is_bzimage(input) {
        Ok(input)
    } else {
        match first_elf(input, gzip_magic(), |b: Seq<u8>| gzip_output(b)) {
            Some(elf) => Ok(elf),
            None => match first_elf(input, zstd_magic(), |b: Seq<u8>| zstd_output(b)) {
                Some(elf) => Ok(elf),
                None => Err(Fault::BzImageNoVmlinux),
            },
        }
    }
}

/// Whether a scan for zstd frames comes to the hit at `at`: none before it gives an
/// ELF file.
pub open spec fn reached_by_zstd(input: Seq<u8>, at: int) -> bool {
    &&& crate::bytes::occurs_at(input, zstd_magic(), at)
    &&& forall|j: int|
        0 <= j < at && #[trigger] crate::bytes::occurs_at(input, zstd_magic(), j) ==> !gave_elf(
            zstd_output(input.skip(j)),
        )
}

/// Whether the zstd frames that are decoded in search of an ELF file are ones that
/// the decoder can take.
pub open spec fn frames_fit(input: Seq<u8>) -> bool {
    is_bzimage(input) && first_elf(input, gzip_magic(), |b: Seq<u8>| gzip_output(b)) is None
        ==> forall|at: int| #[trigger]
        reached_by_zstd(input, at) ==> crate::zstd::sums_fit(input.skip(at))
}

/// A file that is no bzImage passes through extraction unchanged.
pub proof fn non_bzimage_passes_through(input: Seq<u8>)
    requires
        !is_bzimage(input),
    ensures
        vmlinux_of(input) == Ok::<Seq<u8>, Fault>(input),
{
}

/// What is extracted from a bzImage is an ELF file: it begins with the ELF
/// magic.
pub proof fn bzimage_gives_elf(input: Seq<u8>)
    requires
        is_bzimage(input),
        vmlinux_of(input) is Ok,
    ensures
        vmlinux_of(input)->Ok_0.len() >= 4,
        vmlinux_of(input)->Ok_0.take(4) == crate::kernel::elf_magic(),
{
    lemma_first_elf_is_elf(input, gzip_magic(), |b: Seq<u8>| gzip_output(b));
    lemma_first_elf_is_elf(input, zstd_magic(), |b: Seq<u8>| zstd_output(b));
}

/// A gzip member that decompresses to an ELF file is found wherever it stands in
/// a bzImage, if no hit of the magic before it gives one.
pub proof fn embedded_vmlinux_is_found(input: Seq<u8>, at: int)
    requires
        is_bzimage(input),
        crate::bytes::occurs_at(input, gzip_magic(), at),
        gave_elf(gzip_output(input.skip(at))),
        forall|j: int|
            0 <= j < at && #[trigger] crate::bytes::occurs_at(input, gzip_magic(), j) ==> !gave_elf(
                gzip_output(input.skip(j)),
            ),
    ensures
        vmlinux_of(input) == Ok::<Seq<u8>, Fault>(gunzipped(input.skip(at))->Ok_0),
{
    let decode = |b: Seq<u8>| gzip_output(b);
    let hit = |i: int|
        crate::bytes::occurs_at(input, gzip_magic(), i) && gave_elf(decode(input.skip(i)));
    assert forall|j: int| 0 <= j < at implies !#[trigger] hit(j) by {
        if crate::bytes::occurs_at(input, gzip_magic(), j) {
        }
    }
    crate::bytes::lemma_least_is(input.len() as int, hit, at);
}

/// What is first found to be an ELF file is one.
proof fn lemma_first_elf_is_elf(
    input: Seq<u8>,
    magic: Seq<u8>,
    decode: spec_fn(Seq<u8>) -> Option<Seq<u8>>,
)
    ensures
        first_elf(input, magic, decode) is Some ==> gave_elf(first_elf(input, magic, decode)),
{
    crate::bytes::lemma_least(
        input.len() as int,
        |i: int| crate::bytes::occurs_at(input, magic, i) && gave_elf(decode(input.skip(i))),
    );
}

/// A scan with a decompressor whose outcome `decode` fixes gives the first ELF
/// file.
proof fn lemma_scan<F: Fn(&[u8]) -> Option<Vec<u8>>>(
    decompress: F,
    decode: spec_fn(Seq<u8>) -> Option<Seq<u8>>,
    input: Seq<u8>,
    magic: Seq<u8>,
    r: Option<Vec<u8>>,
)
    requires
        magic.len() > 0,
        forall|s: &[u8], out: Option<Vec<u8>>| #[trigger]
            call_ensures(decompress, (s,), out) ==> outcome_view(out) == decode(s@),
        r is Some ==> gave_elf(outcome_view(r)) && exists|at: int|
            {
                &&& #[trigger] crate::bytes::occurs_at(input, magic, at)
                &&& may_give(decompress, input, at, r)
                &&& forall|j: int|
                    0 <= j < at && #[trigger] crate::bytes::occurs_at(input, magic, j)
                        ==> may_reject(decompress, input, j)
            },
        r is None ==> forall|j: int| #[trigger]
            crate::bytes::occurs_at(input, magic, j) ==> may_reject(decompress, input, j),
    ensures
        outcome_view(r) == first_elf(input, magic, decode),
{
    let hit = |i: int|
        crate::bytes::occurs_at(input, magic, i) && gave_elf(decode(input.skip(i)));
    assert forall|j: int| may_reject(decompress, input, j) implies !#[trigger] hit(j) by {
        let out = choose|out: Option<Vec<u8>>|
            #[trigger] may_give(decompress, input, j, out) && !gave_elf(outcome_view(out));
        let s = choose|s: &[u8]|
            s@ == input.skip(j) && #[trigger] call_ensures(decompress, (s,), out);
        assert(outcome_view(out) == decode(s@));
    }
    match r {
        Some(v) => {
            let at = choose|at: int|
                {
                    &&& #[trigger] crate::bytes::occurs_at(input, magic, at)
                    &&& may_give(decompress, input, at, r)
                    &&& forall|j: int|
                        0 <= j < at && #[trigger] crate::bytes::occurs_at(input, magic, j)
                            ==> may_reject(decompress, input, j)
                };
            let s = choose|s: &[u8]|
                s@ == input.skip(at) && #[trigger] call_ensures(decompress, (s,), r);
            assert(outcome_view(r) == decode(s@));
            assert forall|j: int| 0 <= j < at implies !#[trigger] hit(j) by {
                if crate::bytes::occurs_at(input, magic, j) {
                    assert(may_reject(decompress, input, j));
                }
            }
            assert(hit(at));
            crate::bytes::lemma_least_is(input.len() as int, hit, at);
        },
        None => {
            assert forall|j: int| 0 <= j < input.len() implies !#[trigger] hit(j) by {
                if crate::bytes::occurs_at(input, magic, j) {
                    assert(may_reject(decompress, input, j));
                }
            }
            crate::bytes::lemma_least_none(input.len() as int, hit);
        },
    }
}

/// The hits that a scan for zstd frames may come to are those that it comes to.
proof fn lemma_scan_reaches(input: Seq<u8>)
    ensures
        forall|at: int| #[trigger]
            may_reach(unzstd_frame, input, zstd_magic(), at) ==> reached_by_zstd(input, at),
{
    assert forall|at: int| #[trigger]
        may_reach(unzstd_frame, input, zstd_magic(), at) implies reached_by_zstd(input, at) by {
        assert forall|j: int|
            0 <= j < at && #[trigger] crate::bytes::occurs_at(
                input,
                zstd_magic(),
                j,
            ) implies !gave_elf(zstd_output(input.skip(j))) by {
            assert(may_reject(unzstd_frame, input, j));
            let out = choose|out: Option<Vec<u8>>|
                #[trigger] may_give(unzstd_frame, input, j, out) && !gave_elf(outcome_view(out));
            let s = choose|s: &[u8]|
                s@ == input.skip(j) && #[trigger] call_ensures(unzstd_frame, (s,), out);
            assert(outcome_view(out) == zstd_output(s@));
        }
    }
}

/// Decompresses a gzip member, if it decompresses.
fn gunzip_member(input: &[u8]) -> (r: Option<Vec<u8>>)
    ensures
        outcome_view(r) == gzip_output(input@),
{
    match gunzip(input) {
        Ok(out) => Some(out),
        Err(_) => None,
    }
}

/// Decompresses a zstd frame, if it decompresses.
fn unzstd_frame(input: &[u8]) -> (r: Option<Vec<u8>>)
    requires
        crate::zstd::sums_fit(input@),
    ensures
        outcome_view(r) == zstd_output(input@),
{
    match unzstd(input) {
        Ok(out) => Some(out),
        Err(_) => None,
    }
}

/// Whether the file is a bzImage.
pub fn has_bzimage_header(input: &[u8]) -> (r: bool)
    ensures
        r == is_bzimage(input@),
{
    input.len() >= BZIMAGE_HDRS_OFFSET + 4 && read_le32(input, BZIMAGE_HDRS_OFFSET)
        == BZIMAGE_HDRS_MAGIC
}

/// Convert a bzImage (`vmlinuz`) to its embedded ELF `vmlinux`.
///
/// The bzImage embeds the kernel as a compressed ELF after its real-mode setup;
/// the gzip magic and then the zstd magic is scanned for, and each candidate is
/// inflated, returning the first whose output is an ELF. A non-bzImage (already
/// a raw vmlinux, or an arm64 Image) passes through unchanged, so this is safe to
/// call on any kernel before [`crate::kernel::parse`].
///
/// The zstd decoder panics on blocks that regenerate 4 GiB; see
/// [`try_extract_vmlinux`] for input that may hold one.
pub fn extract_vmlinux(input: Vec<u8>) -> (r: Result<Vec<u8>, KernelError>)
    requires
        frames_fit(input@),
    ensures
        match r {
            Ok(elf) => vmlinux_of(input@) == Ok::<Seq<u8>, Fault>(elf@),
            Err(e) => vmlinux_of(input@) == Err::<Seq<u8>, Fault>(e@),
        },
{
    if !has_bzimage_header(input.as_slice()) {
        return Ok(input);
    }
    let gzip: [u8; 3] = GZIP_MAGIC;
    assert(gzip@ =~= gzip_magic());
    let by_gzip: Option<Vec<u8>> = scan_decompress(
        input.as_slice(),
        gzip.as_slice(),
        gunzip_member,
    );
    proof {
        lemma_scan(gunzip_member, |b: Seq<u8>| gzip_output(b), input@, gzip_magic(), by_gzip);
    }
    if let Some(elf) = by_gzip {
        return Ok(elf);
    }
    let zstd: [u8; 4] = ZSTD_MAGIC;
    assert(zstd@ =~= zstd_magic());
    proof {
        lemma_scan_reaches(input@);
    }
    let by_zstd: Option<Vec<u8>> = scan_decompress(
        input.as_slice(),
        zstd.as_slice(),
        unzstd_frame,
    );
    proof {
        lemma_scan(unzstd_frame, |b: Seq<u8>| zstd_output(b), input@, zstd_magic(), by_zstd);
    }
    if let Some(elf) = by_zstd {
        return Ok(elf);
    }
    Err(KernelError::BzImageNoVmlinux)
}

/// Convert a bzImage to its embedded ELF `vmlinux`, unless the search for it comes to
/// a zstd frame that the decoder may not be able to take.
pub fn try_extract_vmlinux(input: Vec<u8>) -> (r: Option<Result<Vec<u8>, KernelError>>)
    ensures
        r is Some == frames_fit(input@),
        match r {
            Some(Ok(elf)) => vmlinux_of(input@) == Ok::<Seq<u8>, Fault>(elf@),
            Some(Err(e)) => vmlinux_of(input@) == Err::<Seq<u8>, Fault>(e@),
            None => true,
        },
{
    if has_fitting_frames(input.as_slice()) {
        Some(extract_vmlinux(input))
    } else {
        None
    }
}

/// Whether the zstd frames that are decoded in search of an ELF file are ones that
/// the decoder can take.
pub fn has_fitting_frames(input: &[u8]) -> (r: bool)
    ensures
        r == frames_fit(input@),
{
    if !has_bzimage_header(input) || all_hits_fit(input) {
        return true;
    }
    let gzip: [u8; 3] = GZIP_MAGIC;
    assert(gzip@ =~= gzip_magic());
    let by_gzip: Option<Vec<u8>> = scan_decompress(input, gzip.as_slice(), gunzip_member);
    proof {
        lemma_scan(gunzip_member, |b: Seq<u8>| gzip_output(b), input@, gzip_magic(), by_gzip);
    }
    by_gzip.is_some() || reached_hits_fit(input)
}

/// Whether every hit of the zstd magic is a frame that the decoder can take.
fn all_hits_fit(input: &[u8]) -> (r: bool)
    ensures
        r == forall|at: int| #[trigger]
            crate::bytes::occurs_at(input@, zstd_magic(), at) ==> crate::zstd::sums_fit(
                input@.skip(at),
            ),
{
    let zstd: [u8; 4] = ZSTD_MAGIC;
    assert(zstd@ =~= zstd_magic());
    let mut from: usize = 0;
    loop
        invariant
            from <= input@.len(),
            zstd@ == zstd_magic(),
            forall|at: int|
                0 <= at < from && #[trigger] crate::bytes::occurs_at(input@, zstd_magic(), at)
                    ==> crate::zstd::sums_fit(input@.skip(at)),
        decreases input@.len() - from,
    {
        let pos: usize = match find_bytes(input, zstd.as_slice(), from) {
            Some(pos) => pos,
            None => return true,
        };
        let rest: &[u8] = &input[pos..input.len()];
        assert(rest@ == input@.skip(pos as int));
        if !has_fitting_sums(rest) {
            return false;
        }
        from = pos + 1;
    }
}

/// Whether every hit of the zstd magic, up to one that gives an ELF file, is a frame
/// that the decoder can take.
fn reached_hits_fit(input: &[u8]) -> (r: bool)
    ensures
        r == forall|at: int| #[trigger]
            reached_by_zstd(input@, at) ==> crate::zstd::sums_fit(input@.skip(at)),
{
    let zstd: [u8; 4] = ZSTD_MAGIC;
    assert(zstd@ =~= zstd_magic());
    let mut from: usize = 0;
    loop
        invariant
            from <= input@.len(),
            zstd@ == zstd_magic(),
            forall|at: int|
                0 <= at < from && #[trigger] crate::bytes::occurs_at(input@, zstd_magic(), at) ==> {
                    &&& crate::zstd::sums_fit(input@.skip(at))
                    &&& !gave_elf(zstd_output(input@.skip(at)))
                },
        decreases input@.len() - from,
    {
        let pos: usize = match find_bytes(input, zstd.as_slice(), from) {
            Some(pos) => pos,
            None => return true,
        };
        let rest: &[u8] = &input[pos..input.len()];
        assert(rest@ == input@.skip(pos as int));
        assert(reached_by_zstd(input@, pos as int));
        if !has_fitting_sums(rest) {
            return false;
        }
        if let Some(out) = unzstd_frame(rest) {
            if is_elf(out.as_slice()) {
                return true;
            }
        }
        from = pos + 1;
    }
}

/// A file is an arm64 EFI-zboot kernel exactly where it has a whole header, with `MZ` at
/// 0 and `zimg` at 4.
pub proof fn zboot_is_told_by_its_tags(input: Seq<u8>)
    ensures
        is_zboot(input) <==> input.len() >= 56 && input[0] as char == 'M' && input[1] as char == 'Z'
            && input[4] as char == 'z' && input[5] as char == 'i' && input[6] as char == 'm'
            && input[7] as char == 'g',
{
}

/// A zboot kernel whose payload, by the little-endian offset at 8 and size at 12, does
/// not lie within the file is refused with both and the file's size.
pub proof fn payload_must_lie_in_file(input: Seq<u8>, off: u32, size: u32)
    requires
        is_zboot(input),
        input.len() <= usize::MAX,
        input[8] as int == off as int % 0x100,
        input[9] as int == off as int / 0x100 % 0x100,
        input[10] as int == off as int / 0x1_0000 % 0x100,
        input[11] as int == off as int / 0x100_0000 % 0x100,
        input[12] as int == size as int % 0x100,
        input[13] as int == size as int / 0x100 % 0x100,
        input[14] as int == size as int / 0x1_0000 % 0x100,
        input[15] as int == size as int / 0x100_0000 % 0x100,
        off + size > input.len(),
    ensures
        unwrapped(input) is Err,
        unwrapped(input)->Err_0 matches Fault::ZbootMalformed { offset, size: length, file }
            && offset == off && length == size && file == input.len(),
        payload_fits(input),
{
    crate::bytes::words_are_little_endian(input, 8, off);
    crate::bytes::words_are_little_endian(input, 12, size);
}

/// The bytes at 24 up to the first NUL, or all 32 of them where there is none, are the
/// name of the compression.
proof fn lemma_compression(input: Seq<u8>, n: int)
    requires
        input.len() >= 56,
        0 <= n <= 32,
        forall|k: int| 0 <= k < n ==> #[trigger] input[24 + k] != 0,
        n < 32 ==> input[24 + n] == 0,
    ensures
        compression(input) == input.subrange(24, 24 + n),
{
    let field = input.subrange(24, 56);
    let nul = |i: int| field[i] == 0;
    assert forall|j: int| 0 <= j < n implies !#[trigger] nul(j) by {
        assert(input[24 + j] != 0);
    }
    if n < 32 {
        crate::bytes::lemma_least_is(32, nul, n);
        assert(field.take(n) =~= input.subrange(24, 24 + n));
    } else {
        crate::bytes::lemma_least_none(32, nul);
    }
}

/// A zboot kernel compressed with gzip is unwrapped to what its payload decompresses to:
/// the bytes at the little-endian offset at 8, as many as the little-endian size at 12
/// says. One that does not decompress is refused with the reason.
pub proof fn gzip_payload_is_unwrapped(input: Seq<u8>, off: u32, size: u32)
    requires
        is_zboot(input),
        input[8] as int == off as int % 0x100,
        input[9] as int == off as int / 0x100 % 0x100,
        input[10] as int == off as int / 0x1_0000 % 0x100,
        input[11] as int == off as int / 0x100_0000 % 0x100,
        input[12] as int == size as int % 0x100,
        input[13] as int == size as int / 0x100 % 0x100,
        input[14] as int == size as int / 0x1_0000 % 0x100,
        input[15] as int == size as int / 0x100_0000 % 0x100,
        off + size <= input.len(),
        input[24] as char == 'g',
        input[25] as char == 'z',
        input[26] as char == 'i',
        input[27] as char == 'p',
        input[28] == 0,
    ensures
        match gunzipped(input.subrange(off as int, off + size)) {
            Ok(image) => unwrapped(input) == Ok::<Seq<u8>, Fault>(image),
            Err(text) => unwrapped(input) == Err::<Seq<u8>, Fault>(Fault::ZbootDecompress(text)),
        },
        payload_fits(input),
{
    crate::bytes::words_are_little_endian(input, 8, off);
    crate::bytes::words_are_little_endian(input, 12, size);
    lemma_compression(input, 4);
    assert(input.subrange(24, 28) =~= gzip_name());
    assert(gzip_name()[0] != zstd_name()[0]);
}

/// A zboot kernel compressed with zstd is unwrapped to what its payload decompresses to,
/// as one compressed with gzip is.
pub proof fn zstd_payload_is_unwrapped(input: Seq<u8>, off: u32, size: u32)
    requires
        is_zboot(input),
        input[8] as int == off as int % 0x100,
        input[9] as int == off as int / 0x100 % 0x100,
        input[10] as int == off as int / 0x1_0000 % 0x100,
        input[11] as int == off as int / 0x100_0000 % 0x100,
        input[12] as int == size as int % 0x100,
        input[13] as int == size as int / 0x100 % 0x100,
        input[14] as int == size as int / 0x1_0000 % 0x100,
        input[15] as int == size as int / 0x100_0000 % 0x100,
        off + size <= input.len(),
        input[24] as char == 'z',
        input[25] as char == 's',
        input[26] as char == 't',
        input[27] as char == 'd',
        input[28] == 0,
    ensures
        match unzstded(input.subrange(off as int, off + size)) {
            Ok(image) => unwrapped(input) == Ok::<Seq<u8>, Fault>(image),
            Err(text) => unwrapped(input) == Err::<Seq<u8>, Fault>(Fault::ZbootDecompress(text)),
        },
        payload_fits(input) <==> crate::zstd::sums_fit(input.subrange(off as int, off + size)),
{
    crate::bytes::words_are_little_endian(input, 8, off);
    crate::bytes::words_are_little_endian(input, 12, size);
    lemma_compression(input, 4);
    assert(input.subrange(24, 28) =~= zstd_name());
    assert(gzip_name()[0] != zstd_name()[0]);
}

/// A zboot kernel compressed with anything else is refused with the name of that: the
/// bytes at 24 up to the first NUL, decoded where they are UTF-8.
pub proof fn other_compressions_are_refused(input: Seq<u8>, off: u32, size: u32, n: int)
    requires
        is_zboot(input),
        input[8] as int == off as int % 0x100,
        input[9] as int == off as int / 0x100 % 0x100,
        input[10] as int == off as int / 0x1_0000 % 0x100,
        input[11] as int == off as int / 0x100_0000 % 0x100,
        input[12] as int == size as int % 0x100,
        input[13] as int == size as int / 0x100 % 0x100,
        input[14] as int == size as int / 0x1_0000 % 0x100,
        input[15] as int == size as int / 0x100_0000 % 0x100,
        off + size <= input.len(),
        0 <= n <= 32,
        forall|k: int| 0 <= k < n ==> #[trigger] input[24 + k] != 0,
        n < 32 ==> input[24 + n] == 0,
        !(n == 4 && input[24] as char == 'g' && input[25] as char == 'z' && input[26] as char == 'i'
            && input[27] as char == 'p'),
        !(n == 4 && input[24] as char == 'z' && input[25] as char == 's' && input[26] as char == 't'
            && input[27] as char == 'd'),
    ensures
        ({
            let name = input.subrange(24, 24 + n);
            &&& unwrapped(input) is Err
            &&& unwrapped(input)->Err_0 matches Fault::ZbootCompression(text) && {
                &&& vstd::utf8::valid_utf8(name) ==> text == vstd::utf8::decode_utf8(name)
                &&& !vstd::utf8::valid_utf8(name) ==> text == lossy_text(name)
            }
            &&& payload_fits(input)
        }),
{
    crate::bytes::words_are_little_endian(input, 8, off);
    crate::bytes::words_are_little_endian(input, 12, size);
    lemma_compression(input, n);
    let name = input.subrange(24, 24 + n);
    if name == gzip_name() || name == zstd_name() {
        assert(name.len() == 4);
        assert(name[0] == input[24] && name[1] == input[25] && name[2] == input[26] && name[3]
            == input[27]);
    }
}

/// The name of the compression is what the header holds up to the first NUL.
pub proof fn compression_name_ends_at_nul(input: Seq<u8>, n: int)
    requires
        input.len() >= 56,
        0 <= n <= 32,
        forall|k: int| 0 <= k < n ==> #[trigger] input[24 + k] != 0,
        n < 32 ==> input[24 + n] == 0,
    ensures
        compression(input).len() == n,
        forall|k: int| 0 <= k < n ==> #[trigger] compression(input)[k] == input[24 + k],
{
    lemma_compression(input, n);
}

/// The two compressions go by the names "gzip" and "zstd".
pub proof fn compressions_have_names()
    ensures
        gzip_name().len() == 4,
        gzip_name()[0] as char == 'g',
        gzip_name()[1] as char == 'z',
        gzip_name()[2] as char == 'i',
        gzip_name()[3] as char == 'p',
        zstd_name().len() == 4,
        zstd_name()[0] as char == 'z',
        zstd_name()[1] as char == 's',
        zstd_name()[2] as char == 't',
        zstd_name()[3] as char == 'd',
{
}

/// Input that is not EFI-zboot is nothing to decode.
pub proof fn non_zboot_fits(input: Seq<u8>)
    requires
        !is_zboot(input),
    ensures
        payload_fits(input),
{
}

/// A file is a bzImage exactly where `HdrS` stands at 0x202.
pub proof fn bzimage_is_told_by_its_tag(input: Seq<u8>)
    ensures
        is_bzimage(input) <==> input.len() >= 0x206 && input[0x202] as char == 'H'
            && input[0x203] as char == 'd' && input[0x204] as char == 'r' && input[0x205] as char
            == 'S',
{
}

/// Whether decompressing gave a file that begins with DEL and `ELF`.
pub open spec fn decodes_to_elf(decoded: Result<Seq<u8>, Seq<char>>) -> bool {
    decoded matches Ok(b) && b.len() >= 4 && b[0] == 0x7f && b[1] as char == 'E' && b[2] as char
        == 'L' && b[3] as char == 'F'
}

/// Whether the three bytes that begin a gzip member stand at `at`.
pub open spec fn begins_gzip(input: Seq<u8>, at: int) -> bool {
    0 <= at <= input.len() - 3 && input[at] == 0x1f && input[at + 1] == 0x8b && input[at + 2] == 8
}

/// Whether the four bytes that begin a zstd frame stand at `at`.
pub open spec fn begins_zstd(input: Seq<u8>, at: int) -> bool {
    0 <= at <= input.len() - 4 && input[at] == 0x28 && input[at + 1] == 0xb5 && input[at + 2]
        == 0x2f && input[at + 3] == 0xfd
}

/// What stands at a hit, and what a decompressor gave, in plain bytes.
proof fn lemma_hits(input: Seq<u8>, at: int)
    ensures
        crate::bytes::occurs_at(input, gzip_magic(), at) == begins_gzip(input, at),
        crate::bytes::occurs_at(input, zstd_magic(), at) == begins_zstd(input, at),
        gave_elf(gzip_output(input)) == decodes_to_elf(gunzipped(input)),
        gave_elf(zstd_output(input)) == decodes_to_elf(unzstded(input)),
{
    let g = gzip_magic();
    let z = zstd_magic();
    crate::bytes::occurrence_is_bytewise(input, g, at);
    crate::bytes::occurrence_is_bytewise(input, z, at);
    if crate::bytes::occurs_at(input, g, at) {
        assert(input[at + 0] == g[0] && input[at + 1] == g[1] && input[at + 2] == g[2]);
    }
    if crate::bytes::occurs_at(input, z, at) {
        assert(input[at + 0] == z[0] && input[at + 1] == z[1] && input[at + 2] == z[2] && input[at
            + 3] == z[3]);
    }
    if gunzipped(input) is Ok {
        lemma_elf_bytes(gunzipped(input)->Ok_0);
    }
    if unzstded(input) is Ok {
        lemma_elf_bytes(unzstded(input)->Ok_0);
    }
}

/// The ELF magic in plain bytes.
proof fn lemma_elf_bytes(b: Seq<u8>)
    ensures
        b.len() >= 4 && b.take(4) == crate::kernel::elf_magic() <==> b.len() >= 4 && b[0] == 0x7f
            && b[1] as char == 'E' && b[2] as char == 'L' && b[3] as char == 'F',
{
    if b.len() >= 4 {
        let front = b.take(4);
        assert(front[0] == b[0] && front[1] == b[1] && front[2] == b[2] && front[3] == b[3]);
        if b[0] == 0x7f && b[1] == 0x45 && b[2] == 0x4c && b[3] == 0x46 {
            assert(front =~= crate::kernel::elf_magic());
        }
    }
}

/// Output of a decompressor is an ELF file exactly where it begins with DEL and `ELF`.
pub proof fn elf_output_is_told_by_its_magic(out: Seq<u8>)
    ensures
        gave_elf(Some(out)) <==> out.len() >= 4 && out[0] == 0x7f && out[1] as char == 'E'
            && out[2] as char == 'L' && out[3] as char == 'F',
        !gave_elf(None),
{
    lemma_elf_bytes(out);
}

/// Without a gzip member that decompresses to an ELF file, none is found.
proof fn lemma_no_gzip(input: Seq<u8>)
    requires
        forall|j: int| #[trigger]
            begins_gzip(input, j) ==> !decodes_to_elf(gunzipped(input.skip(j))),
    ensures
        first_elf(input, gzip_magic(), |b: Seq<u8>| gzip_output(b)) is None,
{
    let decode = |b: Seq<u8>| gzip_output(b);
    let hit = |i: int|
        crate::bytes::occurs_at(input, gzip_magic(), i) && gave_elf(decode(input.skip(i)));
    assert forall|j: int| 0 <= j < input.len() implies !#[trigger] hit(j) by {
        lemma_hits(input, j);
        lemma_hits(input.skip(j), 0);
    }
    crate::bytes::lemma_least_none(input.len() as int, hit);
}

/// The first gzip member of a bzImage that decompresses to an ELF file is what is
/// extracted, whatever else stands in the image.
pub proof fn first_gzip_elf_is_extracted(input: Seq<u8>, at: int)
    requires
        is_bzimage(input),
        begins_gzip(input, at),
        decodes_to_elf(gunzipped(input.skip(at))),
        forall|j: int|
            0 <= j < at && #[trigger] begins_gzip(input, j) ==> !decodes_to_elf(
                gunzipped(input.skip(j)),
            ),
    ensures
        vmlinux_of(input) is Ok,
        vmlinux_of(input)->Ok_0 == gunzipped(input.skip(at))->Ok_0,
        frames_fit(input),
{
    lemma_hits(input, at);
    lemma_hits(input.skip(at), 0);
    assert forall|j: int|
        0 <= j < at && #[trigger] crate::bytes::occurs_at(
            input,
            gzip_magic(),
            j,
        ) implies !gave_elf(gzip_output(input.skip(j))) by {
        lemma_hits(input, j);
        lemma_hits(input.skip(j), 0);
    }
    embedded_vmlinux_is_found(input, at);
    let decode = |b: Seq<u8>| gzip_output(b);
    let hit = |i: int|
        crate::bytes::occurs_at(input, gzip_magic(), i) && gave_elf(decode(input.skip(i)));
    assert(hit(at));
    crate::bytes::lemma_least(input.len() as int, hit);
}

/// Where no gzip member decompresses to an ELF file, the first zstd frame that does is
/// what is extracted.
pub proof fn first_zstd_elf_is_extracted(input: Seq<u8>, at: int)
    requires
        is_bzimage(input),
        forall|j: int| #[trigger]
            begins_gzip(input, j) ==> !decodes_to_elf(gunzipped(input.skip(j))),
        begins_zstd(input, at),
        decodes_to_elf(unzstded(input.skip(at))),
        forall|j: int|
            0 <= j < at && #[trigger] begins_zstd(input, j) ==> !decodes_to_elf(
                unzstded(input.skip(j)),
            ),
    ensures
        vmlinux_of(input) is Ok,
        vmlinux_of(input)->Ok_0 == unzstded(input.skip(at))->Ok_0,
{
    lemma_no_gzip(input);
    let decode = |b: Seq<u8>| zstd_output(b);
    let hit = |i: int|
        crate::bytes::occurs_at(input, zstd_magic(), i) && gave_elf(decode(input.skip(i)));
    assert forall|j: int| 0 <= j < at implies !#[trigger] hit(j) by {
        lemma_hits(input, j);
        lemma_hits(input.skip(j), 0);
    }
    lemma_hits(input, at);
    lemma_hits(input.skip(at), 0);
    crate::bytes::lemma_least_is(input.len() as int, hit, at);
}

/// A bzImage in which neither a gzip member nor a zstd frame decompresses to an ELF file
/// is refused.
pub proof fn bzimage_without_elf_is_refused(input: Seq<u8>)
    requires
        is_bzimage(input),
        forall|j: int| #[trigger]
            begins_gzip(input, j) ==> !decodes_to_elf(gunzipped(input.skip(j))),
        forall|j: int| #[trigger]
            begins_zstd(input, j) ==> !decodes_to_elf(unzstded(input.skip(j))),
    ensures
        vmlinux_of(input) == Err::<Seq<u8>, Fault>(Fault::BzImageNoVmlinux),
{
    lemma_no_gzip(input);
    let decode = |b: Seq<u8>| zstd_output(b);
    let hit = |i: int|
        crate::bytes::occurs_at(input, zstd_magic(), i) && gave_elf(decode(input.skip(i)));
    assert forall|j: int| 0 <= j < input.len() implies !#[trigger] hit(j) by {
        lemma_hits(input, j);
        lemma_hits(input.skip(j), 0);
    }
    crate::bytes::lemma_least_none(input.len() as int, hit);
}

/// Whether a zstd frame begins at `at`, and none that begins before it decompresses to
/// an ELF file.
pub open spec fn is_next_zstd(input: Seq<u8>, at: int) -> bool {
    &&& begins_zstd(input, at)
    &&& forall|j: int|
        0 <= j < at && #[trigger] begins_zstd(input, j) ==> !decodes_to_elf(
            unzstded(input.skip(j)),
        )
}

/// The frames that the search comes to, in plain bytes.
proof fn lemma_reached(input: Seq<u8>, at: int)
    ensures
        reached_by_zstd(input, at) == is_next_zstd(input, at),
{
    lemma_hits(input, at);
    assert forall|j: int|
        #![trigger crate::bytes::occurs_at(input, zstd_magic(), j)]
        #![trigger begins_zstd(input, j)]
        crate::bytes::occurs_at(input, zstd_magic(), j) == begins_zstd(input, j) && gave_elf(
            zstd_output(input.skip(j)),
        ) == decodes_to_elf(unzstded(input.skip(j))) by {
        lemma_hits(input, j);
        lemma_hits(input.skip(j), 0);
    }
}

/// Where no gzip member decompresses to an ELF file, the zstd frames that the search
/// comes to are the ones that have to fit: each up to the first that decompresses to an
/// ELF file. In a file that is no bzImage none is decoded.
pub proof fn only_frames_that_are_reached_have_to_fit(input: Seq<u8>)
    requires
        is_bzimage(input) ==> forall|j: int| #[trigger]
            begins_gzip(input, j) ==> !decodes_to_elf(gunzipped(input.skip(j))),
    ensures
        frames_fit(input) <==> !is_bzimage(input) || forall|at: int| #[trigger]
            is_next_zstd(input, at) ==> crate::zstd::sums_fit(input.skip(at)),
{
    if is_bzimage(input) {
        lemma_no_gzip(input);
        assert forall|at: int|
            #![trigger reached_by_zstd(input, at)]
            #![trigger is_next_zstd(input, at)]
            reached_by_zstd(input, at) == is_next_zstd(input, at) by {
            lemma_reached(input, at);
        }
    }
}

} // verus!
