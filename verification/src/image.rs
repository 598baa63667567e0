//! The flat loaded image of an ELF kernel.
use vstd::prelude::*;

use crate::elf::{elf_span, read_program, ElfSpan, Segment, PT_LOAD};
use crate::error::{Fault, KernelError};

verus! {

/// Guest page size.
pub const PAGE: usize = 0x1000;

/// Whether the segment has file bytes that go into the image.
pub open spec fn is_copied(s: Segment) -> bool {
    s.p_type == PT_LOAD && s.p_filesz != 0
}

/// Number of file bytes of the segment.
pub open spec fn size_in_file(s: Segment) -> int {
    (s.p_filesz as usize) as int
}

/// Where the segment's bytes begin in the file.
pub open spec fn file_offset(s: Segment) -> int {
    (s.p_offset as usize) as int
}

/// Where the segment's bytes begin in the image that loads at `base`.
pub open spec fn image_offset(s: Segment, base: u64) -> int {
    ((s.p_paddr - base) as usize) as int
}

/// Whether the segment's bytes lie within a file of `file_len` bytes.
pub open spec fn in_file(s: Segment, file_len: int) -> bool {
    file_offset(s) + size_in_file(s) <= file_len
}

/// Whether some segment's bytes lie outside a file of `file_len` bytes.
pub open spec fn some_outside(segments: Seq<Segment>, file_len: int) -> bool {
    exists|i: int|
        0 <= i < segments.len() && is_copied(#[trigger] segments[i]) && !in_file(
            segments[i],
            file_len,
        )
}

/// Whether the segment at `i`, if its turn to be copied comes, has its place
/// in an image of `len` bytes that loads at `base`.
pub open spec fn fits(segments: Seq<Segment>, base: u64, len: int, file_len: int, i: int) -> bool {
    is_copied(segments[i]) && !some_outside(segments.take(i), file_len) ==> {
        &&& base <= segments[i].p_paddr
        &&& in_file(segments[i], file_len) ==> image_offset(segments[i], base) + size_in_file(
            segments[i],
        ) <= len
    }
}

/// Whether the segments can be laid out: the image is no larger than an
/// allocation can be, and no segment that takes up no memory carries file
/// bytes that lie outside the span of those that do.
pub open spec fn loadable(segments: Seq<Segment>, file_len: int) -> bool {
    match crate::elf::span_of(segments) {
        Ok(span) => image_len(span) <= usize::MAX ==> {
            &&& image_len(span) <= isize::MAX
            &&& forall|i: int|
                0 <= i < segments.len() ==> #[trigger] fits(
                    segments,
                    span.min_paddr,
                    image_len(span),
                    file_len,
                    i,
                )
        },
        Err(_) => true,
    }
}

/// Number of bytes from the load base to the end of the file-backed part.
pub open spec fn image_len(span: ElfSpan) -> int {
    span.max_file_end - span.min_paddr
}

/// The byte at offset `at` of the image that loads at `base`: that of the last
/// segment laid over it, zero where no segment is.
pub open spec fn laid_byte(segments: Seq<Segment>, bytes: Seq<u8>, base: u64, at: int) -> u8
    decreases segments.len(),
{
    if segments.len() == 0 {
        0
    } else {
        let s = segments.last();
        let begin = image_offset(s, base);
        if is_copied(s) && begin <= at < begin + size_in_file(s) {
            bytes[file_offset(s) + at - begin]
        } else {
            laid_byte(segments.drop_last(), bytes, base, at)
        }
    }
}

/// The image with every segment's file bytes in place and the gaps zero.
pub open spec fn flat_image(segments: Seq<Segment>, bytes: Seq<u8>, span: ElfSpan) -> Seq<u8> {
    Seq::new(
        image_len(span) as nat,
        |at: int| laid_byte(segments, bytes, span.min_paddr, at),
    )
}

/// Length of the image without its trailing zeros.
pub open spec fn content_end(image: Seq<u8>) -> int
    decreases image.len(),
{
    if image.len() == 0 {
        0
    } else if image.last() != 0 {
        image.len() as int
    } else {
        content_end(image.drop_last())
    }
}

/// Number of bytes of the image that are kept: its content, rounded up to a
/// page, and never more than there is.
pub open spec fn kept_len(image: Seq<u8>) -> int {
    let pages = (content_end(image) + PAGE - 1) / PAGE as int * PAGE;
    if pages < image.len() {
        pages
    } else {
        image.len() as int
    }
}

/// The image that the segments and the file bytes make, or why there is none.
pub open spec fn loaded(segments: Seq<Segment>, bytes: Seq<u8>) -> Result<Seq<u8>, Fault> {
    match crate::elf::span_of(segments) {
        Err(e) => Err(e),
        Ok(span) => if image_len(span) > usize::MAX {
            Err(Fault::ElfMalformed("loaded image exceeds usize"@))
        } else if some_outside(segments, bytes.len() as int) {
            Err(Fault::ElfMalformed("p_offset + p_filesz out of file bounds"@))
        } else {
            let image = flat_image(segments, bytes, span);
            Ok(image.take(kept_len(image)))
        },
    }
}

/// The content ends at the last byte that is not zero.
pub proof fn lemma_content_end(image: Seq<u8>)
    ensures
        0 <= content_end(image) <= image.len(),
        content_end(image) > 0 ==> image[content_end(image) - 1] != 0,
        forall|k: int| content_end(image) <= k < image.len() ==> #[trigger] image[k] == 0,
    decreases image.len(),
{
    if image.len() > 0 && image.last() == 0 {
        let rest = image.drop_last();
        lemma_content_end(rest);
        assert forall|k: int| content_end(image) <= k < image.len() implies #[trigger] image[k]
            == 0 by {
            if k < rest.len() {
                assert(rest[k] == image[k]);
            }
        }
    }
}

/// Trimming loses nothing: every byte that is dropped is zero, so filling the
/// kept bytes up with zeros gives the whole image back. Less than a page of
/// zeros is kept behind the content.
pub proof fn trimming_drops_only_zeros(image: Seq<u8>)
    ensures
        0 <= kept_len(image) <= image.len(),
        image.take(kept_len(image)) + Seq::new(
            (image.len() - kept_len(image)) as nat,
            |k: int| 0u8,
        ) == image,
        content_end(image) <= kept_len(image) < content_end(image) + PAGE,
        kept_len(image) == image.len() || kept_len(image) % PAGE as int == 0,
{
    lemma_content_end(image);
    let zeros = Seq::new((image.len() - kept_len(image)) as nat, |k: int| 0u8);
    assert(content_end(image) <= kept_len(image));
    assert(image.take(kept_len(image)) + zeros =~= image);
}

/// Filling the image that is kept up with zeros gives the whole flat image back.
pub proof fn zero_filling_restores_image(segments: Seq<Segment>, bytes: Seq<u8>)
    requires
        loaded(segments, bytes) is Ok,
    ensures
        ({
            let flat = flat_image(segments, bytes, crate::elf::span_of(segments)->Ok_0);
            let kept = loaded(segments, bytes)->Ok_0;
            &&& kept.len() <= flat.len()
            &&& kept + Seq::new((flat.len() - kept.len()) as nat, |k: int| 0u8) == flat
        }),
{
    trimming_drops_only_zeros(
        flat_image(segments, bytes, crate::elf::span_of(segments)->Ok_0),
    );
}

/// Whether the segment's file bytes cover the offset `at` of the image.
pub open spec fn covers(s: Segment, base: u64, at: int) -> bool {
    is_copied(s) && image_offset(s, base) <= at < image_offset(s, base) + size_in_file(s)
}

/// A segment's file bytes stand in the image at the segment's offset, but for
/// those that a later segment covers.
pub proof fn segment_bytes_are_in_place(
    segments: Seq<Segment>,
    bytes: Seq<u8>,
    base: u64,
    i: int,
    at: int,
)
    requires
        0 <= i < segments.len(),
        covers(segments[i], base, at),
        forall|j: int| i < j < segments.len() ==> !covers(#[trigger] segments[j], base, at),
    ensures
        laid_byte(segments, bytes, base, at) == bytes[file_offset(segments[i]) + at
            - image_offset(segments[i], base)],
    decreases segments.len(),
{
    if i < segments.len() - 1 {
        let rest = segments.drop_last();
        assert(!covers(segments[segments.len() - 1], base, at));
        assert forall|j: int| i < j < rest.len() implies !covers(#[trigger] rest[j], base, at) by {
            assert(rest[j] == segments[j]);
        }
        segment_bytes_are_in_place(rest, bytes, base, i, at);
    }
}

/// What no segment covers is zero.
pub proof fn gaps_are_zero(segments: Seq<Segment>, bytes: Seq<u8>, base: u64, at: int)
    requires
        forall|j: int| 0 <= j < segments.len() ==> !covers(#[trigger] segments[j], base, at),
    ensures
        laid_byte(segments, bytes, base, at) == 0,
    decreases segments.len(),
{
    if segments.len() > 0 {
        let rest = segments.drop_last();
        assert(!covers(segments[segments.len() - 1], base, at));
        assert forall|j: int| 0 <= j < rest.len() implies !covers(#[trigger] rest[j], base, at) by {
            assert(rest[j] == segments[j]);
        }
        gaps_are_zero(rest, bytes, base, at);
    }
}

/// A kernel whose segments with file bytes all take up memory can be laid out,
/// as far as its image is no larger than an allocation can be.
pub proof fn ordinary_kernels_are_loadable(segments: Seq<Segment>, file_len: int)
    requires
        forall|i: int|
            0 <= i < segments.len() && is_copied(#[trigger] segments[i]) ==> segments[i].p_memsz
                != 0,
        crate::elf::span_of(segments) is Ok ==> image_len(crate::elf::span_of(segments)->Ok_0)
            <= isize::MAX,
    ensures
        loadable(segments, file_len),
{
    if crate::elf::span_of(segments) is Ok {
        let span = crate::elf::span_of(segments)->Ok_0;
        crate::elf::lemma_span_order(segments);
        crate::elf::lemma_span_bounds(segments);
        assert forall|i: int| 0 <= i < segments.len() implies #[trigger] fits(
            segments,
            span.min_paddr,
            image_len(span),
            file_len,
            i,
        ) by {
            if is_copied(segments[i]) {
                assert(crate::elf::is_loaded(segments[i]));
            }
        }
    }
}

/// Where no loaded segment has more file bytes than memory, the image that is
/// kept is no larger than the memory that the kernel is given.
pub proof fn image_fits_allocation(program: crate::elf::ProgramView, bytes: Seq<u8>)
    requires
        crate::kernel::placement(program) is Ok,
        loaded(program.segments, bytes) is Ok,
        forall|i: int|
            0 <= i < program.segments.len() && crate::elf::is_loaded(#[trigger] program.segments[i])
                ==> program.segments[i].p_filesz <= program.segments[i].p_memsz,
    ensures
        loaded(program.segments, bytes)->Ok_0.len() <= crate::kernel::placement(
            program,
        )->Ok_0.alloc_size,
{
    let segments = program.segments;
    let span = crate::elf::span_of(segments)->Ok_0;
    crate::elf::lemma_span_order(segments);
    crate::elf::lemma_span_bounds(segments);
    let w = choose|i: int|
        #![trigger segments[i]]
        0 <= i < segments.len() && crate::elf::is_loaded(segments[i]) && segments[i].p_paddr
            + segments[i].p_filesz == crate::elf::highest_file_end(segments);
    assert(segments[w].p_paddr + segments[w].p_memsz <= crate::elf::highest_mem_end(segments));
    trimming_drops_only_zeros(flat_image(segments, bytes, span));
}

/// Copies `n` bytes of `bytes`, from `src` on, into `image`, from `dst` on.
fn copy_into(image: &mut Vec<u8>, dst: usize, bytes: &[u8], src: usize, n: usize)
    requires
        dst + n <= old(image)@.len(),
        src + n <= bytes@.len(),
    ensures
        final(image)@.len() == old(image)@.len(),
        forall|at: int|
            0 <= at < old(image)@.len() ==> #[trigger] final(image)@[at] == (if dst <= at < dst
                + n {
                bytes@[src + at - dst]
            } else {
                old(image)@[at]
            }),
{
    let len: usize = image.len();
    let file: usize = bytes.len();
    let mut k: usize = 0;
    while k < n
        invariant
            k <= n,
            len == image@.len(),
            file == bytes@.len(),
            image@.len() == old(image)@.len(),
            dst + n <= len,
            src + n <= file,
            forall|at: int|
                0 <= at < image@.len() ==> #[trigger] image@[at] == (if dst <= at < dst + k {
                    bytes@[src + at - dst]
                } else {
                    old(image)@[at]
                }),
        decreases n - k,
    {
        image.set(dst + k, bytes[src + k]);
        k = k + 1;
    }
}

/// Lays the segments out as a flat image: each `PT_LOAD`'s file bytes copied to
/// `p_paddr - min_paddr`, gaps zero-filled, trailing zeros dropped down to a
/// page.
pub fn load_image(segments: &[Segment], bytes: &[u8]) -> (r: Result<Vec<u8>, KernelError>)
    requires
        loadable(segments@, bytes@.len() as int),
    ensures
        match r {
            Ok(image) => loaded(segments@, bytes@) == Ok::<Seq<u8>, Fault>(image@),
            Err(e) => loaded(segments@, bytes@) == Err::<Seq<u8>, Fault>(e@),
        },
{
    let span: ElfSpan = match elf_span(segments) {
        Ok(span) => span,
        Err(e) => return Err(e),
    };
    proof {
        crate::elf::lemma_span_order(segments@);
    }
    let wide: u64 = span.max_file_end - span.min_paddr;
    if wide > usize::MAX as u64 {
        return Err(KernelError::ElfMalformed("loaded image exceeds usize"));
    }
    let len: usize = wide as usize;
    let base: u64 = span.min_paddr;
    let file_len: usize = bytes.len();
    let mut image: Vec<u8> = vec![0u8; len];
    let mut i: usize = 0;
    while i < segments.len()
        invariant
            i <= segments@.len(),
            len == image_len(span),
            len <= isize::MAX,
            image@.len() == len,
            base == span.min_paddr,
            file_len == bytes@.len(),
            crate::elf::span_of(segments@) == Ok::<ElfSpan, Fault>(span),
            loadable(segments@, bytes@.len() as int),
            !some_outside(segments@.take(i as int), bytes@.len() as int),
            forall|at: int|
                0 <= at < len ==> #[trigger] image@[at] == laid_byte(
                    segments@.take(i as int),
                    bytes@,
                    base,
                    at,
                ),
        decreases segments@.len() - i,
    {
        let p: Segment = segments[i];
        proof {
            assert(segments@.take(i + 1).drop_last() =~= segments@.take(i as int));
            assert(segments@.take(i + 1).last() == p);
            assert(fits(segments@, base, len as int, file_len as int, i as int));
        }
        if p.p_type != PT_LOAD || p.p_filesz == 0 {
            proof {
                lemma_outside_step(segments@, file_len as int, i as int);
            }
            i = i + 1;
            continue;
        }
        let dst: usize = (p.p_paddr - base) as usize;
        let src: usize = p.p_offset as usize;
        let n: usize = p.p_filesz as usize;
        proof {
            lemma_outside_step(segments@, file_len as int, i as int);
        }
        match src.checked_add(n) {
            Some(end) => {
                if end > file_len {
                    proof {
                        lemma_outside_whole(segments@, file_len as int, i as int);
                    }
                    return Err(KernelError::ElfMalformed("p_offset + p_filesz out of file bounds"));
                }
            },
            None => {
                proof {
                    lemma_outside_whole(segments@, file_len as int, i as int);
                }
                return Err(KernelError::ElfMalformed("p_offset + p_filesz out of file bounds"));
            },
        }
        copy_into(&mut image, dst, bytes, src, n);
        i = i + 1;
    }
    proof {
        assert(segments@.take(segments@.len() as int) =~= segments@);
        assert(image@ =~= flat_image(segments@, bytes@, span));
    }
    trim(&mut image);
    Ok(image)
}

/// One more segment: some segment is outside the file exactly where one was
/// before, or the new one is.
proof fn lemma_outside_step(segments: Seq<Segment>, file_len: int, i: int)
    requires
        0 <= i < segments.len(),
        !some_outside(segments.take(i), file_len),
    ensures
        some_outside(segments.take(i + 1), file_len) == (is_copied(segments[i]) && !in_file(
            segments[i],
            file_len,
        )),
{
    let before = segments.take(i);
    let after = segments.take(i + 1);
    assert(after[i] == segments[i]);
    if some_outside(after, file_len) {
        let w = choose|w: int|
            0 <= w < after.len() && is_copied(#[trigger] after[w]) && !in_file(after[w], file_len);
        if w < i {
            assert(before[w] == after[w]);
        }
    }
}

/// A segment outside the file is one among all.
proof fn lemma_outside_whole(segments: Seq<Segment>, file_len: int, i: int)
    requires
        0 <= i < segments.len(),
        is_copied(segments[i]),
        !in_file(segments[i], file_len),
    ensures
        some_outside(segments, file_len),
{
}

/// Drops the image's trailing zeros, keeping the content rounded up to a page.
fn trim(image: &mut Vec<u8>)
    requires
        old(image)@.len() <= isize::MAX,
    ensures
        final(image)@ == old(image)@.take(kept_len(old(image)@)),
{
    let ghost whole = image@;
    let mut end: usize = image.len();
    assert(whole.take(whole.len() as int) =~= whole);
    while end > 0 && image[end - 1] == 0
        invariant
            end <= image@.len(),
            image@ == whole,
            content_end(whole.take(end as int)) == content_end(whole),
        decreases end,
    {
        assert(whole.take(end as int).drop_last() =~= whole.take(end - 1));
        end = end - 1;
    }
    proof {
        lemma_content_end(whole);
        lemma_content_end(whole.take(end as int));
    }
    let pages: usize = (end + (PAGE - 1)) / PAGE * PAGE;
    if pages < image.len() {
        image.truncate(pages);
    }
    assert(image@ =~= whole.take(kept_len(whole)));
}

/// Whether the segments can be laid out as a flat image.
pub fn can_load(segments: &[Segment], file_len: usize) -> (r: bool)
    ensures
        r == loadable(segments@, file_len as int),
{
    let span: ElfSpan = match elf_span(segments) {
        Ok(span) => span,
        Err(_) => return true,
    };
    proof {
        crate::elf::lemma_span_order(segments@);
    }
    let base: u64 = span.min_paddr;
    let len: u64 = span.max_file_end - base;
    if len > usize::MAX as u64 {
        return true;
    }
    if len > isize::MAX as u64 {
        return false;
    }
    let mut i: usize = 0;
    while i < segments.len()
        invariant
            i <= segments@.len(),
            crate::elf::span_of(segments@) == Ok::<ElfSpan, Fault>(span),
            base == span.min_paddr,
            len == image_len(span),
            len <= isize::MAX,
            !some_outside(segments@.take(i as int), file_len as int),
            forall|j: int|
                0 <= j < i ==> #[trigger] fits(segments@, base, len as int, file_len as int, j),
        decreases segments@.len() - i,
    {
        let p: Segment = segments[i];
        proof {
            lemma_outside_step(segments@, file_len as int, i as int);
        }
        if p.p_type == PT_LOAD && p.p_filesz != 0 {
            if p.p_paddr < base {
                assert(!fits(segments@, base, len as int, file_len as int, i as int));
                return false;
            }
            let dst: usize = (p.p_paddr - base) as usize;
            let src: usize = p.p_offset as usize;
            let n: usize = p.p_filesz as usize;
            let inside: bool = match src.checked_add(n) {
                Some(end) => end <= file_len,
                None => false,
            };
            if !inside {
                proof {
                    assert forall|j: int| 0 <= j < segments@.len() implies #[trigger] fits(
                        segments@,
                        base,
                        len as int,
                        file_len as int,
                        j,
                    ) by {
                        if j > i {
                            assert(segments@.take(j)[i as int] == p);
                            lemma_outside_whole(segments@.take(j), file_len as int, i as int);
                        }
                    }
                }
                return true;
            }
            let placed: bool = match dst.checked_add(n) {
                Some(end) => end as u64 <= len,
                None => false,
            };
            if !placed {
                assert(!fits(segments@, base, len as int, file_len as int, i as int));
                return false;
            }
        }
        i = i + 1;
    }
    true
}

/// Lower an ELF `vmlinux` to its flat loaded-segment image: each `PT_LOAD`'s
/// file bytes copied to `p_paddr - min_paddr`, gaps zero-filled. The BSS tail
/// is left out, and so are the image's trailing zeros beyond the last page of
/// content.
pub fn elf_load_image(bytes: &[u8]) -> (r: Result<Vec<u8>, KernelError>)
    requires
        crate::elf::elf_contents(bytes@) is Some ==> loadable(
            crate::elf::elf_contents(bytes@)->0.program.segments,
            bytes@.len() as int,
        ),
    ensures
        match r {
            Ok(image) => elf_image(bytes@) == Ok::<Seq<u8>, Fault>(image@),
            Err(e) => elf_image(bytes@) == Err::<Seq<u8>, Fault>(e@),
        },
{
    match read_program(bytes) {
        Ok(program) => load_image(program.segments.as_slice(), bytes),
        Err(e) => Err(e),
    }
}

/// The flat image of an ELF file, or why there is none.
pub open spec fn elf_image(bytes: Seq<u8>) -> Result<Seq<u8>, Fault> {
    match crate::elf::elf_contents(bytes) {
        Some(c) => loaded(c.program.segments, bytes),
        None => Err(crate::elf::not_elf()),
    }
}

/// Lowers an ELF `vmlinux` as [`elf_load_image`] does where its segments can be
/// laid out, and gives nothing where they cannot.
pub fn try_elf_load_image(bytes: &[u8]) -> (r: Option<Result<Vec<u8>, KernelError>>)
    ensures
        r is None <==> crate::elf::elf_contents(bytes@) is Some && !loadable(
            crate::elf::elf_contents(bytes@)->0.program.segments,
            bytes@.len() as int,
        ),
        match r {
            Some(Ok(image)) => elf_image(bytes@) == Ok::<Seq<u8>, Fault>(image@),
            Some(Err(e)) => elf_image(bytes@) == Err::<Seq<u8>, Fault>(e@),
            None => true,
        },
{
    match read_program(bytes) {
        Ok(program) => {
            if can_load(program.segments.as_slice(), bytes.len()) {
                Some(elf_load_image(bytes))
            } else {
                None
            }
        },
        Err(e) => Some(Err(e)),
    }
}

/// Whether every `PT_LOAD` with file bytes lies within the span of those that take up
/// memory, and begins at a file offset that can be addressed.
pub open spec fn stay_within_span(segments: Seq<Segment>) -> bool {
    forall|j: int|
        #![trigger segments[j]]
        0 <= j < segments.len() && segments[j].p_type == 1 && segments[j].p_filesz > 0 ==> {
            &&& segments[j].p_memsz > 0 || {
                let span = crate::elf::span_of(segments)->Ok_0;
                &&& span.min_paddr <= segments[j].p_paddr
                &&& segments[j].p_paddr + segments[j].p_filesz <= span.max_file_end
            }
            &&& segments[j].p_offset <= usize::MAX
        }
}

/// A segment that lies within the span has its bytes where its fields say.
proof fn lemma_places(segments: Seq<Segment>, j: int)
    requires
        crate::elf::span_of(segments) is Ok,
        image_len(crate::elf::span_of(segments)->Ok_0) <= usize::MAX,
        stay_within_span(segments),
        0 <= j < segments.len(),
        is_copied(segments[j]),
    ensures
        ({
            let s = segments[j];
            let span = crate::elf::span_of(segments)->Ok_0;
            &&& span.min_paddr <= s.p_paddr
            &&& s.p_paddr + s.p_filesz <= span.max_file_end
            &&& image_offset(s, span.min_paddr) == s.p_paddr - span.min_paddr
            &&& size_in_file(s) == s.p_filesz
            &&& file_offset(s) == s.p_offset
        }),
{
    crate::elf::span_encloses_segments_tightly(segments);
    crate::elf::lemma_span_order(segments);
    assert(segments[j].p_filesz > 0);
}

/// In the loaded image, the file byte `k` of a `PT_LOAD` stands at its physical
/// address, counted from the lowest one, unless a later segment has a file byte for
/// the same address. Where the image ends before that the byte is zero.
pub proof fn file_bytes_stand_at_their_address(
    segments: Seq<Segment>,
    bytes: Seq<u8>,
    i: int,
    k: int,
)
    requires
        loaded(segments, bytes) is Ok,
        stay_within_span(segments),
        0 <= i < segments.len(),
        segments[i].p_type == 1,
        0 <= k < segments[i].p_filesz,
        forall|j: int|
            #![trigger segments[j]]
            i < j < segments.len() && segments[j].p_type == 1 ==> !(segments[j].p_paddr
                <= segments[i].p_paddr + k < segments[j].p_paddr + segments[j].p_filesz),
    ensures
        ({
            let image = loaded(segments, bytes)->Ok_0;
            let at = segments[i].p_paddr + k - crate::elf::span_of(segments)->Ok_0.min_paddr;
            &&& at >= 0
            &&& segments[i].p_offset + k < bytes.len()
            &&& at < image.len() ==> image[at] == bytes[segments[i].p_offset + k]
            &&& at >= image.len() ==> bytes[segments[i].p_offset + k] == 0
        }),
{
    let span = crate::elf::span_of(segments)->Ok_0;
    let base = span.min_paddr;
    let flat = flat_image(segments, bytes, span);
    let at = segments[i].p_paddr + k - base;
    lemma_places(segments, i);
    crate::elf::lemma_span_order(segments);
    assert(in_file(segments[i], bytes.len() as int));
    assert forall|j: int| i < j < segments.len() implies !covers(
        #[trigger] segments[j],
        base,
        at,
    ) by {
        if is_copied(segments[j]) {
            lemma_places(segments, j);
        }
    }
    segment_bytes_are_in_place(segments, bytes, base, i, at);
    assert(flat[at] == laid_byte(segments, bytes, base, at));
    lemma_content_end(flat);
    trimming_drops_only_zeros(flat);
}

/// An address of the loaded image that no `PT_LOAD` has a file byte for holds zero.
pub proof fn addresses_without_file_bytes_hold_zero(
    segments: Seq<Segment>,
    bytes: Seq<u8>,
    at: int,
)
    requires
        loaded(segments, bytes) is Ok,
        stay_within_span(segments),
        0 <= at < loaded(segments, bytes)->Ok_0.len(),
        forall|j: int|
            #![trigger segments[j]]
            0 <= j < segments.len() && segments[j].p_type == 1 ==> !(segments[j].p_paddr
                <= crate::elf::span_of(segments)->Ok_0.min_paddr + at < segments[j].p_paddr
                + segments[j].p_filesz),
    ensures
        loaded(segments, bytes)->Ok_0[at] == 0,
{
    let span = crate::elf::span_of(segments)->Ok_0;
    let flat = flat_image(segments, bytes, span);
    assert forall|j: int| 0 <= j < segments.len() implies !covers(
        #[trigger] segments[j],
        span.min_paddr,
        at,
    ) by {
        if is_copied(segments[j]) {
            lemma_places(segments, j);
        }
    }
    gaps_are_zero(segments, bytes, span.min_paddr, at);
    trimming_drops_only_zeros(flat);
    assert(flat[at] == laid_byte(segments, bytes, span.min_paddr, at));
}

/// The loaded image ends with the file bytes, or before that at the end of a page of
/// 4 KiB, and the page that it ends in holds a byte that is not zero.
pub proof fn image_ends_with_its_last_page_of_content(segments: Seq<Segment>, bytes: Seq<u8>)
    requires
        loaded(segments, bytes) is Ok,
    ensures
        ({
            let image = loaded(segments, bytes)->Ok_0;
            let span = crate::elf::span_of(segments)->Ok_0;
            let total = span.max_file_end - span.min_paddr;
            &&& image.len() <= total
            &&& image.len() == total || image.len() % 0x1000 == 0
            &&& image.len() > 0 ==> exists|k: int|
                (image.len() - 1) / 0x1000 * 0x1000 <= k < image.len() && #[trigger] image[k] != 0
        }),
{
    let span = crate::elf::span_of(segments)->Ok_0;
    let flat = flat_image(segments, bytes, span);
    let image = loaded(segments, bytes)->Ok_0;
    crate::elf::lemma_span_order(segments);
    lemma_content_end(flat);
    trimming_drops_only_zeros(flat);
    if image.len() > 0 {
        let last = content_end(flat) - 1;
        assert(flat[last] == image[last]);
        assert((image.len() - 1) / 0x1000 * 0x1000 <= last);
    }
}

/// A kernel is loaded exactly where its segments have a span, the file-backed part of
/// it can be addressed, and the file bytes of every `PT_LOAD` lie within the file; the
/// first of these that fails is what it is refused for.
pub proof fn loading_fails_only_for_these(segments: Seq<Segment>, bytes: Seq<u8>)
    requires
        forall|j: int|
            #![trigger segments[j]]
            0 <= j < segments.len() ==> segments[j].p_offset <= usize::MAX && segments[j].p_filesz
                <= usize::MAX,
    ensures
        match crate::elf::span_of(segments) {
            Err(why) => loaded(segments, bytes) == Err::<Seq<u8>, Fault>(why),
            Ok(span) => if span.max_file_end - span.min_paddr > usize::MAX {
                loaded(segments, bytes) == Err::<Seq<u8>, Fault>(
                    Fault::ElfMalformed("loaded image exceeds usize"@),
                )
            } else if forall|j: int|
                #![trigger segments[j]]
                0 <= j < segments.len() && segments[j].p_type == 1 && segments[j].p_filesz > 0
                    ==> segments[j].p_offset + segments[j].p_filesz <= bytes.len() {
                loaded(segments, bytes) is Ok
            } else {
                loaded(segments, bytes) == Err::<Seq<u8>, Fault>(
                    Fault::ElfMalformed("p_offset + p_filesz out of file bounds"@),
                )
            },
        },
{
    let file_len = bytes.len() as int;
    if some_outside(segments, file_len) {
        let w = choose|w: int|
            0 <= w < segments.len() && is_copied(#[trigger] segments[w]) && !in_file(
                segments[w],
                file_len,
            );
        assert(segments[w].p_filesz > 0);
    } else {
        assert forall|j: int| #![trigger segments[j]]
            0 <= j < segments.len() && segments[j].p_type == 1 && segments[j].p_filesz
                > 0 implies segments[j].p_offset + segments[j].p_filesz <= bytes.len() by {
            assert(is_copied(segments[j]));
            assert(in_file(segments[j], file_len));
        }
    }
}

/// Segments that stay within their span can be laid out, as far as the file-backed
/// part of it is no larger than an allocation can be.
pub proof fn segments_within_span_are_loadable(segments: Seq<Segment>, file_len: int)
    requires
        crate::elf::span_of(segments) is Ok ==> {
            let span = crate::elf::span_of(segments)->Ok_0;
            &&& span.max_file_end - span.min_paddr <= isize::MAX
            &&& stay_within_span(segments)
        },
    ensures
        loadable(segments, file_len),
{
    if crate::elf::span_of(segments) is Ok {
        let span = crate::elf::span_of(segments)->Ok_0;
        assert forall|i: int| 0 <= i < segments.len() implies #[trigger] fits(
            segments,
            span.min_paddr,
            image_len(span),
            file_len,
            i,
        ) by {
            if is_copied(segments[i]) {
                lemma_places(segments, i);
            }
        }
    }
}

/// A file is loaded by its own segments, and one that does not parse is refused.
pub proof fn files_are_loaded_by_their_segments(bytes: Seq<u8>)
    ensures
        match crate::elf::elf_contents(bytes) {
            Some(c) => elf_image(bytes) == loaded(c.program.segments, bytes),
            None => elf_image(bytes) == Err::<Seq<u8>, Fault>(
                Fault::ElfMalformed("goblin parse failed"@),
            ),
        },
{
}

} // verus!
