//! The KASLR relocation table appended behind a stripped kernel image.
use vstd::prelude::*;

use crate::bytes::read_le32;
use crate::elf::{elf_span, text_vaddr, ElfSpan, Program, ProgramView, Section, SectionView, Segment};
use crate::error::{Fault, KernelError};
use crate::relocs::{Relocs, RelocsView, SHT_NOBITS};

verus! {

/// Where an end that exceeds the address space is taken to be.
pub open spec fn saturated(x: int) -> int {
    if x > u64::MAX {
        u64::MAX as int
    } else {
        x
    }
}

/// Furthest file offset that any of the segments occupies.
pub open spec fn segments_file_end(segments: Seq<Segment>) -> int
    decreases segments.len(),
{
    if segments.len() == 0 {
        0
    } else {
        let rest = segments_file_end(segments.drop_last());
        let end = saturated(segments.last().p_offset + segments.last().p_filesz);
        if end > rest {
            end
        } else {
            rest
        }
    }
}

/// Furthest file offset that any of the sections with file contents occupies.
pub open spec fn sections_file_end(sections: Seq<SectionView>) -> int
    decreases sections.len(),
{
    if sections.len() == 0 {
        0
    } else {
        let rest = sections_file_end(sections.drop_last());
        let end = saturated(sections.last().sh_offset + sections.last().sh_size);
        if sections.last().sh_type != SHT_NOBITS && end > rest {
            end
        } else {
            rest
        }
    }
}

/// The ELF's file end: the furthest file offset any ELF structure occupies, that
/// is the section-header table, every section with file contents, and every
/// segment.
pub open spec fn elf_file_end(program: ProgramView, sections: Seq<SectionView>) -> int {
    let headers = saturated(program.e_shoff + program.e_shnum * program.e_shentsize);
    let segments = segments_file_end(program.segments);
    let sections = sections_file_end(sections);
    if headers >= segments && headers >= sections {
        headers
    } else if segments >= sections {
        segments
    } else {
        sections
    }
}

/// The 32-bit words between `start` and the end of the file, in file order. They
/// are counted from the end, so up to three bytes at `start` belong to none.
pub open spec fn table_words(bytes: Seq<u8>, start: int) -> Seq<u32> {
    let n = (bytes.len() - start) / 4;
    Seq::new(n as nat, |i: int| crate::bytes::le32(bytes, bytes.len() - 4 * (n - i)) as u32)
}

/// The kernel virtual address of which `word` is the low half: the word is
/// sign-extended.
pub open spec fn sign_extended(word: u32) -> int {
    if word >= 0x8000_0000 {
        word + 0xffff_ffff_0000_0000
    } else {
        word as int
    }
}

/// The image offset that a table word stands for: within the image, and within
/// reach of 32 bits.
pub open spec fn table_site(word: u32, link_base: u64, image_size: int) -> Option<u32> {
    let off = sign_extended(word) - link_base;
    if 0 <= off < image_size && off <= u32::MAX {
        Some(off as u32)
    } else {
        None
    }
}

/// What has been read of a table: the finished lists and the one begun.
#[verifier::ext_equal]
pub struct TableRead {
    pub lists: Seq<Seq<u32>>,
    pub begun: Seq<u32>,
}

/// Reads the words backward, from the last to the first: each zero word finishes
/// a list, every other word adds its site to the list begun.
pub open spec fn read_back(words: Seq<u32>, link_base: u64, image_size: int) -> Result<
    TableRead,
    Fault,
>
    decreases words.len(),
{
    if words.len() == 0 {
        Ok(TableRead { lists: seq![], begun: seq![] })
    } else {
        match read_back(words.drop_first(), link_base, image_size) {
            Err(e) => Err(e),
            Ok(t) => if words.first() == 0 {
                Ok(TableRead { lists: t.lists.push(t.begun), begun: seq![] })
            } else {
                match table_site(words.first(), link_base, image_size) {
                    Some(off) => Ok(TableRead { lists: t.lists, begun: t.begun.push(off) }),
                    None => Err(Fault::ElfMalformed("appended reloc site outside image"@)),
                }
            },
        }
    }
}

/// The tables that the lists, in the order read, stand for: two lists are
/// `relocs32` and `relocs64`, three have `relocs32neg` in between.
pub open spec fn labelled(lists: Seq<Seq<u32>>) -> Result<RelocsView, Fault> {
    if lists.len() == 2 {
        Ok(RelocsView { relocs32: lists[0], relocs32neg: seq![], relocs64: lists[1] })
    } else if lists.len() == 3 {
        Ok(RelocsView { relocs32: lists[0], relocs32neg: lists[1], relocs64: lists[2] })
    } else {
        Err(Fault::ElfMalformed("unexpected appended reloc list count"@))
    }
}

/// The relocation tables that a run of table words stands for.
pub open spec fn table_relocs(words: Seq<u32>, link_base: u64, image_size: int) -> Result<
    RelocsView,
    Fault,
> {
    match read_back(words, link_base, image_size) {
        Err(e) => Err(e),
        Ok(t) => labelled(t.lists),
    }
}

/// The relocation tables appended behind the ELF's file end, none where nothing
/// is.
pub open spec fn appended_relocs(
    program: ProgramView,
    sections: Seq<SectionView>,
    bytes: Seq<u8>,
) -> Result<RelocsView, Fault> {
    match crate::elf::span_of(program.segments) {
        Err(e) => Err(e),
        Ok(span) => match crate::elf::link_base(program.segments, span.min_paddr) {
            None => Err(Fault::ElfMalformed("no PT_LOAD at min_paddr"@)),
            Some(base) => {
                let start = elf_file_end(program, sections);
                if start >= bytes.len() {
                    Ok(RelocsView::none())
                } else {
                    table_relocs(
                        table_words(bytes, start),
                        base,
                        span.max_mem_end - span.min_paddr,
                    )
                }
            },
        },
    }
}

/// The larger of two offsets.
fn further(a: u64, b: u64) -> (r: u64)
    ensures
        r == if a >= b {
            a
        } else {
            b
        },
{
    if a >= b {
        a
    } else {
        b
    }
}

/// Finds the ELF's file end.
pub fn file_end(program: &Program, sections: &[Section]) -> (r: u64)
    ensures
        r == elf_file_end(program@, crate::elf::sections_view(sections@)),
{
    let ghost views = crate::elf::sections_view(sections@);
    assert(program.e_shnum * program.e_shentsize <= 0xffff * 0xffff) by (nonlinear_arith)
        requires
            program.e_shnum <= 0xffff,
            program.e_shentsize <= 0xffff,
    ;
    assert(0 <= program.e_shnum * program.e_shentsize) by (nonlinear_arith);
    let headers: u64 = program.e_shoff.saturating_add(
        (program.e_shnum as u64) * (program.e_shentsize as u64),
    );
    let mut in_segments: u64 = 0;
    let mut i: usize = 0;
    while i < program.segments.len()
        invariant
            i <= program.segments@.len(),
            in_segments == segments_file_end(program.segments@.take(i as int)),
        decreases program.segments@.len() - i,
    {
        let p: Segment = program.segments[i];
        proof {
            assert(program.segments@.take(i + 1).drop_last() =~= program.segments@.take(i as int));
            assert(program.segments@.take(i + 1).last() == p);
        }
        in_segments = further(p.p_offset.saturating_add(p.p_filesz), in_segments);
        i = i + 1;
    }
    assert(program.segments@.take(program.segments@.len() as int) =~= program.segments@);
    let mut in_sections: u64 = 0;
    let mut k: usize = 0;
    while k < sections.len()
        invariant
            k <= sections@.len(),
            views == crate::elf::sections_view(sections@),
            in_sections == sections_file_end(views.take(k as int)),
        decreases sections@.len() - k,
    {
        let s: &Section = &sections[k];
        proof {
            assert(views[k as int] == s@);
            assert(views.take(k + 1).drop_last() =~= views.take(k as int));
            assert(views.take(k + 1).last() == s@);
        }
        if s.sh_type != SHT_NOBITS {
            in_sections = further(s.sh_offset.saturating_add(s.sh_size), in_sections);
        }
        k = k + 1;
    }
    assert(views.take(views.len() as int) =~= views);
    further(headers, further(in_segments, in_sections))
}

/// What each of the lists holds.
spec fn lists_view(lists: Seq<Vec<u32>>) -> Seq<Seq<u32>> {
    lists.map_values(|l: Vec<u32>| l@)
}

/// The image offset that a table word stands for.
fn word_site(word: u32, link_base: u64, image_size: u64) -> (r: Option<u32>)
    ensures
        r == table_site(word, link_base, image_size as int),
{
    let va: u64 = if word >= 0x8000_0000 {
        word as u64 + 0xffff_ffff_0000_0000
    } else {
        word as u64
    };
    if va >= link_base && va - link_base < image_size && va - link_base <= u32::MAX as u64 {
        Some((va - link_base) as u32)
    } else {
        None
    }
}

/// A fault while reading the last words is the fault of the whole table.
proof fn lemma_read_fault(words: Seq<u32>, n: int, link_base: u64, image_size: int)
    requires
        0 <= n <= words.len(),
        read_back(words.skip(n), link_base, image_size) is Err,
    ensures
        read_back(words, link_base, image_size) == read_back(
            words.skip(n),
            link_base,
            image_size,
        ),
    decreases n,
{
    if n == 0 {
        assert(words.skip(0) =~= words);
    } else {
        assert(words.drop_first().skip(n - 1) =~= words.skip(n));
        lemma_read_fault(words.drop_first(), n - 1, link_base, image_size);
    }
}

/// Reads the 32-bit words between `start` and the payload's end backward,
/// splitting into lists at each zero terminator, and labels the lists.
pub fn read_table(bytes: &[u8], start: usize, link_base: u64, image_size: u64) -> (r: Result<
    Relocs,
    KernelError,
>)
    requires
        start <= bytes@.len(),
    ensures
        match r {
            Ok(out) => table_relocs(
                table_words(bytes@, start as int),
                link_base,
                image_size as int,
            ) == Ok::<RelocsView, Fault>(out@),
            Err(e) => table_relocs(
                table_words(bytes@, start as int),
                link_base,
                image_size as int,
            ) == Err::<RelocsView, Fault>(e@),
        },
{
    let ghost words = table_words(bytes@, start as int);
    let ghost n = words.len() as int;
    let mut lists: Vec<Vec<u32>> = Vec::new();
    let mut cur: Vec<u32> = Vec::new();
    let mut pos: usize = bytes.len();
    let ghost mut read: int = 0;
    proof {
        assert(words.skip(n) =~= seq![]);
        assert(lists_view(lists@) =~= seq![]);
    }
    while pos - start >= 4
        invariant
            start <= pos <= bytes@.len(),
            words == table_words(bytes@, start as int),
            n == words.len(),
            0 <= read <= n,
            pos == bytes@.len() - 4 * read,
            read_back(words.skip(n - read), link_base, image_size as int) == Ok::<
                TableRead,
                Fault,
            >(TableRead { lists: lists_view(lists@), begun: cur@ }),
        decreases pos,
    {
        let v: u32 = read_le32(bytes, pos - 4);
        pos = pos - 4;
        let ghost at = n - read - 1;
        proof {
            assert(words[at] == v);
            assert(words.skip(at).drop_first() =~= words.skip(at + 1));
            assert(words.skip(at).first() == v);
            read = read + 1;
        }
        if v == 0 {
            let ghost before = lists_view(lists@);
            let done: Vec<u32> = cur;
            let ghost done_view = done@;
            cur = Vec::new();
            lists.push(done);
            proof {
                assert(lists_view(lists@) =~= before.push(done_view));
                assert(cur@ =~= seq![]);
            }
        } else {
            match word_site(v, link_base, image_size) {
                Some(off) => {
                    cur.push(off);
                },
                None => {
                    proof {
                        lemma_read_fault(words, at, link_base, image_size as int);
                    }
                    return Err(KernelError::ElfMalformed("appended reloc site outside image"));
                },
            }
        }
    }
    proof {
        assert(read == n);
        assert(words.skip(0) =~= words);
    }
    let ghost view = lists_view(lists@);
    let count: usize = lists.len();
    if count == 2 {
        let relocs64: Vec<u32> = lists.pop().unwrap();
        let relocs32: Vec<u32> = lists.pop().unwrap();
        let out: Relocs = Relocs { relocs32, relocs32neg: Vec::new(), relocs64 };
        proof {
            assert(out@ =~= labelled(view)->Ok_0);
        }
        Ok(out)
    } else if count == 3 {
        let relocs64: Vec<u32> = lists.pop().unwrap();
        let relocs32neg: Vec<u32> = lists.pop().unwrap();
        let relocs32: Vec<u32> = lists.pop().unwrap();
        let out: Relocs = Relocs { relocs32, relocs32neg, relocs64 };
        proof {
            assert(out@ =~= labelled(view)->Ok_0);
        }
        Ok(out)
    } else {
        Err(KernelError::ElfMalformed("unexpected appended reloc list count"))
    }
}

/// Extract KASLR relocations from a `vmlinux.relocs` table appended after the
/// kernel image.
///
/// Each entry is the low 32 bits of a sign-extended kernel VA, stored here as
/// the image offset `VA - text_vaddr`. The lists stand low to high as
/// `[0][relocs64][0][relocs32]`, or, from older kernels, as
/// `[0][relocs64][0][relocs32neg][0][relocs32]`. The two layouts are
/// indistinguishable by content, so they are told apart structurally: the table
/// starts at the ELF's exact file end, and reading the zero-terminated lists
/// from the payload end down to that boundary yields the list count.
///
/// Gives empty relocs when there is no appended table. An out-of-range entry or
/// an unexpected list count means the boundary or the table is wrong, which is
/// an error.
pub fn extract_appended_relocs(program: &Program, sections: &[Section], bytes: &[u8]) -> (r: Result<
    Relocs,
    KernelError,
>)
    ensures
        match r {
            Ok(out) => appended_relocs(
                program@,
                crate::elf::sections_view(sections@),
                bytes@,
            ) == Ok::<RelocsView, Fault>(out@),
            Err(e) => appended_relocs(
                program@,
                crate::elf::sections_view(sections@),
                bytes@,
            ) == Err::<RelocsView, Fault>(e@),
        },
{
    let span: ElfSpan = match elf_span(program.segments.as_slice()) {
        Ok(span) => span,
        Err(e) => return Err(e),
    };
    let link_base: u64 = match text_vaddr(program.segments.as_slice(), span.min_paddr) {
        Some(base) => base,
        None => return Err(KernelError::ElfMalformed("no PT_LOAD at min_paddr")),
    };
    proof {
        crate::elf::lemma_span_order(program.segments@);
    }
    let image_size: u64 = span.max_mem_end - span.min_paddr;
    let table_start: u64 = file_end(program, sections);
    if table_start >= bytes.len() as u64 {
        return Ok(Relocs::default());
    }
    read_table(bytes, table_start as usize, link_base, image_size)
}

/// Whether every word is an entry: not a terminator, and a site in the image.
pub open spec fn all_entries(words: Seq<u32>, link_base: u64, image_size: int) -> bool {
    forall|i: int|
        0 <= i < words.len() ==> #[trigger] words[i] != 0 && table_site(
            words[i],
            link_base,
            image_size,
        ) is Some
}

/// The image offsets that the entries stand for.
pub open spec fn entry_offsets(words: Seq<u32>, link_base: u64, image_size: int) -> Seq<u32> {
    words.map_values(|w: u32| table_site(w, link_base, image_size)->0)
}

/// Entries in front of what has been read add their offsets, last entry first,
/// to the list begun.
proof fn lemma_read_entries(entries: Seq<u32>, rest: Seq<u32>, link_base: u64, image_size: int)
    requires
        all_entries(entries, link_base, image_size),
        read_back(rest, link_base, image_size) is Ok,
    ensures
        ({
            let t = read_back(rest, link_base, image_size)->Ok_0;
            read_back(entries + rest, link_base, image_size) == Ok::<TableRead, Fault>(
                TableRead {
                    lists: t.lists,
                    begun: t.begun + entry_offsets(entries, link_base, image_size).reverse(),
                },
            )
        }),
    decreases entries.len(),
{
    let t = read_back(rest, link_base, image_size)->Ok_0;
    let offs = entry_offsets(entries, link_base, image_size);
    if entries.len() == 0 {
        assert(entries + rest =~= rest);
        assert(t.begun + offs.reverse() =~= t.begun);
    } else {
        let tail = entries.drop_first();
        assert forall|i: int| 0 <= i < tail.len() implies #[trigger] tail[i] != 0 && table_site(
            tail[i],
            link_base,
            image_size,
        ) is Some by {
            assert(tail[i] == entries[i + 1]);
        }
        lemma_read_entries(tail, rest, link_base, image_size);
        assert((entries + rest).drop_first() =~= tail + rest);
        assert((entries + rest).first() == entries[0]);
        assert((t.begun + entry_offsets(tail, link_base, image_size).reverse()).push(offs[0])
            =~= t.begun + offs.reverse());
    }
}

/// A zero word in front of what has been read finishes the list begun.
proof fn lemma_read_terminator(rest: Seq<u32>, link_base: u64, image_size: int)
    requires
        read_back(rest, link_base, image_size) is Ok,
    ensures
        ({
            let t = read_back(rest, link_base, image_size)->Ok_0;
            read_back(seq![0u32] + rest, link_base, image_size) == Ok::<TableRead, Fault>(
                TableRead { lists: t.lists.push(t.begun), begun: seq![] },
            )
        }),
{
    assert((seq![0u32] + rest).drop_first() =~= rest);
}

/// The words of a table with two lists: `[0][list64][0][list32]`.
pub open spec fn two_lists(list64: Seq<u32>, list32: Seq<u32>) -> Seq<u32> {
    seq![0u32] + (list64 + (seq![0u32] + list32))
}

/// The words of a table with three lists: `[0][list64][0][list32neg][0][list32]`.
pub open spec fn three_lists(list64: Seq<u32>, list32neg: Seq<u32>, list32: Seq<u32>) -> Seq<u32> {
    seq![0u32] + (list64 + two_lists(list32neg, list32))
}

/// A table of two lists is read back as the two it was made of, each from its
/// end: the 64-bit list is never mistaken for the inverse 32-bit one.
pub proof fn two_lists_read_back(
    list64: Seq<u32>,
    list32: Seq<u32>,
    link_base: u64,
    image_size: int,
)
    requires
        all_entries(list64, link_base, image_size),
        all_entries(list32, link_base, image_size),
    ensures
        table_relocs(two_lists(list64, list32), link_base, image_size) == Ok::<RelocsView, Fault>(
            RelocsView {
                relocs32: entry_offsets(list32, link_base, image_size).reverse(),
                relocs32neg: seq![],
                relocs64: entry_offsets(list64, link_base, image_size).reverse(),
            },
        ),
{
    lemma_read_lists(list64, list32, link_base, image_size);
}

/// What reading a table of two lists gives.
proof fn lemma_read_lists(list64: Seq<u32>, list32: Seq<u32>, link_base: u64, image_size: int)
    requires
        all_entries(list64, link_base, image_size),
        all_entries(list32, link_base, image_size),
    ensures
        read_back(two_lists(list64, list32), link_base, image_size) == Ok::<TableRead, Fault>(
            TableRead {
                lists: seq![
                    entry_offsets(list32, link_base, image_size).reverse(),
                    entry_offsets(list64, link_base, image_size).reverse(),
                ],
                begun: seq![],
            },
        ),
{
    let empty = Seq::<u32>::empty();
    let offs32 = entry_offsets(list32, link_base, image_size).reverse();
    let offs64 = entry_offsets(list64, link_base, image_size).reverse();
    lemma_read_entries(list32, empty, link_base, image_size);
    assert(list32 + empty =~= list32);
    assert(empty + offs32 =~= offs32);
    lemma_read_terminator(list32, link_base, image_size);
    lemma_read_entries(list64, seq![0u32] + list32, link_base, image_size);
    assert(empty + offs64 =~= offs64);
    lemma_read_terminator(list64 + (seq![0u32] + list32), link_base, image_size);
    assert(seq![offs32].push(offs64) =~= seq![offs32, offs64]);
    assert(Seq::<Seq<u32>>::empty().push(offs32) =~= seq![offs32]);
}

/// A table of three lists is read back as the three it was made of, each from
/// its end.
pub proof fn three_lists_read_back(
    list64: Seq<u32>,
    list32neg: Seq<u32>,
    list32: Seq<u32>,
    link_base: u64,
    image_size: int,
)
    requires
        all_entries(list64, link_base, image_size),
        all_entries(list32neg, link_base, image_size),
        all_entries(list32, link_base, image_size),
    ensures
        table_relocs(three_lists(list64, list32neg, list32), link_base, image_size) == Ok::<
            RelocsView,
            Fault,
        >(
            RelocsView {
                relocs32: entry_offsets(list32, link_base, image_size).reverse(),
                relocs32neg: entry_offsets(list32neg, link_base, image_size).reverse(),
                relocs64: entry_offsets(list64, link_base, image_size).reverse(),
            },
        ),
{
    let empty = Seq::<u32>::empty();
    let offs64 = entry_offsets(list64, link_base, image_size).reverse();
    lemma_read_lists(list32neg, list32, link_base, image_size);
    lemma_read_entries(list64, two_lists(list32neg, list32), link_base, image_size);
    assert(empty + offs64 =~= offs64);
    lemma_read_terminator(list64 + two_lists(list32neg, list32), link_base, image_size);
}

/// Words appended to a file as little-endian bytes are the words found behind
/// it.
pub proof fn appended_words_are_found(file: Seq<u8>, words: Seq<u32>)
    ensures
        table_words(file + crate::relocs::le32_all(words), file.len() as int) == words,
{
    crate::relocs::lemma_le32_all(words);
    let b = file + crate::relocs::le32_all(words);
    let n = words.len() as int;
    assert forall|i: int| 0 <= i < n implies table_words(b, file.len() as int)[i]
        == words[i] by {
        let at = b.len() - 4 * (n - i);
        let table = crate::relocs::le32_all(words);
        assert(b[at] == table[4 * i]);
        assert(b[at + 1] == table[4 * i + 1]);
        assert(b[at + 2] == table[4 * i + 2]);
        assert(b[at + 3] == table[4 * i + 3]);
        assert(crate::bytes::le32(table, 4 * i) == words[i]);
    }
    assert(table_words(b, file.len() as int) =~= words);
}

/// Every offset read from an appended table lies within the image.
pub proof fn appended_offsets_lie_in_image(words: Seq<u32>, link_base: u64, image_size: int)
    requires
        table_relocs(words, link_base, image_size) is Ok,
    ensures
        ({
            let r = table_relocs(words, link_base, image_size)->Ok_0;
            &&& forall|i: int| 0 <= i < r.relocs32.len() ==> #[trigger] r.relocs32[i] < image_size
            &&& forall|i: int|
                0 <= i < r.relocs32neg.len() ==> #[trigger] r.relocs32neg[i] < image_size
            &&& forall|i: int| 0 <= i < r.relocs64.len() ==> #[trigger] r.relocs64[i] < image_size
        }),
{
    lemma_read_in_image(words, link_base, image_size);
}

/// Whether every offset is below the limit.
spec fn all_below(offs: Seq<u32>, limit: int) -> bool {
    forall|i: int| 0 <= i < offs.len() ==> #[trigger] offs[i] < limit
}

/// Every offset that has been read lies within the image.
proof fn lemma_read_in_image(words: Seq<u32>, link_base: u64, image_size: int)
    requires
        read_back(words, link_base, image_size) is Ok,
    ensures
        ({
            let t = read_back(words, link_base, image_size)->Ok_0;
            &&& all_below(t.begun, image_size)
            &&& forall|k: int|
                0 <= k < t.lists.len() ==> all_below(#[trigger] t.lists[k], image_size)
        }),
    decreases words.len(),
{
    if words.len() > 0 {
        lemma_read_in_image(words.drop_first(), link_base, image_size);
    }
}

/// The link base and the size of the image that the segments make.
pub open spec fn image_frame(program: ProgramView) -> (u64, int) {
    let span = crate::elf::span_of(program.segments)->Ok_0;
    (
        crate::elf::link_base(program.segments, span.min_paddr)->0,
        span.max_mem_end - span.min_paddr,
    )
}

/// A kernel image with a table of two lists appended to it has exactly the
/// relocations of the table.
pub proof fn appended_table_is_extracted(
    program: ProgramView,
    sections: Seq<SectionView>,
    image: Seq<u8>,
    list64: Seq<u32>,
    list32: Seq<u32>,
)
    requires
        crate::elf::span_of(program.segments) is Ok,
        elf_file_end(program, sections) == image.len(),
        all_entries(list64, image_frame(program).0, image_frame(program).1),
        all_entries(list32, image_frame(program).0, image_frame(program).1),
    ensures
        ({
            let (base, size) = image_frame(program);
            let file = image + crate::relocs::le32_all(two_lists(list64, list32));
            appended_relocs(program, sections, file) == Ok::<RelocsView, Fault>(
                RelocsView {
                    relocs32: entry_offsets(list32, base, size).reverse(),
                    relocs32neg: seq![],
                    relocs64: entry_offsets(list64, base, size).reverse(),
                },
            )
        }),
{
    let (base, size) = image_frame(program);
    lemma_table_extracted(program, sections, image, two_lists(list64, list32));
    two_lists_read_back(list64, list32, base, size);
}

/// A kernel image with a table of three lists appended to it has exactly the
/// relocations of the table.
pub proof fn appended_inverse_table_is_extracted(
    program: ProgramView,
    sections: Seq<SectionView>,
    image: Seq<u8>,
    list64: Seq<u32>,
    list32neg: Seq<u32>,
    list32: Seq<u32>,
)
    requires
        crate::elf::span_of(program.segments) is Ok,
        elf_file_end(program, sections) == image.len(),
        all_entries(list64, image_frame(program).0, image_frame(program).1),
        all_entries(list32neg, image_frame(program).0, image_frame(program).1),
        all_entries(list32, image_frame(program).0, image_frame(program).1),
    ensures
        ({
            let (base, size) = image_frame(program);
            let file = image + crate::relocs::le32_all(three_lists(list64, list32neg, list32));
            appended_relocs(program, sections, file) == Ok::<RelocsView, Fault>(
                RelocsView {
                    relocs32: entry_offsets(list32, base, size).reverse(),
                    relocs32neg: entry_offsets(list32neg, base, size).reverse(),
                    relocs64: entry_offsets(list64, base, size).reverse(),
                },
            )
        }),
{
    let (base, size) = image_frame(program);
    lemma_table_extracted(program, sections, image, three_lists(list64, list32neg, list32));
    three_lists_read_back(list64, list32neg, list32, base, size);
}

/// Words appended to the image are read as the table.
proof fn lemma_table_extracted(
    program: ProgramView,
    sections: Seq<SectionView>,
    image: Seq<u8>,
    words: Seq<u32>,
)
    requires
        crate::elf::span_of(program.segments) is Ok,
        elf_file_end(program, sections) == image.len(),
        words.len() > 0,
    ensures
        appended_relocs(program, sections, image + crate::relocs::le32_all(words)) == table_relocs(
            words,
            image_frame(program).0,
            image_frame(program).1,
        ),
{
    crate::elf::span_has_link_base(program.segments);
    appended_words_are_found(image, words);
    crate::relocs::lemma_le32_all(words);
}

/// The number whose low 32 bits are the word, and whose other bits repeat the highest
/// of them: as much above `2^64 - 2^32` as the word is above 0 where that bit is set.
pub open spec fn is_address_of(va: int, word: u32) -> bool {
    &&& 0 <= va <= 0xffff_ffff_ffff_ffff
    &&& va % 0x1_0000_0000 == word
    &&& va / 0x1_0000_0000 == if word >= 0x8000_0000 {
        0xffff_ffffint
    } else {
        0
    }
}

/// A table word stands for the distance of its address from the link base: exactly
/// where the address lies in the image, and no further than 32 bits reach, and then the
/// link base and the offset add up to it.
pub proof fn table_words_are_distances_from_link_base(
    word: u32,
    va: int,
    link_base: u64,
    image_size: int,
)
    requires
        is_address_of(va, word),
    ensures
        match table_site(word, link_base, image_size) {
            Some(off) => link_base + off == va && off < image_size,
            None => !(link_base <= va < link_base + image_size && va <= link_base + 0xffff_ffff),
        },
{
}

/// The words of a table are the little-endian words that end with the file, as many as
/// fit behind `start`.
pub proof fn table_words_end_with_the_file(bytes: Seq<u8>, start: int, i: int)
    requires
        0 <= start <= bytes.len(),
        0 <= i < (bytes.len() - start) / 4,
    ensures
        ({
            let words = table_words(bytes, start);
            let n = words.len() as int;
            let at = bytes.len() - 4 * (n - i);
            &&& 4 * n <= bytes.len() - start < 4 * n + 4
            &&& start <= at
            &&& bytes[at] as int == words[i] as int % 0x100
            &&& bytes[at + 1] as int == words[i] as int / 0x100 % 0x100
            &&& bytes[at + 2] as int == words[i] as int / 0x1_0000 % 0x100
            &&& bytes[at + 3] as int == words[i] as int / 0x100_0000 % 0x100
        }),
{
    let words = table_words(bytes, start);
    let n = words.len() as int;
    let at = bytes.len() - 4 * (n - i);
    let a = bytes[at] as int;
    let b = bytes[at + 1] as int;
    let c = bytes[at + 2] as int;
    let d = bytes[at + 3] as int;
    assert(words[i] as int == a + 0x100 * b + 0x1_0000 * c + 0x100_0000 * d);
}

/// A file with fewer than four bytes behind `start` has no table words.
pub proof fn short_tables_have_no_words(bytes: Seq<u8>, start: int)
    requires
        start <= bytes.len() < start + 4,
    ensures
        table_words(bytes, start).len() == 0,
{
}

/// Whether every word is an entry for an address of the image.
pub open spec fn lie_in_image(words: Seq<u32>, link_base: u64, image_size: int) -> bool {
    forall|i: int|
        0 <= i < words.len() ==> #[trigger] words[i] != 0 && exists|va: int| #[trigger]
            is_address_of(va, words[i]) && link_base <= va < link_base + image_size && va
                <= link_base + 0xffff_ffff
}

/// Whether the offsets are those of the words, from the last word to the first.
pub open spec fn are_offsets_of(offs: Seq<u32>, words: Seq<u32>, link_base: u64) -> bool {
    &&& offs.len() == words.len()
    &&& forall|i: int|
        0 <= i < words.len() ==> is_address_of(
            link_base + offs[words.len() - 1 - i],
            #[trigger] words[i],
        )
}

/// Words that lie in the image are entries, and their offsets are read from the last.
proof fn lemma_entries(words: Seq<u32>, link_base: u64, image_size: int)
    requires
        lie_in_image(words, link_base, image_size),
    ensures
        all_entries(words, link_base, image_size),
        are_offsets_of(
            entry_offsets(words, link_base, image_size).reverse(),
            words,
            link_base,
        ),
{
    let offs = entry_offsets(words, link_base, image_size);
    assert forall|i: int| 0 <= i < words.len() implies #[trigger] words[i] != 0 && table_site(
        words[i],
        link_base,
        image_size,
    ) is Some && is_address_of(link_base + offs.reverse()[words.len() - 1 - i], words[i]) by {
        let va = choose|va: int| #[trigger]
            is_address_of(va, words[i]) && link_base <= va < link_base + image_size && va
                <= link_base + 0xffff_ffff;
        table_words_are_distances_from_link_base(words[i], va, link_base, image_size);
        assert(offs.reverse()[words.len() - 1 - i] == offs[i]);
    }
}

/// A table with two terminators is the 64-bit list and then the 32-bit list, each read
/// from its end, whatever entries stand in front of the first terminator.
pub proof fn two_terminators_make_two_tables(
    front: Seq<u32>,
    list64: Seq<u32>,
    list32: Seq<u32>,
    link_base: u64,
    image_size: int,
)
    requires
        lie_in_image(front, link_base, image_size),
        lie_in_image(list64, link_base, image_size),
        lie_in_image(list32, link_base, image_size),
    ensures
        ({
            let words = front + seq![0u32] + list64 + seq![0u32] + list32;
            let r = table_relocs(words, link_base, image_size);
            &&& r is Ok
            &&& are_offsets_of(r->Ok_0.relocs64, list64, link_base)
            &&& are_offsets_of(r->Ok_0.relocs32, list32, link_base)
            &&& r->Ok_0.relocs32neg.len() == 0
        }),
{
    lemma_entries(front, link_base, image_size);
    lemma_entries(list64, link_base, image_size);
    lemma_entries(list32, link_base, image_size);
    lemma_read_lists(list64, list32, link_base, image_size);
    lemma_read_entries(front, two_lists(list64, list32), link_base, image_size);
    assert(front + seq![0u32] + list64 + seq![0u32] + list32 =~= front + two_lists(
        list64,
        list32,
    ));
}

/// A table with three terminators is the 64-bit list, the inverse list and the 32-bit
/// list, each read from its end, whatever entries stand in front of the first
/// terminator.
pub proof fn three_terminators_make_three_tables(
    front: Seq<u32>,
    list64: Seq<u32>,
    list32neg: Seq<u32>,
    list32: Seq<u32>,
    link_base: u64,
    image_size: int,
)
    requires
        lie_in_image(front, link_base, image_size),
        lie_in_image(list64, link_base, image_size),
        lie_in_image(list32neg, link_base, image_size),
        lie_in_image(list32, link_base, image_size),
    ensures
        ({
            let words = front + seq![0u32] + list64 + seq![0u32] + list32neg + seq![0u32] + list32;
            let r = table_relocs(words, link_base, image_size);
            &&& r is Ok
            &&& are_offsets_of(r->Ok_0.relocs64, list64, link_base)
            &&& are_offsets_of(r->Ok_0.relocs32neg, list32neg, link_base)
            &&& are_offsets_of(r->Ok_0.relocs32, list32, link_base)
        }),
{
    let empty = Seq::<u32>::empty();
    let offs64 = entry_offsets(list64, link_base, image_size).reverse();
    lemma_entries(front, link_base, image_size);
    lemma_entries(list64, link_base, image_size);
    lemma_entries(list32neg, link_base, image_size);
    lemma_entries(list32, link_base, image_size);
    lemma_read_lists(list32neg, list32, link_base, image_size);
    lemma_read_entries(list64, two_lists(list32neg, list32), link_base, image_size);
    assert(empty + offs64 =~= offs64);
    lemma_read_terminator(list64 + two_lists(list32neg, list32), link_base, image_size);
    lemma_read_entries(front, three_lists(list64, list32neg, list32), link_base, image_size);
    assert(front + seq![0u32] + list64 + seq![0u32] + list32neg + seq![0u32] + list32 =~= front
        + three_lists(list64, list32neg, list32));
}

/// A table that holds, besides its terminators, a word for an address outside the image
/// is refused for that, wherever the word stands.
pub proof fn stray_words_are_refused(
    words: Seq<u32>,
    i: int,
    va: int,
    link_base: u64,
    image_size: int,
)
    requires
        0 <= i < words.len(),
        words[i] != 0,
        is_address_of(va, words[i]),
        !(link_base <= va < link_base + image_size && va <= link_base + 0xffff_ffff),
    ensures
        table_relocs(words, link_base, image_size) == Err::<RelocsView, Fault>(
            Fault::ElfMalformed("appended reloc site outside image"@),
        ),
    decreases words.len(),
{
    if i > 0 {
        assert(words.drop_first()[i - 1] == words[i]);
        stray_words_are_refused(words.drop_first(), i - 1, va, link_base, image_size);
    }
    lemma_read_fails_one_way(words, link_base, image_size);
    table_words_are_distances_from_link_base(words[i], va, link_base, image_size);
    if read_back(words, link_base, image_size) is Ok {
        lemma_read_needs_entries(words, i, link_base, image_size);
    }
}

/// Reading fails for one reason only.
proof fn lemma_read_fails_one_way(words: Seq<u32>, link_base: u64, image_size: int)
    ensures
        read_back(words, link_base, image_size) is Err ==> read_back(words, link_base, image_size)
            == Err::<TableRead, Fault>(Fault::ElfMalformed("appended reloc site outside image"@)),
    decreases words.len(),
{
    if words.len() > 0 {
        lemma_read_fails_one_way(words.drop_first(), link_base, image_size);
    }
}

/// Where reading succeeds every word is a terminator or an entry.
proof fn lemma_read_needs_entries(words: Seq<u32>, i: int, link_base: u64, image_size: int)
    requires
        0 <= i < words.len(),
        read_back(words, link_base, image_size) is Ok,
    ensures
        words[i] == 0 || table_site(words[i], link_base, image_size) is Some,
    decreases words.len(),
{
    if i > 0 {
        assert(words.drop_first()[i - 1] == words[i]);
        lemma_read_needs_entries(words.drop_first(), i - 1, link_base, image_size);
    }
}

/// The number of terminators among the words.
pub open spec fn terminators(words: Seq<u32>) -> int
    decreases words.len(),
{
    if words.len() == 0 {
        0
    } else {
        terminators(words.drop_first()) + if words[0] == 0 {
            1int
        } else {
            0
        }
    }
}

/// A table whose words are all terminators or lie in the image is accepted exactly where
/// it has two terminators or three, and is else refused for their number.
pub proof fn tables_have_two_or_three_terminators(
    words: Seq<u32>,
    link_base: u64,
    image_size: int,
)
    requires
        forall|i: int|
            0 <= i < words.len() && #[trigger] words[i] != 0 ==> exists|va: int| #[trigger]
                is_address_of(va, words[i]) && link_base <= va < link_base + image_size && va
                    <= link_base + 0xffff_ffff,
    ensures
        if terminators(words) == 2 || terminators(words) == 3 {
            table_relocs(words, link_base, image_size) is Ok
        } else {
            table_relocs(words, link_base, image_size) == Err::<RelocsView, Fault>(
                Fault::ElfMalformed("unexpected appended reloc list count"@),
            )
        },
{
    lemma_read_counts(words, link_base, image_size);
}

/// Reading words that lie in the image finishes a list at each terminator.
proof fn lemma_read_counts(words: Seq<u32>, link_base: u64, image_size: int)
    requires
        forall|i: int|
            0 <= i < words.len() && #[trigger] words[i] != 0 ==> exists|va: int| #[trigger]
                is_address_of(va, words[i]) && link_base <= va < link_base + image_size && va
                    <= link_base + 0xffff_ffff,
    ensures
        read_back(words, link_base, image_size) is Ok,
        read_back(words, link_base, image_size)->Ok_0.lists.len() == terminators(words),
    decreases words.len(),
{
    if words.len() > 0 {
        let rest = words.drop_first();
        assert forall|i: int| 0 <= i < rest.len() && #[trigger] rest[i] != 0 implies exists|va: int|
         #[trigger]
            is_address_of(va, rest[i]) && link_base <= va < link_base + image_size && va <= link_base
                + 0xffff_ffff by {
            assert(rest[i] == words[i + 1]);
        }
        lemma_read_counts(rest, link_base, image_size);
        if words[0] != 0 {
            let va = choose|va: int| #[trigger]
                is_address_of(va, words[0]) && link_base <= va < link_base + image_size && va
                    <= link_base + 0xffff_ffff;
            table_words_are_distances_from_link_base(words[0], va, link_base, image_size);
        }
    }
}

/// The file end lies behind the section headers, the file bytes of every segment and
/// those of every section but the ones without any, and is the end of one of them; an
/// end beyond 64 bits is taken to be the last offset.
pub proof fn file_end_is_the_furthest_end(program: ProgramView, sections: Seq<SectionView>)
    ensures
        ({
            let end = elf_file_end(program, sections);
            let headers = program.e_shoff + program.e_shnum * program.e_shentsize;
            let top = 0xffff_ffff_ffff_ffffint;
            let segments = program.segments;
            &&& end <= top
            &&& headers <= end || end == top
            &&& forall|i: int|
                #![trigger segments[i]]
                0 <= i < segments.len() ==> segments[i].p_offset + segments[i].p_filesz <= end
                    || end == top
            &&& forall|i: int|
                #![trigger sections[i]]
                0 <= i < sections.len() && sections[i].sh_type != 8 ==> sections[i].sh_offset
                    + sections[i].sh_size <= end || end == top
            &&& {
                ||| end == headers || (end == top && headers > top)
                ||| exists|i: int|
                    #![trigger segments[i]]
                    0 <= i < segments.len() && (end == segments[i].p_offset + segments[i].p_filesz
                        || (end == top && segments[i].p_offset + segments[i].p_filesz > top))
                ||| exists|i: int|
                    #![trigger sections[i]]
                    0 <= i < sections.len() && sections[i].sh_type != 8 && (end
                        == sections[i].sh_offset + sections[i].sh_size || (end == top
                        && sections[i].sh_offset + sections[i].sh_size > top))
            }
        }),
{
    lemma_segments_end(program.segments);
    lemma_sections_end(sections);
    assert(0 <= program.e_shnum * program.e_shentsize) by (nonlinear_arith);
}

/// The furthest segment end is that of one, and none is further.
proof fn lemma_segments_end(segments: Seq<Segment>)
    ensures
        0 <= segments_file_end(segments) <= u64::MAX,
        forall|i: int|
            #![trigger segments[i]]
            0 <= i < segments.len() ==> saturated(segments[i].p_offset + segments[i].p_filesz)
                <= segments_file_end(segments),
        segments_file_end(segments) == 0 || exists|i: int|
            #![trigger segments[i]]
            0 <= i < segments.len() && saturated(segments[i].p_offset + segments[i].p_filesz)
                == segments_file_end(segments),
    decreases segments.len(),
{
    if segments.len() > 0 {
        let rest = segments.drop_last();
        lemma_segments_end(rest);
        assert forall|i: int| #![trigger segments[i]] 0 <= i < segments.len() implies saturated(
            segments[i].p_offset + segments[i].p_filesz,
        ) <= segments_file_end(segments) by {
            if i < rest.len() {
                assert(rest[i] == segments[i]);
            }
        }
        assert(segments[segments.len() - 1] == segments.last());
        if segments_file_end(segments) == segments_file_end(rest) && segments_file_end(rest) != 0 {
            let w = choose|i: int|
                #![trigger rest[i]]
                0 <= i < rest.len() && saturated(rest[i].p_offset + rest[i].p_filesz)
                    == segments_file_end(rest);
            assert(segments[w] == rest[w]);
        }
    }
}

/// The furthest section end is that of one with file contents, and none is further.
proof fn lemma_sections_end(sections: Seq<SectionView>)
    ensures
        0 <= sections_file_end(sections) <= u64::MAX,
        forall|i: int|
            #![trigger sections[i]]
            0 <= i < sections.len() && sections[i].sh_type != SHT_NOBITS ==> saturated(
                sections[i].sh_offset + sections[i].sh_size,
            ) <= sections_file_end(sections),
        sections_file_end(sections) == 0 || exists|i: int|
            #![trigger sections[i]]
            0 <= i < sections.len() && sections[i].sh_type != SHT_NOBITS && saturated(
                sections[i].sh_offset + sections[i].sh_size,
            ) == sections_file_end(sections),
    decreases sections.len(),
{
    if sections.len() > 0 {
        let rest = sections.drop_last();
        lemma_sections_end(rest);
        assert forall|i: int| #![trigger sections[i]]
            0 <= i < sections.len() && sections[i].sh_type != SHT_NOBITS implies saturated(
            sections[i].sh_offset + sections[i].sh_size,
        ) <= sections_file_end(sections) by {
            if i < rest.len() {
                assert(rest[i] == sections[i]);
            }
        }
        assert(sections[sections.len() - 1] == sections.last());
        if sections_file_end(sections) == sections_file_end(rest) && sections_file_end(rest) != 0 {
            let w = choose|i: int|
                #![trigger rest[i]]
                0 <= i < rest.len() && rest[i].sh_type != SHT_NOBITS && saturated(
                    rest[i].sh_offset + rest[i].sh_size,
                ) == sections_file_end(rest);
            assert(sections[w] == rest[w]);
        }
    }
}

/// What stands behind the file end is read as the table of an image that begins at the
/// lowest address and takes up the memory of every segment; a file that ends there has
/// no relocations, and what is wrong with the segments is reported.
pub proof fn table_begins_at_file_end(
    program: ProgramView,
    sections: Seq<SectionView>,
    bytes: Seq<u8>,
)
    ensures
        match crate::elf::span_of(program.segments) {
            Err(why) => appended_relocs(program, sections, bytes) == Err::<RelocsView, Fault>(why),
            Ok(span) => {
                let r = appended_relocs(program, sections, bytes);
                let start = elf_file_end(program, sections);
                if start < bytes.len() {
                    r == table_relocs(
                        table_words(bytes, start),
                        crate::elf::link_base(program.segments, span.min_paddr)->0,
                        span.max_mem_end - span.min_paddr,
                    )
                } else {
                    &&& r is Ok
                    &&& r->Ok_0.relocs32.len() == 0
                    &&& r->Ok_0.relocs32neg.len() == 0
                    &&& r->Ok_0.relocs64.len() == 0
                }
            },
        },
{
    if crate::elf::span_of(program.segments) is Ok {
        crate::elf::span_has_link_base(program.segments);
    }
}

} // verus!
