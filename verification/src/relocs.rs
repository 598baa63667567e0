//! x86 KASLR relocation tables of an ELF kernel.
use vstd::prelude::*;

use crate::appended::extract_appended_relocs;
use crate::bytes::push_le32;
use crate::elf::{
    elf_span, read_program, read_tables, text_vaddr, ElfSpan, Program, ProgramView, Reloc,
    RelocGroup, RelocGroupView, Section, SectionView, Symbol, SymbolView, Tables, TablesView,
};
use crate::error::{Fault, KernelError};
use crate::text::{chars_of, has_prefix, same_text};

verus! {

/// x86 KASLR relocation tables, expressed as byte offsets into the flat loaded
/// image ([`crate::image::elf_load_image`]).
///
/// For KASLR a random *virtual* base offset (`delta`) is picked, and every
/// absolute reference into the kernel image is adjusted by it:
///
/// - `relocs64`: `*(u64*)p += delta`
/// - `relocs32`: `*(u32*)p += delta`
/// - `relocs32neg`: `*(i32*)p -= delta` (PC-relative refs to per-CPU symbols,
///   whose displacement shrinks as the referent base grows)
#[derive(Debug, Clone)]
pub struct Relocs {
    /// Image offsets of `R_X86_64_32`/`32S` sites (patch 4 bytes: `*p += delta`).
    pub relocs32: Vec<u32>,
    /// Image offsets of per-CPU PC-relative sites (patch 4 bytes: `*p -= delta`).
    pub relocs32neg: Vec<u32>,
    /// Image offsets of `R_X86_64_64` sites (patch 8 bytes: `*p += delta`).
    pub relocs64: Vec<u32>,
}

/// What [`Relocs`] hold.
#[verifier::ext_equal]
pub struct RelocsView {
    pub relocs32: Seq<u32>,
    pub relocs32neg: Seq<u32>,
    pub relocs64: Seq<u32>,
}

impl View for Relocs {
    type V = RelocsView;

    open spec fn view(&self) -> RelocsView {
        RelocsView {
            relocs32: self.relocs32@,
            relocs32neg: self.relocs32neg@,
            relocs64: self.relocs64@,
        }
    }
}

impl RelocsView {
    /// No sites.
    pub open spec fn none() -> RelocsView {
        RelocsView { relocs32: seq![], relocs32neg: seq![], relocs64: seq![] }
    }

    /// The sites of `self`, then those of `other`, table by table.
    pub open spec fn then_sites(self, other: RelocsView) -> RelocsView {
        RelocsView {
            relocs32: self.relocs32 + other.relocs32,
            relocs32neg: self.relocs32neg + other.relocs32neg,
            relocs64: self.relocs64 + other.relocs64,
        }
    }

    /// The offsets in the order in which they are stored.
    pub open spec fn stored(self) -> Seq<u32> {
        self.relocs64 + self.relocs32neg + self.relocs32
    }
}

impl Default for Relocs {
    fn default() -> (r: Relocs)
        ensures
            r@ == RelocsView::none(),
    {
        let r: Relocs = Relocs {
            relocs32: Vec::new(),
            relocs32neg: Vec::new(),
            relocs64: Vec::new(),
        };
        assert(r@ =~= RelocsView::none());
        r
    }
}

/// The little-endian bytes of the words, back to back.
pub open spec fn le32_all(words: Seq<u32>) -> Seq<u8>
    decreases words.len(),
{
    if words.len() == 0 {
        seq![]
    } else {
        le32_all(words.drop_last()) + crate::bytes::le32_bytes(words.last())
    }
}

/// Four bytes a word, and the word at `4 * i` is the `i`-th.
pub proof fn lemma_le32_all(words: Seq<u32>)
    ensures
        le32_all(words).len() == 4 * words.len(),
        forall|i: int|
            #![trigger words[i]]
            0 <= i < words.len() ==> crate::bytes::le32(le32_all(words), 4 * i) == words[i],
    decreases words.len(),
{
    if words.len() > 0 {
        let rest = words.drop_last();
        lemma_le32_all(rest);
        crate::bytes::lemma_le32_roundtrip(words.last());
        let b = le32_all(words);
        assert forall|i: int|
            #![trigger words[i]]
            0 <= i < words.len() implies crate::bytes::le32(b, 4 * i) == words[i] by {
            if i < rest.len() {
                assert(rest[i] == words[i]);
                assert(b[4 * i] == le32_all(rest)[4 * i]);
                assert(b[4 * i + 1] == le32_all(rest)[4 * i + 1]);
                assert(b[4 * i + 2] == le32_all(rest)[4 * i + 2]);
                assert(b[4 * i + 3] == le32_all(rest)[4 * i + 3]);
            } else {
                let last = crate::bytes::le32_bytes(words.last());
                assert(b[4 * i] == last[0]);
                assert(b[4 * i + 1] == last[1]);
                assert(b[4 * i + 2] == last[2]);
                assert(b[4 * i + 3] == last[3]);
            }
        }
    }
}

/// Splitting the stored bytes by the tables' lengths gives the tables back: the
/// words of `relocs64` come first, then those of `relocs32neg`, then those of
/// `relocs32`, and nothing else is stored.
pub proof fn stored_tables_split_back(r: RelocsView)
    ensures
        ({
            let b = le32_all(r.stored());
            let n64 = r.relocs64.len() as int;
            let nneg = r.relocs32neg.len() as int;
            &&& b.len() == 4 * (n64 + nneg + r.relocs32.len())
            &&& forall|i: int|
                #![trigger r.relocs64[i]]
                0 <= i < n64 ==> crate::bytes::le32(b, 4 * i) == r.relocs64[i]
            &&& forall|i: int|
                #![trigger r.relocs32neg[i]]
                0 <= i < nneg ==> crate::bytes::le32(b, 4 * (n64 + i)) == r.relocs32neg[i]
            &&& forall|i: int|
                #![trigger r.relocs32[i]]
                0 <= i < r.relocs32.len() ==> crate::bytes::le32(b, 4 * (n64 + nneg + i))
                    == r.relocs32[i]
        }),
{
    let words = r.stored();
    let n64 = r.relocs64.len() as int;
    let nneg = r.relocs32neg.len() as int;
    lemma_le32_all(words);
    assert forall|i: int|
        #![trigger r.relocs64[i]]
        0 <= i < n64 implies crate::bytes::le32(le32_all(words), 4 * i) == r.relocs64[i] by {
        assert(words[i] == r.relocs64[i]);
    }
    assert forall|i: int|
        #![trigger r.relocs32neg[i]]
        0 <= i < nneg implies crate::bytes::le32(le32_all(words), 4 * (n64 + i))
        == r.relocs32neg[i] by {
        assert(words[n64 + i] == r.relocs32neg[i]);
    }
    assert forall|i: int|
        #![trigger r.relocs32[i]]
        0 <= i < r.relocs32.len() implies crate::bytes::le32(le32_all(words), 4 * (n64 + nneg + i))
        == r.relocs32[i] by {
        assert(words[n64 + nneg + i] == r.relocs32[i]);
    }
}

/// Appends the little-endian bytes of every word.
fn push_words(out: &mut Vec<u8>, words: &[u32])
    ensures
        final(out)@ == old(out)@ + le32_all(words@),
{
    let mut i: usize = 0;
    assert(out@ =~= old(out)@ + le32_all(words@.take(0)));
    while i < words.len()
        invariant
            i <= words@.len(),
            out@ == old(out)@ + le32_all(words@.take(i as int)),
        decreases words@.len() - i,
    {
        push_le32(out, words[i]);
        proof {
            assert(words@.take(i + 1).drop_last() =~= words@.take(i as int));
            assert(out@ =~= old(out)@ + le32_all(words@.take(i + 1)));
        }
        i = i + 1;
    }
    assert(words@.take(words@.len() as int) =~= words@);
}

/// The bytes of two runs of words are those of the one run, then the other.
pub proof fn lemma_le32_all_concat(a: Seq<u32>, b: Seq<u32>)
    ensures
        le32_all(a + b) == le32_all(a) + le32_all(b),
    decreases b.len(),
{
    if b.len() == 0 {
        assert(a + b =~= a);
        assert(le32_all(a) + le32_all(b) =~= le32_all(a));
    } else {
        lemma_le32_all_concat(a, b.drop_last());
        assert((a + b).drop_last() =~= a + b.drop_last());
        assert((a + b).last() == b.last());
        assert(le32_all(a + b) =~= le32_all(a) + le32_all(b));
    }
}

impl Relocs {
    /// Whether no relocations were extracted, i.e. the kernel carries no KASLR
    /// relocation data.
    pub fn is_empty(&self) -> (r: bool)
        ensures
            r == (self@ == RelocsView::none()),
    {
        let r: bool = self.relocs64.len() == 0 && self.relocs32neg.len() == 0
            && self.relocs32.len() == 0;
        proof {
            if r {
                assert(self@ =~= RelocsView::none());
            }
        }
        r
    }

    /// Serialize as the relocs-section payload: the three `u32`-LE arrays back
    /// to back in the order `relocs64`, `relocs32neg`, `relocs32`. The result
    /// is empty when there are no relocations.
    pub fn to_section_bytes(&self) -> (r: Vec<u8>)
        ensures
            r@ == le32_all(self@.stored()),
            r@.len() == 4 * (self.relocs64@.len() + self.relocs32neg@.len()
                + self.relocs32@.len()),
            r@.len() == 0 <==> self@ == RelocsView::none(),
    {
        let mut v: Vec<u8> = Vec::new();
        push_words(&mut v, self.relocs64.as_slice());
        push_words(&mut v, self.relocs32neg.as_slice());
        push_words(&mut v, self.relocs32.as_slice());
        proof {
            lemma_le32_all_concat(self.relocs64@, self.relocs32neg@);
            lemma_le32_all_concat(self.relocs64@ + self.relocs32neg@, self.relocs32@);
            lemma_le32_all(self@.stored());
            assert(v@ =~= le32_all(self@.stored()));
            if v@.len() == 0 {
                assert(self@ =~= RelocsView::none());
            }
        }
        v
    }
}

// x86-64 relocation types.
pub const R_X86_64_NONE: u32 = 0;

pub const R_X86_64_64: u32 = 1;

pub const R_X86_64_PC32: u32 = 2;

pub const R_X86_64_PLT32: u32 = 4;

pub const R_X86_64_32: u32 = 10;

pub const R_X86_64_32S: u32 = 11;

pub const R_X86_64_PC64: u32 = 24;

pub const R_X86_64_REX_GOTPCRELX: u32 = 42;

pub const SHN_UNDEF: usize = 0;

pub const SHN_ABS: usize = 0xfff1;

pub const SHN_XINDEX: usize = 0xffff;

pub const SHT_NOTE: u32 = 7;

pub const SHT_NOBITS: u32 = 8;

pub const SHF_ALLOC: u64 = 0x2;

/// The symbols that the linker marks absolute but which still move with the
/// kernel image.
pub open spec fn moves_with_image(name: Seq<char>) -> bool {
    ||| crate::text::begins_with(name, "__start_pci_"@)
    ||| crate::text::begins_with(name, "__end_pci_"@)
    ||| crate::text::begins_with(name, "init_per_cpu__"@)
    ||| name == "__init_begin"@
    ||| name == "__init_end"@
    ||| name == "__x86_cpu_dev_start"@
    ||| name == "__x86_cpu_dev_end"@
    ||| name == "__parainstructions"@
    ||| name == "__parainstructions_end"@
    ||| name == "__alt_instructions"@
    ||| name == "__alt_instructions_end"@
    ||| name == "__iommu_table"@
    ||| name == "__iommu_table_end"@
    ||| name == "__apicdrivers"@
    ||| name == "__apicdrivers_end"@
    ||| name == "__smp_locks"@
    ||| name == "__smp_locks_end"@
    ||| name == "__start_builtin_fw"@
    ||| name == "__end_builtin_fw"@
    ||| name == "__start___ksymtab"@
    ||| name == "__stop___ksymtab"@
    ||| name == "__start___ksymtab_gpl"@
    ||| name == "__stop___ksymtab_gpl"@
    ||| name == "__start___kcrctab"@
    ||| name == "__stop___kcrctab"@
    ||| name == "__start___kcrctab_gpl"@
    ||| name == "__stop___kcrctab_gpl"@
    ||| name == "__start___param"@
    ||| name == "__stop___param"@
    ||| name == "__start___modver"@
    ||| name == "__stop___modver"@
    ||| name == "__start___bug_table"@
    ||| name == "__stop___bug_table"@
    ||| name == "__tracedata_start"@
    ||| name == "__tracedata_end"@
    ||| name == "__start_notes"@
    ||| name == "__stop_notes"@
    ||| name == "__end_rodata"@
    ||| name == "__end_rodata_aligned"@
    ||| name == "__initramfs_start"@
    ||| name == "jiffies"@
    ||| name == "jiffies_64"@
    ||| name == "__per_cpu_load"@
    ||| name == "__end_rodata_hpage_align"@
    ||| name == "__vvar_page"@
    ||| name == "_end"@
}

/// Symbols the linker marks absolute but which still move with the kernel image
/// (defined outside any section in the linker script). References to these
/// *must* be relocated for KASLR. Any other `SHN_ABS` symbol is a true constant
/// and is skipped.
pub fn is_s_rel(name: &str) -> (r: bool)
    ensures
        r == moves_with_image(name@),
{
    let chars: Vec<char> = chars_of(name);
    let n: &[char] = chars.as_slice();
    if has_prefix(n, "__start_pci_") || has_prefix(n, "__end_pci_") || has_prefix(
        n,
        "init_per_cpu__",
    ) {
        return true;
    }
    same_text(n, "__init_begin")
        || same_text(n, "__init_end")
        || same_text(n, "__x86_cpu_dev_start")
        || same_text(n, "__x86_cpu_dev_end")
        || same_text(n, "__parainstructions")
        || same_text(n, "__parainstructions_end")
        || same_text(n, "__alt_instructions")
        || same_text(n, "__alt_instructions_end")
        || same_text(n, "__iommu_table")
        || same_text(n, "__iommu_table_end")
        || same_text(n, "__apicdrivers")
        || same_text(n, "__apicdrivers_end")
        || same_text(n, "__smp_locks")
        || same_text(n, "__smp_locks_end")
        || same_text(n, "__start_builtin_fw")
        || same_text(n, "__end_builtin_fw")
        || same_text(n, "__start___ksymtab")
        || same_text(n, "__stop___ksymtab")
        || same_text(n, "__start___ksymtab_gpl")
        || same_text(n, "__stop___ksymtab_gpl")
        || same_text(n, "__start___kcrctab")
        || same_text(n, "__stop___kcrctab")
        || same_text(n, "__start___kcrctab_gpl")
        || same_text(n, "__stop___kcrctab_gpl")
        || same_text(n, "__start___param")
        || same_text(n, "__stop___param")
        || same_text(n, "__start___modver")
        || same_text(n, "__stop___modver")
        || same_text(n, "__start___bug_table")
        || same_text(n, "__stop___bug_table")
        || same_text(n, "__tracedata_start")
        || same_text(n, "__tracedata_end")
        || same_text(n, "__start_notes")
        || same_text(n, "__stop_notes")
        || same_text(n, "__end_rodata")
        || same_text(n, "__end_rodata_aligned")
        || same_text(n, "__initramfs_start")
        || same_text(n, "jiffies")
        || same_text(n, "jiffies_64")
        || same_text(n, "__per_cpu_load")
        || same_text(n, "__end_rodata_hpage_align")
        || same_text(n, "__vvar_page")
        || same_text(n, "_end")
}

/// The `.data..percpu` section state needed to relocate per-CPU references. For
/// an SMP kernel the section is linked at VMA 0 and loaded at `__per_cpu_load`;
/// reloc offsets within it are rebased by that LMA, and references *to* per-CPU
/// symbols are handled specially. A non-SMP kernel (section VMA != 0) has no
/// special case.
#[derive(Debug, Clone, Copy, PartialEq, Eq, Structural)]
pub struct PerCpu {
    /// Section index of `.data..percpu`, or `None` for a non-SMP kernel.
    pub shndx: Option<usize>,
    /// `st_value` of `__per_cpu_load` (the section's load address).
    pub load_addr: u64,
}

/// Index of the first `.data..percpu` section.
pub open spec fn percpu_section(sections: Seq<SectionView>) -> Option<int> {
    crate::bytes::least(
        sections.len() as int,
        |i: int| sections[i].name == Some(".data..percpu"@),
    )
}

/// Index of the first `__per_cpu_load` symbol.
pub open spec fn percpu_load_symbol(symbols: Seq<SymbolView>) -> Option<int> {
    crate::bytes::least(
        symbols.len() as int,
        |i: int| symbols[i].name == Some("__per_cpu_load"@),
    )
}

/// The per-CPU state that the sections and symbols describe.
pub open spec fn percpu_of(tables: TablesView) -> Result<PerCpu, Fault> {
    match percpu_section(tables.sections) {
        None => Ok(PerCpu { shndx: None, load_addr: 0 }),
        Some(i) => if tables.sections[i].sh_addr != 0 {
            Ok(PerCpu { shndx: None, load_addr: 0 })
        } else {
            match percpu_load_symbol(tables.symbols) {
                Some(k) => Ok(
                    PerCpu { shndx: Some(i as usize), load_addr: tables.symbols[k].st_value },
                ),
                None => Err(Fault::ElfMalformed("percpu section but no __per_cpu_load"@)),
            }
        },
    }
}

/// Whether the name is there and is `text`.
fn name_is(name: &Option<String>, text: &str) -> (r: bool)
    ensures
        r == (crate::elf::name_view(*name) == Some(text@)),
{
    match name {
        Some(s) => {
            let chars: Vec<char> = chars_of(s.as_str());
            same_text(chars.as_slice(), text)
        },
        None => false,
    }
}

/// Finds the first `__per_cpu_load` symbol and gives its value.
fn percpu_load(symbols: &[Symbol]) -> (r: Option<u64>)
    ensures
        r == match percpu_load_symbol(crate::elf::symbols_view(symbols@)) {
            Some(k) => Some(symbols@[k].st_value),
            None => None,
        },
        percpu_load_symbol(crate::elf::symbols_view(symbols@)) is Some ==> 0
            <= percpu_load_symbol(crate::elf::symbols_view(symbols@))->0 < symbols@.len(),
{
    let ghost views = crate::elf::symbols_view(symbols@);
    let ghost wanted = |i: int| views[i].name == Some("__per_cpu_load"@);
    let mut i: usize = 0;
    while i < symbols.len()
        invariant
            i <= symbols@.len(),
            views == crate::elf::symbols_view(symbols@),
            wanted == (|i: int| views[i].name == Some("__per_cpu_load"@)),
            forall|j: int| 0 <= j < i ==> !#[trigger] wanted(j),
        decreases symbols@.len() - i,
    {
        assert(views[i as int] == symbols@[i as int]@);
        if name_is(&symbols[i].name, "__per_cpu_load") {
            proof {
                crate::bytes::lemma_least_is(views.len() as int, wanted, i as int);
            }
            return Some(symbols[i].st_value);
        }
        i = i + 1;
    }
    proof {
        crate::bytes::lemma_least_none(views.len() as int, wanted);
    }
    None
}

/// Locate the `.data..percpu` section and `__per_cpu_load` symbol.
pub fn find_percpu(tables: &Tables) -> (r: Result<PerCpu, KernelError>)
    ensures
        match r {
            Ok(p) => percpu_of(tables@) == Ok::<PerCpu, Fault>(p),
            Err(e) => percpu_of(tables@) == Err::<PerCpu, Fault>(e@),
        },
{
    let ghost views = crate::elf::sections_view(tables.sections@);
    let ghost wanted = |i: int| views[i].name == Some(".data..percpu"@);
    let mut i: usize = 0;
    while i < tables.sections.len()
        invariant
            i <= tables.sections@.len(),
            views == crate::elf::sections_view(tables.sections@),
            wanted == (|i: int| views[i].name == Some(".data..percpu"@)),
            forall|j: int| 0 <= j < i ==> !#[trigger] wanted(j),
        decreases tables.sections@.len() - i,
    {
        assert(views[i as int] == tables.sections@[i as int]@);
        if name_is(&tables.sections[i].name, ".data..percpu") {
            proof {
                crate::bytes::lemma_least_is(views.len() as int, wanted, i as int);
            }
            if tables.sections[i].sh_addr != 0 {
                return Ok(PerCpu { shndx: None, load_addr: 0 });
            }
            return match percpu_load(tables.symbols.as_slice()) {
                Some(load_addr) => Ok(PerCpu { shndx: Some(i), load_addr }),
                None => Err(KernelError::ElfMalformed("percpu section but no __per_cpu_load")),
            };
        }
        i = i + 1;
    }
    proof {
        crate::bytes::lemma_least_none(views.len() as int, wanted);
    }
    Ok(PerCpu { shndx: None, load_addr: 0 })
}

/// Whether a symbol of this section and name is a genuine per-CPU variable.
pub open spec fn percpu_symbol(st_shndx: usize, name: Seq<char>, percpu: PerCpu) -> bool {
    &&& percpu.shndx == Some(st_shndx)
    &&& name != "__init_begin"@
    &&& name != "__per_cpu_load"@
    &&& !crate::text::begins_with(name, "init_per_cpu_"@)
}

/// Whether a symbol lies in the per-CPU section and is a genuine per-CPU
/// variable (not one of the linker-misattributed boundary/init symbols).
pub fn is_percpu_sym(st_shndx: usize, name: &str, percpu: &PerCpu) -> (r: bool)
    ensures
        r == percpu_symbol(st_shndx, name@, *percpu),
{
    let inside: bool = match percpu.shndx {
        Some(i) => i == st_shndx,
        None => false,
    };
    if !inside {
        return false;
    }
    let chars: Vec<char> = chars_of(name);
    let n: &[char] = chars.as_slice();
    !same_text(n, "__init_begin") && !same_text(n, "__per_cpu_load") && !has_prefix(
        n,
        "init_per_cpu_",
    )
}

/// The name of a symbol, empty where it has none.
pub open spec fn symbol_name(symbol: SymbolView) -> Seq<char> {
    match symbol.name {
        Some(name) => name,
        None => seq![],
    }
}

/// The image offset of a location, which must lie at or above the image's link
/// base and within reach of 32 bits.
pub open spec fn image_site(va: u64, link_base: u64) -> Option<u32> {
    if link_base <= va && va - link_base <= u32::MAX {
        Some((va - link_base) as u32)
    } else {
        None
    }
}

/// The virtual address that an entry patches: section-relative offsets of the
/// per-CPU section are rebased by its load address.
pub open spec fn patched_va(entry: Reloc, in_percpu: bool, percpu: PerCpu) -> u64 {
    if in_percpu {
        ((entry.r_offset + percpu.load_addr) % 0x1_0000_0000_0000_0000) as u64
    } else {
        entry.r_offset
    }
}

/// The site that one relocation entry contributes, if any.
pub open spec fn entry_sites(
    entry: Reloc,
    symbols: Seq<SymbolView>,
    percpu: PerCpu,
    in_percpu: bool,
    link_base: u64,
) -> Result<RelocsView, Fault> {
    if entry.r_sym >= symbols.len() {
        Err(Fault::ElfMalformed("reloc symbol index out of range"@))
    } else {
        let symbol = symbols[entry.r_sym as int];
        let name = symbol_name(symbol);
        let of_percpu = percpu_symbol(symbol.st_shndx, name, percpu);
        let constant = symbol.st_shndx == SHN_ABS && !moves_with_image(name);
        let site = image_site(patched_va(entry, in_percpu, percpu), link_base);
        let none = RelocsView::none();
        if symbol.st_shndx == SHN_UNDEF {
            Ok(none)
        } else if symbol.st_shndx == SHN_XINDEX {
            Err(Fault::ElfMalformed("SHN_XINDEX symbols unsupported"@))
        } else if entry.r_type == R_X86_64_NONE {
            Ok(none)
        } else if entry.r_type == R_X86_64_PC32 || entry.r_type == R_X86_64_PLT32 || entry.r_type
            == R_X86_64_REX_GOTPCRELX {
            if !of_percpu {
                Ok(none)
            } else {
                match site {
                    Some(off) => Ok(RelocsView { relocs32neg: seq![off], ..none }),
                    None => Err(Fault::ElfMalformed("reloc location outside image"@)),
                }
            }
        } else if entry.r_type == R_X86_64_PC64 {
            if of_percpu {
                Err(Fault::ElfMalformed("R_X86_64_PC64 against per-CPU symbol"@))
            } else {
                Ok(none)
            }
        } else if entry.r_type == R_X86_64_64 || entry.r_type == R_X86_64_32 || entry.r_type
            == R_X86_64_32S {
            if of_percpu || constant {
                Ok(none)
            } else {
                match site {
                    Some(off) => if entry.r_type == R_X86_64_64 {
                        Ok(RelocsView { relocs64: seq![off], ..none })
                    } else {
                        Ok(RelocsView { relocs32: seq![off], ..none })
                    },
                    None => Err(Fault::ElfMalformed("reloc location outside image"@)),
                }
            }
        } else {
            Err(Fault::ElfMalformed("unsupported x86-64 relocation type"@))
        }
    }
}

/// The sites of a run of entries, in order, or the first fault.
pub open spec fn run_sites(
    entries: Seq<Reloc>,
    symbols: Seq<SymbolView>,
    percpu: PerCpu,
    in_percpu: bool,
    link_base: u64,
) -> Result<RelocsView, Fault>
    decreases entries.len(),
{
    if entries.len() == 0 {
        Ok(RelocsView::none())
    } else {
        match run_sites(entries.drop_last(), symbols, percpu, in_percpu, link_base) {
            Err(e) => Err(e),
            Ok(before) => match entry_sites(
                entries.last(),
                symbols,
                percpu,
                in_percpu,
                link_base,
            ) {
                Err(e) => Err(e),
                Ok(site) => Ok(before.then_sites(site)),
            },
        }
    }
}

/// The sites of one relocation section: those of its entries where it applies
/// to an allocated section that is no NOTE, none otherwise.
pub open spec fn group_sites(
    group: RelocGroupView,
    tables: TablesView,
    percpu: PerCpu,
    link_base: u64,
) -> Result<RelocsView, Fault> {
    let applies = tables.sections[group.section as int].sh_info as int;
    if applies >= tables.sections.len() {
        Err(Fault::ElfMalformed("reloc sh_info out of range"@))
    } else if tables.sections[applies].sh_flags & SHF_ALLOC == 0
        || tables.sections[applies].sh_type == SHT_NOTE {
        Ok(RelocsView::none())
    } else {
        run_sites(
            group.entries,
            tables.symbols,
            percpu,
            percpu.shndx == Some(applies as usize),
            link_base,
        )
    }
}

/// The sites of all the relocation sections, in order, or the first fault.
pub open spec fn all_sites(
    groups: Seq<RelocGroupView>,
    tables: TablesView,
    percpu: PerCpu,
    link_base: u64,
) -> Result<RelocsView, Fault>
    decreases groups.len(),
{
    if groups.len() == 0 {
        Ok(RelocsView::none())
    } else {
        match all_sites(groups.drop_last(), tables, percpu, link_base) {
            Err(e) => Err(e),
            Ok(before) => match group_sites(groups.last(), tables, percpu, link_base) {
                Err(e) => Err(e),
                Ok(sites) => Ok(before.then_sites(sites)),
            },
        }
    }
}

/// The relocation tables that the ELF's own relocation sections describe.
pub open spec fn section_relocs(program: ProgramView, tables: TablesView) -> Result<
    RelocsView,
    Fault,
> {
    match crate::elf::span_of(program.segments) {
        Err(e) => Err(e),
        Ok(span) => match percpu_of(tables) {
            Err(e) => Err(e),
            Ok(percpu) => match crate::elf::link_base(program.segments, span.min_paddr) {
                None => Err(Fault::ElfMalformed("no PT_LOAD at min_paddr"@)),
                Some(base) => all_sites(tables.relocs, tables, percpu, base),
            },
        },
    }
}

/// The image offset of a location.
fn to_image_off(va: u64, link_base: u64) -> (r: Result<u32, KernelError>)
    ensures
        match r {
            Ok(off) => image_site(va, link_base) == Some(off),
            Err(e) => image_site(va, link_base) is None && e@ == Fault::ElfMalformed(
                "reloc location outside image"@,
            ),
        },
{
    if link_base <= va && va - link_base <= u32::MAX as u64 {
        Ok((va - link_base) as u32)
    } else {
        Err(KernelError::ElfMalformed("reloc location outside image"))
    }
}

/// Adds the site that one relocation entry contributes to the tables.
fn push_entry(
    out: &mut Relocs,
    entry: &Reloc,
    symbols: &[Symbol],
    percpu: &PerCpu,
    in_percpu: bool,
    link_base: u64,
) -> (r: Result<(), KernelError>)
    ensures
        match (
            r,
            entry_sites(
                *entry,
                crate::elf::symbols_view(symbols@),
                *percpu,
                in_percpu,
                link_base,
            ),
        ) {
            (Ok(_), Ok(site)) => final(out)@ == old(out)@.then_sites(site),
            (Err(e), Err(fault)) => e@ == fault && final(out)@ == old(out)@,
            _ => false,
        },
{
    let ghost before = out@;
    assert(before.then_sites(RelocsView::none()) =~= before);
    if entry.r_sym >= symbols.len() {
        return Err(KernelError::ElfMalformed("reloc symbol index out of range"));
    }
    let symbol: &Symbol = &symbols[entry.r_sym];
    assert(crate::elf::symbols_view(symbols@)[entry.r_sym as int] == symbol@);
    if symbol.st_shndx == SHN_UNDEF {
        return Ok(());
    }
    if symbol.st_shndx == SHN_XINDEX {
        return Err(KernelError::ElfMalformed("SHN_XINDEX symbols unsupported"));
    }
    let name: &str = match &symbol.name {
        Some(s) => s.as_str(),
        None => {
            proof {
                reveal_strlit("");
                assert(""@ =~= Seq::<char>::empty());
            }
            ""
        },
    };
    assert(name@ == symbol_name(symbol@));
    let constant: bool = symbol.st_shndx == SHN_ABS && !is_s_rel(name);
    let of_percpu: bool = is_percpu_sym(symbol.st_shndx, name, percpu);
    let va: u64 = if in_percpu {
        entry.r_offset.wrapping_add(percpu.load_addr)
    } else {
        entry.r_offset
    };
    assert(va == patched_va(*entry, in_percpu, *percpu));
    if entry.r_type == R_X86_64_NONE {
        Ok(())
    } else if entry.r_type == R_X86_64_PC32 || entry.r_type == R_X86_64_PLT32 || entry.r_type
        == R_X86_64_REX_GOTPCRELX {
        // PC-relative: only per-CPU refs need adjusting (inverse).
        if of_percpu {
            match to_image_off(va, link_base) {
                Ok(off) => {
                    out.relocs32neg.push(off);
                    assert(out@ =~= before.then_sites(
                        RelocsView { relocs32neg: seq![off], ..RelocsView::none() },
                    ));
                    Ok(())
                },
                Err(e) => Err(e),
            }
        } else {
            Ok(())
        }
    } else if entry.r_type == R_X86_64_PC64 {
        if of_percpu {
            Err(KernelError::ElfMalformed("R_X86_64_PC64 against per-CPU symbol"))
        } else {
            Ok(())
        }
    } else if entry.r_type == R_X86_64_64 || entry.r_type == R_X86_64_32 || entry.r_type
        == R_X86_64_32S {
        // References into the per-CPU area use GS-relative addressing at
        // runtime, and a true constant does not move.
        if of_percpu || constant {
            return Ok(());
        }
        match to_image_off(va, link_base) {
            Ok(off) => {
                if entry.r_type == R_X86_64_64 {
                    out.relocs64.push(off);
                    assert(out@ =~= before.then_sites(
                        RelocsView { relocs64: seq![off], ..RelocsView::none() },
                    ));
                } else {
                    out.relocs32.push(off);
                    assert(out@ =~= before.then_sites(
                        RelocsView { relocs32: seq![off], ..RelocsView::none() },
                    ));
                }
                Ok(())
            },
            Err(e) => Err(e),
        }
    } else {
        Err(KernelError::ElfMalformed("unsupported x86-64 relocation type"))
    }
}

/// A fault among the first entries is the fault of the whole run.
proof fn lemma_run_fault(
    entries: Seq<Reloc>,
    n: int,
    symbols: Seq<SymbolView>,
    percpu: PerCpu,
    in_percpu: bool,
    link_base: u64,
)
    requires
        0 <= n <= entries.len(),
        run_sites(entries.take(n), symbols, percpu, in_percpu, link_base) is Err,
    ensures
        run_sites(entries, symbols, percpu, in_percpu, link_base) == run_sites(
            entries.take(n),
            symbols,
            percpu,
            in_percpu,
            link_base,
        ),
    decreases entries.len(),
{
    if n == entries.len() {
        assert(entries.take(n) =~= entries);
    } else {
        assert(entries.drop_last().take(n) =~= entries.take(n));
        lemma_run_fault(entries.drop_last(), n, symbols, percpu, in_percpu, link_base);
    }
}

/// A fault among the first relocation sections is the fault of them all.
proof fn lemma_groups_fault(
    groups: Seq<RelocGroupView>,
    n: int,
    tables: TablesView,
    percpu: PerCpu,
    link_base: u64,
)
    requires
        0 <= n <= groups.len(),
        all_sites(groups.take(n), tables, percpu, link_base) is Err,
    ensures
        all_sites(groups, tables, percpu, link_base) == all_sites(
            groups.take(n),
            tables,
            percpu,
            link_base,
        ),
    decreases groups.len(),
{
    if n == groups.len() {
        assert(groups.take(n) =~= groups);
    } else {
        assert(groups.drop_last().take(n) =~= groups.take(n));
        lemma_groups_fault(groups.drop_last(), n, tables, percpu, link_base);
    }
}

/// Adds the sites of one relocation section to the tables.
fn push_group(
    out: &mut Relocs,
    group: &RelocGroup,
    tables: &Tables,
    percpu: &PerCpu,
    link_base: u64,
) -> (r: Result<(), KernelError>)
    requires
        group.section < tables.sections@.len(),
    ensures
        match (r, group_sites(group@, tables@, *percpu, link_base)) {
            (Ok(_), Ok(sites)) => final(out)@ == old(out)@.then_sites(sites),
            (Err(e), Err(fault)) => e@ == fault,
            _ => false,
        },
{
    let ghost before = out@;
    assert(before.then_sites(RelocsView::none()) =~= before);
    // Section these relocations apply to.
    let applies_idx: usize = tables.sections[group.section].sh_info as usize;
    assert(tables@.sections[group.section as int] == tables.sections@[group.section as int]@);
    if applies_idx >= tables.sections.len() {
        return Err(KernelError::ElfMalformed("reloc sh_info out of range"));
    }
    let applies: &Section = &tables.sections[applies_idx];
    assert(tables@.sections[applies_idx as int] == applies@);
    // Skip non-allocated (debug, symtab) and NOTE sections.
    if applies.sh_flags & SHF_ALLOC == 0 || applies.sh_type == SHT_NOTE {
        return Ok(());
    }
    let in_percpu: bool = match percpu.shndx {
        Some(i) => i == applies_idx,
        None => false,
    };
    let ghost symbols = tables@.symbols;
    let mut i: usize = 0;
    while i < group.entries.len()
        invariant
            i <= group.entries@.len(),
            symbols == crate::elf::symbols_view(tables.symbols@),
            group_sites(group@, tables@, *percpu, link_base) == run_sites(
                group.entries@,
                symbols,
                *percpu,
                in_percpu,
                link_base,
            ),
            run_sites(
                group.entries@.take(i as int),
                symbols,
                *percpu,
                in_percpu,
                link_base,
            ) matches Ok(sites) && out@ == before.then_sites(sites),
        decreases group.entries@.len() - i,
    {
        let entry: &Reloc = &group.entries[i];
        let ghost sofar = run_sites(
            group.entries@.take(i as int),
            symbols,
            *percpu,
            in_percpu,
            link_base,
        )->Ok_0;
        proof {
            assert(group.entries@.take(i + 1).drop_last() =~= group.entries@.take(i as int));
            assert(group.entries@.take(i + 1).last() == *entry);
        }
        match push_entry(out, entry, tables.symbols.as_slice(), percpu, in_percpu, link_base) {
            Ok(_) => {
                proof {
                    let site = entry_sites(*entry, symbols, *percpu, in_percpu, link_base)->Ok_0;
                    assert(before.then_sites(sofar).then_sites(site) =~= before.then_sites(
                        sofar.then_sites(site),
                    ));
                }
            },
            Err(e) => {
                proof {
                    lemma_run_fault(
                        group.entries@,
                        i + 1,
                        symbols,
                        *percpu,
                        in_percpu,
                        link_base,
                    );
                }
                return Err(e);
            },
        }
        i = i + 1;
    }
    assert(group.entries@.take(group.entries@.len() as int) =~= group.entries@);
    Ok(())
}

/// Walks every relocation section whose applied section (`sh_info`) is
/// `SHF_ALLOC` and not a NOTE; rebases per-CPU offsets by `__per_cpu_load`;
/// classifies each entry by type, skipping PC-relative and absolute-constant
/// sites, routing per-CPU PC-relative refs to `relocs32neg`, and recording the
/// rest as positions in the flat loaded image: `VA - text_vaddr`.
pub fn walk_relocs(program: &Program, tables: &Tables) -> (r: Result<Relocs, KernelError>)
    requires
        tables@.well_formed(),
    ensures
        match r {
            Ok(out) => section_relocs(program@, tables@) == Ok::<RelocsView, Fault>(out@),
            Err(e) => section_relocs(program@, tables@) == Err::<RelocsView, Fault>(e@),
        },
{
    let span: ElfSpan = match elf_span(program.segments.as_slice()) {
        Ok(span) => span,
        Err(e) => return Err(e),
    };
    let percpu: PerCpu = match find_percpu(tables) {
        Ok(percpu) => percpu,
        Err(e) => return Err(e),
    };
    let link_base: u64 = match text_vaddr(program.segments.as_slice(), span.min_paddr) {
        Some(base) => base,
        None => return Err(KernelError::ElfMalformed("no PT_LOAD at min_paddr")),
    };
    let ghost groups = tables@.relocs;
    let mut out: Relocs = Relocs::default();
    let mut i: usize = 0;
    assert(groups.take(0) =~= seq![]);
    while i < tables.relocs.len()
        invariant
            i <= tables.relocs@.len(),
            groups == tables@.relocs,
            tables@.well_formed(),
            section_relocs(program@, tables@) == all_sites(groups, tables@, percpu, link_base),
            all_sites(groups.take(i as int), tables@, percpu, link_base) == Ok::<
                RelocsView,
                Fault,
            >(out@),
        decreases tables.relocs@.len() - i,
    {
        proof {
            assert(groups[i as int] == tables.relocs@[i as int]@);
            assert(tables@.relocs[i as int].section < tables@.sections.len());
            assert(groups.take(i + 1).drop_last() =~= groups.take(i as int));
            assert(groups.take(i + 1).last() == groups[i as int]);
        }
        match push_group(&mut out, &tables.relocs[i], tables, &percpu, link_base) {
            Ok(_) => {},
            Err(e) => {
                proof {
                    lemma_groups_fault(groups, i + 1, tables@, percpu, link_base);
                }
                return Err(e);
            },
        }
        i = i + 1;
    }
    assert(groups.take(groups.len() as int) =~= groups);
    Ok(out)
}

/// The KASLR relocation tables of an ELF file.
pub open spec fn elf_relocs(bytes: Seq<u8>) -> Result<RelocsView, Fault> {
    match crate::elf::elf_contents(bytes) {
        None => Err(crate::elf::not_elf()),
        Some(c) => if c.tables.relocs.len() == 0 {
            crate::appended::appended_relocs(c.program, c.tables.sections, bytes)
        } else {
            section_relocs(c.program, c.tables)
        },
    }
}

/// Extract the KASLR relocation tables from an x86 `vmlinux` ELF.
///
/// A `vmlinux` linked with `--emit-relocs` keeps its relocation sections, which
/// are walked. A stock distro kernel is stripped of them, but a relocatable one
/// has a `vmlinux.relocs` table appended after the image, which is read instead.
pub fn extract_relocs(bytes: &[u8]) -> (r: Result<Relocs, KernelError>)
    ensures
        match r {
            Ok(out) => elf_relocs(bytes@) == Ok::<RelocsView, Fault>(out@),
            Err(e) => elf_relocs(bytes@) == Err::<RelocsView, Fault>(e@),
        },
{
    let program: Program = match read_program(bytes) {
        Ok(program) => program,
        Err(e) => return Err(e),
    };
    let tables: Tables = match read_tables(bytes) {
        Ok(tables) => tables,
        Err(e) => return Err(e),
    };
    if tables.relocs.len() == 0 {
        return extract_appended_relocs(&program, tables.sections.as_slice(), bytes);
    }
    walk_relocs(&program, &tables)
}

/// A kernel without a per-CPU section at address 0 has no inverse relocations.
pub proof fn non_smp_kernel_has_no_inverse_sites(
    groups: Seq<RelocGroupView>,
    tables: TablesView,
    percpu: PerCpu,
    link_base: u64,
)
    requires
        percpu.shndx is None,
        all_sites(groups, tables, percpu, link_base) is Ok,
    ensures
        all_sites(groups, tables, percpu, link_base)->Ok_0.relocs32neg.len() == 0,
    decreases groups.len(),
{
    if groups.len() > 0 {
        non_smp_kernel_has_no_inverse_sites(groups.drop_last(), tables, percpu, link_base);
        let group = groups.last();
        let applies = tables.sections[group.section as int].sh_info as int;
        if group_sites(group, tables, percpu, link_base) != Ok::<RelocsView, Fault>(
            RelocsView::none(),
        ) {
            lemma_run_without_percpu(
                group.entries,
                tables.symbols,
                percpu,
                percpu.shndx == Some(applies as usize),
                link_base,
            );
        }
    }
}

/// Without a per-CPU section a run of entries has no inverse sites.
proof fn lemma_run_without_percpu(
    entries: Seq<Reloc>,
    symbols: Seq<SymbolView>,
    percpu: PerCpu,
    in_percpu: bool,
    link_base: u64,
)
    requires
        percpu.shndx is None,
        run_sites(entries, symbols, percpu, in_percpu, link_base) is Ok,
    ensures
        run_sites(entries, symbols, percpu, in_percpu, link_base)->Ok_0.relocs32neg.len() == 0,
    decreases entries.len(),
{
    if entries.len() > 0 {
        lemma_run_without_percpu(entries.drop_last(), symbols, percpu, in_percpu, link_base);
    }
}

/// The tables with one more entry in the last relocation section.
pub open spec fn with_entry(t: TablesView, e: Reloc) -> TablesView {
    TablesView {
        relocs: t.relocs.drop_last().push(
            RelocGroupView {
                section: t.relocs.last().section,
                entries: t.relocs.last().entries.push(e),
            },
        ),
        ..t
    }
}

/// The tables with one more relocation section, which is empty.
pub open spec fn with_section(t: TablesView, section: usize) -> TablesView {
    TablesView { relocs: t.relocs.push(RelocGroupView { section, entries: seq![] }), ..t }
}

/// Whether `name` is what the symbol is called; one without a name is called nothing.
pub open spec fn is_called(symbol: SymbolView, name: Seq<char>) -> bool {
    symbol.name == Some(name) || (symbol.name is None && name.len() == 0)
}

/// The section that the last relocation section applies to.
pub open spec fn applied(t: TablesView) -> int {
    t.sections[t.relocs.last().section as int].sh_info as int
}

/// What one more entry does to the tables extracted.
proof fn lemma_with_entry(program: ProgramView, t: TablesView, e: Reloc)
    requires
        t.relocs.len() > 0,
    ensures
        percpu_of(with_entry(t, e)) == percpu_of(t),
        section_relocs(program, t) is Err ==> section_relocs(program, with_entry(t, e))
            == section_relocs(program, t),
        section_relocs(program, t) is Ok ==> {
            let r = section_relocs(program, t)->Ok_0;
            let percpu = percpu_of(t)->Ok_0;
            let base = crate::elf::link_base(
                program.segments,
                crate::elf::span_of(program.segments)->Ok_0.min_paddr,
            )->0;
            &&& 0 <= applied(t) < t.sections.len()
            &&& if t.sections[applied(t)].sh_flags & SHF_ALLOC == 0
                || t.sections[applied(t)].sh_type == SHT_NOTE {
                section_relocs(program, with_entry(t, e)) == Ok::<RelocsView, Fault>(r)
            } else {
                match entry_sites(
                    e,
                    t.symbols,
                    percpu,
                    percpu.shndx == Some(applied(t) as usize),
                    base,
                ) {
                    Err(why) => section_relocs(program, with_entry(t, e)) == Err::<
                        RelocsView,
                        Fault,
                    >(why),
                    Ok(site) => section_relocs(program, with_entry(t, e)) == Ok::<
                        RelocsView,
                        Fault,
                    >(r.then_sites(site)),
                }
            }
        },
{
    let u = with_entry(t, e);
    let front = t.relocs.drop_last();
    assert(u.relocs.drop_last() =~= front);
    assert(u.relocs.last().entries.drop_last() =~= t.relocs.last().entries);
    if crate::elf::span_of(program.segments) is Ok && percpu_of(t) is Ok {
        let span = crate::elf::span_of(program.segments)->Ok_0;
        let percpu = percpu_of(t)->Ok_0;
        crate::elf::span_has_link_base(program.segments);
        let base = crate::elf::link_base(program.segments, span.min_paddr)->0;
        lemma_same_sections(front, t, u, percpu, base);
        let before = all_sites(front, t, percpu, base);
        if before is Ok && group_sites(t.relocs.last(), t, percpu, base) is Ok {
            let sites = group_sites(t.relocs.last(), t, percpu, base)->Ok_0;
            let in_percpu = percpu.shndx == Some(applied(t) as usize);
            let site = entry_sites(e, t.symbols, percpu, in_percpu, base);
            if site is Ok {
                assert(before->Ok_0.then_sites(sites.then_sites(site->Ok_0))
                    =~= before->Ok_0.then_sites(sites).then_sites(site->Ok_0));
            }
        }
    }
}

/// The sites depend on the sections and the symbols, not on the other relocation
/// sections.
proof fn lemma_same_sections(
    groups: Seq<RelocGroupView>,
    t: TablesView,
    u: TablesView,
    percpu: PerCpu,
    link_base: u64,
)
    requires
        t.sections == u.sections,
        t.symbols == u.symbols,
    ensures
        all_sites(groups, t, percpu, link_base) == all_sites(groups, u, percpu, link_base),
    decreases groups.len(),
{
    if groups.len() > 0 {
        lemma_same_sections(groups.drop_last(), t, u, percpu, link_base);
    }
}

/// An absolute reference, of 64 or 32 bits, to a genuine per-CPU variable holds an
/// offset and no address: it is patched in none of the tables.
pub proof fn percpu_references_are_not_patched(
    program: ProgramView,
    t: TablesView,
    e: Reloc,
    name: Seq<char>,
)
    requires
        t.relocs.len() > 0,
        section_relocs(program, t) is Ok,
        e.r_type == 1 || e.r_type == 10 || e.r_type == 11,
        e.r_sym < t.symbols.len(),
        is_called(t.symbols[e.r_sym as int], name),
        t.symbols[e.r_sym as int].st_shndx != 0xffff,
        percpu_of(t)->Ok_0.shndx == Some(t.symbols[e.r_sym as int].st_shndx),
        name != "__init_begin"@,
        name != "__per_cpu_load"@,
        !crate::text::begins_with(name, "init_per_cpu_"@),
    ensures
        section_relocs(program, with_entry(t, e)) == section_relocs(program, t),
{
    lemma_with_entry(program, t, e);
    lemma_no_more(section_relocs(program, t)->Ok_0);
    lemma_called(t.symbols[e.r_sym as int], name);
}

/// A symbol is called by its name.
proof fn lemma_called(symbol: SymbolView, name: Seq<char>)
    requires
        is_called(symbol, name),
    ensures
        symbol_name(symbol) == name,
{
    if symbol.name is None {
        assert(name =~= seq![]);
    }
}

/// No further sites leave the tables as they are.
proof fn lemma_no_more(r: RelocsView)
    ensures
        r.then_sites(RelocsView::none()) == r,
{
    assert(r.then_sites(RelocsView::none()) =~= r);
}

/// A PC-relative reference of 32 bits to a genuine per-CPU variable is patched by the
/// inverse table, and by no other, at its distance from the link base. The address of
/// an entry for the per-CPU section itself is counted from where that is loaded.
pub proof fn percpu_pc_references_are_patched_inversely(
    program: ProgramView,
    t: TablesView,
    e: Reloc,
    name: Seq<char>,
    va: int,
)
    requires
        t.relocs.len() > 0,
        section_relocs(program, t) is Ok,
        t.sections[applied(t)].sh_flags & 0x2 != 0,
        t.sections[applied(t)].sh_type != 7,
        e.r_type == 2 || e.r_type == 4 || e.r_type == 42,
        e.r_sym < t.symbols.len(),
        is_called(t.symbols[e.r_sym as int], name),
        t.symbols[e.r_sym as int].st_shndx != 0,
        t.symbols[e.r_sym as int].st_shndx != 0xffff,
        percpu_of(t)->Ok_0.shndx == Some(t.symbols[e.r_sym as int].st_shndx),
        name != "__init_begin"@,
        name != "__per_cpu_load"@,
        !crate::text::begins_with(name, "init_per_cpu_"@),
        va == if percpu_of(t)->Ok_0.shndx == Some(applied(t) as usize) {
            (e.r_offset + percpu_of(t)->Ok_0.load_addr) % 0x1_0000_0000_0000_0000
        } else {
            e.r_offset as int
        },
    ensures
        ({
            let r = section_relocs(program, t)->Ok_0;
            let base = crate::elf::link_base(
                program.segments,
                crate::elf::span_of(program.segments)->Ok_0.min_paddr,
            )->0;
            let after = section_relocs(program, with_entry(t, e));
            if base <= va <= base + 0xffff_ffff {
                &&& after is Ok
                &&& after->Ok_0.relocs64 == r.relocs64
                &&& after->Ok_0.relocs32 == r.relocs32
                &&& after->Ok_0.relocs32neg.len() == r.relocs32neg.len() + 1
                &&& after->Ok_0.relocs32neg.drop_last() == r.relocs32neg
                &&& base + after->Ok_0.relocs32neg.last() == va
            } else {
                after == Err::<RelocsView, Fault>(
                    Fault::ElfMalformed("reloc location outside image"@),
                )
            }
        }),
{
    lemma_with_entry(program, t, e);
    lemma_called(t.symbols[e.r_sym as int], name);
    let r = section_relocs(program, t)->Ok_0;
    let after = section_relocs(program, with_entry(t, e));
    if after is Ok {
        assert(after->Ok_0.relocs64 =~= r.relocs64);
        assert(after->Ok_0.relocs32 =~= r.relocs32);
        assert(after->Ok_0.relocs32neg.drop_last() =~= r.relocs32neg);
    }
}

/// A PC-relative reference to anything but a genuine per-CPU variable moves with what
/// it refers to, and is patched in none of the tables.
pub proof fn other_pc_references_are_not_patched(
    program: ProgramView,
    t: TablesView,
    e: Reloc,
    name: Seq<char>,
)
    requires
        t.relocs.len() > 0,
        section_relocs(program, t) is Ok,
        e.r_type == 2 || e.r_type == 4 || e.r_type == 42 || e.r_type == 24,
        e.r_sym < t.symbols.len(),
        is_called(t.symbols[e.r_sym as int], name),
        t.symbols[e.r_sym as int].st_shndx != 0xffff,
        percpu_of(t)->Ok_0.shndx != Some(t.symbols[e.r_sym as int].st_shndx) || name
            == "__init_begin"@ || name == "__per_cpu_load"@ || crate::text::begins_with(
            name,
            "init_per_cpu_"@,
        ),
    ensures
        section_relocs(program, with_entry(t, e)) == section_relocs(program, t),
{
    lemma_with_entry(program, t, e);
    lemma_no_more(section_relocs(program, t)->Ok_0);
    lemma_called(t.symbols[e.r_sym as int], name);
}

/// A PC-relative reference of 64 bits to a genuine per-CPU variable is refused.
pub proof fn long_percpu_pc_references_are_refused(
    program: ProgramView,
    t: TablesView,
    e: Reloc,
    name: Seq<char>,
)
    requires
        t.relocs.len() > 0,
        section_relocs(program, t) is Ok,
        t.sections[applied(t)].sh_flags & 0x2 != 0,
        t.sections[applied(t)].sh_type != 7,
        e.r_type == 24,
        e.r_sym < t.symbols.len(),
        is_called(t.symbols[e.r_sym as int], name),
        t.symbols[e.r_sym as int].st_shndx != 0,
        t.symbols[e.r_sym as int].st_shndx != 0xffff,
        percpu_of(t)->Ok_0.shndx == Some(t.symbols[e.r_sym as int].st_shndx),
        name != "__init_begin"@,
        name != "__per_cpu_load"@,
        !crate::text::begins_with(name, "init_per_cpu_"@),
    ensures
        section_relocs(program, with_entry(t, e)) == Err::<RelocsView, Fault>(
            Fault::ElfMalformed("R_X86_64_PC64 against per-CPU symbol"@),
        ),
{
    lemma_with_entry(program, t, e);
    lemma_called(t.symbols[e.r_sym as int], name);
}

/// An absolute reference to anything else that moves with the image is patched once,
/// at its distance from the link base: by the 64-bit table where it is of 64 bits, else
/// by the 32-bit table. The address of an entry for the per-CPU section itself is
/// counted from where that is loaded.
pub proof fn absolute_references_are_patched_once(
    program: ProgramView,
    t: TablesView,
    e: Reloc,
    name: Seq<char>,
    va: int,
)
    requires
        t.relocs.len() > 0,
        section_relocs(program, t) is Ok,
        t.sections[applied(t)].sh_flags & 0x2 != 0,
        t.sections[applied(t)].sh_type != 7,
        e.r_type == 1 || e.r_type == 10 || e.r_type == 11,
        e.r_sym < t.symbols.len(),
        is_called(t.symbols[e.r_sym as int], name),
        t.symbols[e.r_sym as int].st_shndx != 0,
        t.symbols[e.r_sym as int].st_shndx != 0xffff,
        percpu_of(t)->Ok_0.shndx != Some(t.symbols[e.r_sym as int].st_shndx) || name
            == "__init_begin"@ || name == "__per_cpu_load"@ || crate::text::begins_with(
            name,
            "init_per_cpu_"@,
        ),
        t.symbols[e.r_sym as int].st_shndx != 0xfff1 || moves_with_image(name),
        va == if percpu_of(t)->Ok_0.shndx == Some(applied(t) as usize) {
            (e.r_offset + percpu_of(t)->Ok_0.load_addr) % 0x1_0000_0000_0000_0000
        } else {
            e.r_offset as int
        },
    ensures
        ({
            let r = section_relocs(program, t)->Ok_0;
            let base = crate::elf::link_base(
                program.segments,
                crate::elf::span_of(program.segments)->Ok_0.min_paddr,
            )->0;
            let after = section_relocs(program, with_entry(t, e));
            if base <= va <= base + 0xffff_ffff {
                &&& after is Ok
                &&& after->Ok_0.relocs32neg == r.relocs32neg
                &&& if e.r_type == 1 {
                    &&& after->Ok_0.relocs32 == r.relocs32
                    &&& after->Ok_0.relocs64.len() == r.relocs64.len() + 1
                    &&& after->Ok_0.relocs64.drop_last() == r.relocs64
                    &&& base + after->Ok_0.relocs64.last() == va
                } else {
                    &&& after->Ok_0.relocs64 == r.relocs64
                    &&& after->Ok_0.relocs32.len() == r.relocs32.len() + 1
                    &&& after->Ok_0.relocs32.drop_last() == r.relocs32
                    &&& base + after->Ok_0.relocs32.last() == va
                }
            } else {
                after == Err::<RelocsView, Fault>(
                    Fault::ElfMalformed("reloc location outside image"@),
                )
            }
        }),
{
    lemma_with_entry(program, t, e);
    lemma_called(t.symbols[e.r_sym as int], name);
    let r = section_relocs(program, t)->Ok_0;
    let after = section_relocs(program, with_entry(t, e));
    if after is Ok {
        assert(after->Ok_0.relocs32neg =~= r.relocs32neg);
        if e.r_type == 1 {
            assert(after->Ok_0.relocs32 =~= r.relocs32);
            assert(after->Ok_0.relocs64.drop_last() =~= r.relocs64);
        } else {
            assert(after->Ok_0.relocs64 =~= r.relocs64);
            assert(after->Ok_0.relocs32.drop_last() =~= r.relocs32);
        }
    }
}

/// A reference to a true constant, absolute and not known to move with the image, is
/// patched in none of the tables.
pub proof fn constants_are_not_patched(
    program: ProgramView,
    t: TablesView,
    e: Reloc,
    name: Seq<char>,
)
    requires
        t.relocs.len() > 0,
        section_relocs(program, t) is Ok,
        e.r_type == 1 || e.r_type == 10 || e.r_type == 11,
        e.r_sym < t.symbols.len(),
        is_called(t.symbols[e.r_sym as int], name),
        t.symbols[e.r_sym as int].st_shndx == 0xfff1,
        !moves_with_image(name),
    ensures
        section_relocs(program, with_entry(t, e)) == section_relocs(program, t),
{
    lemma_with_entry(program, t, e);
    lemma_no_more(section_relocs(program, t)->Ok_0);
    lemma_called(t.symbols[e.r_sym as int], name);
}

/// An entry against an undefined symbol, whatever its type, and one of the type that
/// asks for nothing, are patched in none of the tables.
pub proof fn idle_entries_are_not_patched(program: ProgramView, t: TablesView, e: Reloc)
    requires
        t.relocs.len() > 0,
        section_relocs(program, t) is Ok,
        e.r_sym < t.symbols.len(),
        t.symbols[e.r_sym as int].st_shndx == 0 || (e.r_type == 0 && t.symbols[e.r_sym as int].st_shndx
            != 0xffff),
    ensures
        section_relocs(program, with_entry(t, e)) == section_relocs(program, t),
{
    lemma_with_entry(program, t, e);
    lemma_no_more(section_relocs(program, t)->Ok_0);
}

/// Entries for a section that is not allocated, or that is a note, are not looked at.
pub proof fn unloaded_sections_are_not_patched(program: ProgramView, t: TablesView, e: Reloc)
    requires
        t.relocs.len() > 0,
        section_relocs(program, t) is Ok,
        t.sections[applied(t)].sh_flags & 0x2 == 0 || t.sections[applied(t)].sh_type == 7,
    ensures
        section_relocs(program, with_entry(t, e)) == section_relocs(program, t),
{
    lemma_with_entry(program, t, e);
}

/// In an allocated section, an entry whose symbol is not there, one whose symbol keeps
/// its section elsewhere, and one of a type that is not known against a defined symbol
/// are refused, each for that.
pub proof fn malformed_entries_are_refused(program: ProgramView, t: TablesView, e: Reloc)
    requires
        t.relocs.len() > 0,
        section_relocs(program, t) is Ok,
        t.sections[applied(t)].sh_flags & 0x2 != 0,
        t.sections[applied(t)].sh_type != 7,
    ensures
        ({
            let after = section_relocs(program, with_entry(t, e));
            if e.r_sym >= t.symbols.len() {
                after == Err::<RelocsView, Fault>(
                    Fault::ElfMalformed("reloc symbol index out of range"@),
                )
            } else if t.symbols[e.r_sym as int].st_shndx == 0xffff {
                after == Err::<RelocsView, Fault>(
                    Fault::ElfMalformed("SHN_XINDEX symbols unsupported"@),
                )
            } else {
                t.symbols[e.r_sym as int].st_shndx != 0 && !seq![0u32, 1, 2, 4, 10, 11, 24, 42].contains(
                    e.r_type,
                ) ==> after == Err::<RelocsView, Fault>(
                    Fault::ElfMalformed("unsupported x86-64 relocation type"@),
                )
            }
        }),
{
    lemma_with_entry(program, t, e);
    let known = seq![0u32, 1, 2, 4, 10, 11, 24, 42];
    assert(known[0] == 0 && known[1] == 1 && known[2] == 2 && known[3] == 4 && known[4] == 10
        && known[5] == 11 && known[6] == 24 && known[7] == 42);
}

/// The first fault stays the fault, whatever entry or section comes behind it.
pub proof fn first_fault_is_reported(
    program: ProgramView,
    t: TablesView,
    e: Reloc,
    section: usize,
)
    requires
        section_relocs(program, t) is Err,
    ensures
        t.relocs.len() > 0 ==> section_relocs(program, with_entry(t, e)) == section_relocs(
            program,
            t,
        ),
        section_relocs(program, with_section(t, section)) == section_relocs(program, t),
{
    if t.relocs.len() > 0 {
        lemma_with_entry(program, t, e);
    }
    lemma_with_section(program, t, section);
}

/// What one more relocation section does to the tables extracted.
proof fn lemma_with_section(program: ProgramView, t: TablesView, section: usize)
    ensures
        section_relocs(program, t) is Err ==> section_relocs(program, with_section(t, section))
            == section_relocs(program, t),
        section_relocs(program, t) is Ok ==> section_relocs(program, with_section(t, section))
            == if t.sections[section as int].sh_info as int >= t.sections.len() {
            Err::<RelocsView, Fault>(Fault::ElfMalformed("reloc sh_info out of range"@))
        } else {
            section_relocs(program, t)
        },
{
    let u = with_section(t, section);
    assert(u.relocs.drop_last() =~= t.relocs);
    if crate::elf::span_of(program.segments) is Ok && percpu_of(t) is Ok {
        let span = crate::elf::span_of(program.segments)->Ok_0;
        let percpu = percpu_of(t)->Ok_0;
        crate::elf::span_has_link_base(program.segments);
        let base = crate::elf::link_base(program.segments, span.min_paddr)->0;
        lemma_same_sections(t.relocs, t, u, percpu, base);
        if section_relocs(program, t) is Ok {
            lemma_no_more(section_relocs(program, t)->Ok_0);
        }
    }
}

/// A relocation section without entries adds nothing, and is refused where the section
/// that it applies to is not there.
pub proof fn empty_sections_add_nothing(program: ProgramView, t: TablesView, section: usize)
    requires
        section_relocs(program, t) is Ok,
    ensures
        t.sections[section as int].sh_info < t.sections.len() ==> section_relocs(
            program,
            with_section(t, section),
        ) == section_relocs(program, t),
        t.sections[section as int].sh_info >= t.sections.len() ==> section_relocs(
            program,
            with_section(t, section),
        ) == Err::<RelocsView, Fault>(Fault::ElfMalformed("reloc sh_info out of range"@)),
{
    lemma_with_section(program, t, section);
}

/// Without relocation sections there is nothing to patch, and what is wrong with the
/// segments, and then with the per-CPU section, is reported.
pub proof fn extraction_begins_empty(program: ProgramView, t: TablesView)
    requires
        t.relocs.len() == 0,
    ensures
        match (crate::elf::span_of(program.segments), percpu_of(t)) {
            (Err(why), _) => section_relocs(program, t) == Err::<RelocsView, Fault>(why),
            (Ok(_), Err(why)) => section_relocs(program, t) == Err::<RelocsView, Fault>(why),
            (Ok(_), Ok(_)) => {
                &&& section_relocs(program, t) is Ok
                &&& section_relocs(program, t)->Ok_0.relocs32.len() == 0
                &&& section_relocs(program, t)->Ok_0.relocs32neg.len() == 0
                &&& section_relocs(program, t)->Ok_0.relocs64.len() == 0
            },
        },
{
    if crate::elf::span_of(program.segments) is Ok {
        crate::elf::span_has_link_base(program.segments);
    }
}

/// The first section called `.data..percpu` decides: at address 0 it is the per-CPU
/// section, loaded where the first symbol `__per_cpu_load` says, and refused without
/// one; anywhere else there is no per-CPU section.
pub proof fn first_percpu_section_decides(t: TablesView, i: int)
    requires
        0 <= i < t.sections.len() <= usize::MAX,
        t.sections[i].name == Some(".data..percpu"@),
        forall|j: int| 0 <= j < i ==> (#[trigger] t.sections[j]).name != Some(".data..percpu"@),
    ensures
        t.sections[i].sh_addr != 0 ==> {
            &&& percpu_of(t) is Ok
            &&& percpu_of(t)->Ok_0.shndx is None
            &&& percpu_of(t)->Ok_0.load_addr == 0
        },
        t.sections[i].sh_addr == 0 ==> forall|k: int|
            {
                &&& 0 <= k < t.symbols.len()
                &&& (#[trigger] t.symbols[k]).name == Some("__per_cpu_load"@)
                &&& forall|j: int|
                    0 <= j < k ==> (#[trigger] t.symbols[j]).name != Some("__per_cpu_load"@)
            } ==> {
                &&& percpu_of(t) is Ok
                &&& percpu_of(t)->Ok_0.shndx is Some
                &&& percpu_of(t)->Ok_0.shndx->0 == i
                &&& percpu_of(t)->Ok_0.load_addr == t.symbols[k].st_value
            },
        t.sections[i].sh_addr == 0 && (forall|k: int|
            0 <= k < t.symbols.len() ==> (#[trigger] t.symbols[k]).name != Some("__per_cpu_load"@))
            ==> percpu_of(t) == Err::<PerCpu, Fault>(
            Fault::ElfMalformed("percpu section but no __per_cpu_load"@),
        ),
{
    let named = |i: int| t.sections[i].name == Some(".data..percpu"@);
    crate::bytes::lemma_least_is(t.sections.len() as int, named, i);
    let load = |i: int| t.symbols[i].name == Some("__per_cpu_load"@);
    let n = t.symbols.len() as int;
    assert forall|k: int|
        {
            &&& 0 <= k < n
            &&& (#[trigger] t.symbols[k]).name == Some("__per_cpu_load"@)
            &&& forall|j: int|
                0 <= j < k ==> (#[trigger] t.symbols[j]).name != Some("__per_cpu_load"@)
        } implies percpu_load_symbol(t.symbols) == Some(k) by {
        crate::bytes::lemma_least_is(n, load, k);
    }
    if forall|k: int|
        0 <= k < n ==> (#[trigger] t.symbols[k]).name != Some("__per_cpu_load"@) {
        crate::bytes::lemma_least_none(n, load);
    }
}

/// Without a section called `.data..percpu` there is no per-CPU section.
pub proof fn no_percpu_section_is_no_fault(t: TablesView)
    requires
        forall|j: int|
            0 <= j < t.sections.len() ==> (#[trigger] t.sections[j]).name != Some(
                ".data..percpu"@,
            ),
    ensures
        percpu_of(t) is Ok,
        percpu_of(t)->Ok_0.shndx is None,
        percpu_of(t)->Ok_0.load_addr == 0,
{
    let named = |i: int| t.sections[i].name == Some(".data..percpu"@);
    crate::bytes::lemma_least_none(t.sections.len() as int, named);
}

/// A symbol is a genuine per-CPU variable exactly where it lies in the per-CPU section
/// and is none of the boundary and init symbols that only seem to.
pub proof fn percpu_variables_lie_in_percpu_section(
    st_shndx: usize,
    name: Seq<char>,
    percpu: PerCpu,
)
    ensures
        percpu_symbol(st_shndx, name, percpu) <==> percpu.shndx is Some && percpu.shndx->0
            == st_shndx && !(name == "__init_begin"@ || name == "__per_cpu_load"@
            || crate::text::begins_with(name, "init_per_cpu_"@)),
{
}

/// The absolute symbols that move with the image: the boundaries that the linker script
/// defines outside any section.
pub proof fn linker_boundaries_move()
    ensures
        moves_with_image("__init_begin"@) && moves_with_image("__init_end"@),
        moves_with_image("__x86_cpu_dev_start"@) && moves_with_image("__x86_cpu_dev_end"@),
        moves_with_image("__parainstructions"@) && moves_with_image("__parainstructions_end"@),
        moves_with_image("__alt_instructions"@) && moves_with_image("__alt_instructions_end"@),
        moves_with_image("__iommu_table"@) && moves_with_image("__iommu_table_end"@),
        moves_with_image("__apicdrivers"@) && moves_with_image("__apicdrivers_end"@),
        moves_with_image("__smp_locks"@) && moves_with_image("__smp_locks_end"@),
        moves_with_image("__start_builtin_fw"@) && moves_with_image("__end_builtin_fw"@),
        moves_with_image("__start___ksymtab"@) && moves_with_image("__stop___ksymtab"@),
        moves_with_image("__start___ksymtab_gpl"@) && moves_with_image("__stop___ksymtab_gpl"@),
        moves_with_image("__start___kcrctab"@) && moves_with_image("__stop___kcrctab"@),
        moves_with_image("__start___kcrctab_gpl"@) && moves_with_image("__stop___kcrctab_gpl"@),
        moves_with_image("__start___param"@) && moves_with_image("__stop___param"@),
        moves_with_image("__start___modver"@) && moves_with_image("__stop___modver"@),
        moves_with_image("__start___bug_table"@) && moves_with_image("__stop___bug_table"@),
        moves_with_image("__tracedata_start"@) && moves_with_image("__tracedata_end"@),
        moves_with_image("__start_notes"@) && moves_with_image("__stop_notes"@),
        moves_with_image("__end_rodata"@) && moves_with_image("__end_rodata_aligned"@),
        moves_with_image("__end_rodata_hpage_align"@) && moves_with_image("__initramfs_start"@),
        moves_with_image("jiffies"@) && moves_with_image("jiffies_64"@),
        moves_with_image("__per_cpu_load"@) && moves_with_image("__vvar_page"@),
        moves_with_image("_end"@),
{
}

/// Every symbol of a PCI fixup table boundary, and every initial per-CPU symbol, moves
/// with the image.
pub proof fn fixup_and_init_symbols_move(name: Seq<char>)
    requires
        crate::text::begins_with(name, "__start_pci_"@) || crate::text::begins_with(
            name,
            "__end_pci_"@,
        ) || crate::text::begins_with(name, "init_per_cpu__"@),
    ensures
        moves_with_image(name),
{
}

/// No absolute symbol but these boundaries, the PCI fixup table boundaries and the
/// initial per-CPU symbols is known to move with the image.
pub proof fn other_names_do_not_move(name: Seq<char>)
    requires
        moves_with_image(name),
        !crate::text::begins_with(name, "__start_pci_"@),
        !crate::text::begins_with(name, "__end_pci_"@),
        !crate::text::begins_with(name, "init_per_cpu__"@),
    ensures
        seq![
            "__init_begin"@, "__init_end"@, "__x86_cpu_dev_start"@, "__x86_cpu_dev_end"@,
            "__parainstructions"@, "__parainstructions_end"@, "__alt_instructions"@,
            "__alt_instructions_end"@, "__iommu_table"@, "__iommu_table_end"@, "__apicdrivers"@,
            "__apicdrivers_end"@, "__smp_locks"@, "__smp_locks_end"@, "__start_builtin_fw"@,
            "__end_builtin_fw"@, "__start___ksymtab"@, "__stop___ksymtab"@,
            "__start___ksymtab_gpl"@, "__stop___ksymtab_gpl"@, "__start___kcrctab"@,
            "__stop___kcrctab"@, "__start___kcrctab_gpl"@, "__stop___kcrctab_gpl"@,
            "__start___param"@, "__stop___param"@, "__start___modver"@, "__stop___modver"@,
            "__start___bug_table"@, "__stop___bug_table"@, "__tracedata_start"@,
            "__tracedata_end"@, "__start_notes"@, "__stop_notes"@, "__end_rodata"@,
            "__end_rodata_aligned"@, "__initramfs_start"@, "jiffies"@, "jiffies_64"@,
            "__per_cpu_load"@, "__end_rodata_hpage_align"@, "__vvar_page"@, "_end"@,
        ].contains(name),
{
    let known = seq![
        "__init_begin"@, "__init_end"@, "__x86_cpu_dev_start"@, "__x86_cpu_dev_end"@,
        "__parainstructions"@, "__parainstructions_end"@, "__alt_instructions"@,
        "__alt_instructions_end"@, "__iommu_table"@, "__iommu_table_end"@, "__apicdrivers"@,
        "__apicdrivers_end"@, "__smp_locks"@, "__smp_locks_end"@, "__start_builtin_fw"@,
        "__end_builtin_fw"@, "__start___ksymtab"@, "__stop___ksymtab"@,
        "__start___ksymtab_gpl"@, "__stop___ksymtab_gpl"@, "__start___kcrctab"@,
        "__stop___kcrctab"@, "__start___kcrctab_gpl"@, "__stop___kcrctab_gpl"@,
        "__start___param"@, "__stop___param"@, "__start___modver"@, "__stop___modver"@,
        "__start___bug_table"@, "__stop___bug_table"@, "__tracedata_start"@,
        "__tracedata_end"@, "__start_notes"@, "__stop_notes"@, "__end_rodata"@,
        "__end_rodata_aligned"@, "__initramfs_start"@, "jiffies"@, "jiffies_64"@,
        "__per_cpu_load"@, "__end_rodata_hpage_align"@, "__vvar_page"@, "_end"@,
    ];
    if !known.contains(name) {
        assert forall|i: int| 0 <= i < known.len() implies name != #[trigger] known[i] by {}
        assert(name != known[0] && name != known[1] && name != known[2] && name != known[3]
            && name != known[4] && name != known[5] && name != known[6] && name != known[7] && name
            != known[8] && name != known[9] && name != known[10] && name != known[11] && name
            != known[12] && name != known[13] && name != known[14] && name != known[15] && name
            != known[16] && name != known[17] && name != known[18] && name != known[19] && name
            != known[20] && name != known[21] && name != known[22] && name != known[23] && name
            != known[24] && name != known[25] && name != known[26] && name != known[27] && name
            != known[28] && name != known[29] && name != known[30] && name != known[31] && name
            != known[32] && name != known[33] && name != known[34] && name != known[35] && name
            != known[36] && name != known[37] && name != known[38] && name != known[39] && name
            != known[40] && name != known[41] && name != known[42]);
    }
}

/// A file with relocation sections is relocated by them, one without by what is appended
/// to it, and one that does not parse is refused.
pub proof fn files_are_relocated_by_their_sections(bytes: Seq<u8>)
    ensures
        match crate::elf::elf_contents(bytes) {
            None => elf_relocs(bytes) == Err::<RelocsView, Fault>(
                Fault::ElfMalformed("goblin parse failed"@),
            ),
            Some(c) => if c.tables.relocs.len() > 0 {
                elf_relocs(bytes) == section_relocs(c.program, c.tables)
            } else {
                elf_relocs(bytes) == crate::appended::appended_relocs(
                    c.program,
                    c.tables.sections,
                    bytes,
                )
            },
        },
{
}

/// What is extracted is seen table by table, and there are no relocations exactly where
/// all three tables are empty.
pub proof fn tables_are_seen_apart(r: Relocs)
    ensures
        r@.relocs32 == r.relocs32@,
        r@.relocs32neg == r.relocs32neg@,
        r@.relocs64 == r.relocs64@,
        r@ == RelocsView::none() <==> r.relocs32@.len() == 0 && r.relocs32neg@.len() == 0
            && r.relocs64@.len() == 0,
{
    if r.relocs32@.len() == 0 && r.relocs32neg@.len() == 0 && r.relocs64@.len() == 0 {
        assert(r@ =~= RelocsView::none());
    }
}

} // verus!
