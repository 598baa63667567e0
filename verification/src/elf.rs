//! The parts of an ELF file that the kernel handling reads, as plain values.
use goblin::elf::Elf;
use vstd::prelude::*;

use crate::error::{Fault, KernelError};

verus! {

/// Program header type of a loadable segment.
pub const PT_LOAD: u32 = 1;

/// `e_machine` of an x86-64 ELF.
pub const EM_X86_64: u16 = 62;

/// One program header.
#[derive(Debug, Clone, Copy, PartialEq, Eq, Structural)]
pub struct Segment {
    pub p_type: u32,
    pub p_offset: u64,
    pub p_vaddr: u64,
    pub p_paddr: u64,
    pub p_filesz: u64,
    pub p_memsz: u64,
}

/// The ELF header fields and the program headers.
#[derive(Debug)]
pub struct Program {
    pub is_64: bool,
    pub e_machine: u16,
    pub entry: u64,
    pub e_shoff: u64,
    pub e_shnum: u16,
    pub e_shentsize: u16,
    pub segments: Vec<Segment>,
}

/// One section header. The name is absent where the section name table has no
/// string for it.
#[derive(Debug)]
pub struct Section {
    pub name: Option<String>,
    pub sh_type: u32,
    pub sh_flags: u64,
    pub sh_addr: u64,
    pub sh_offset: u64,
    pub sh_size: u64,
    pub sh_info: u32,
}

/// One symbol. The name is absent where the string table has no string for it.
#[derive(Debug)]
pub struct Symbol {
    pub name: Option<String>,
    pub st_shndx: usize,
    pub st_value: u64,
}

/// One relocation entry.
#[derive(Debug, Clone, Copy, PartialEq, Eq, Structural)]
pub struct Reloc {
    pub r_offset: u64,
    pub r_sym: usize,
    pub r_type: u32,
}

/// The relocation entries of one section, with that section's index.
#[derive(Debug)]
pub struct RelocGroup {
    pub section: usize,
    pub entries: Vec<Reloc>,
}

/// The sections, the symbols and the relocation sections.
#[derive(Debug)]
pub struct Tables {
    pub sections: Vec<Section>,
    pub symbols: Vec<Symbol>,
    pub relocs: Vec<RelocGroup>,
}

/// What a [`Program`] holds.
pub struct ProgramView {
    pub is_64: bool,
    pub e_machine: u16,
    pub entry: u64,
    pub e_shoff: u64,
    pub e_shnum: u16,
    pub e_shentsize: u16,
    pub segments: Seq<Segment>,
}

/// What a [`Section`] holds.
pub struct SectionView {
    pub name: Option<Seq<char>>,
    pub sh_type: u32,
    pub sh_flags: u64,
    pub sh_addr: u64,
    pub sh_offset: u64,
    pub sh_size: u64,
    pub sh_info: u32,
}

/// What a [`Symbol`] holds.
pub struct SymbolView {
    pub name: Option<Seq<char>>,
    pub st_shndx: usize,
    pub st_value: u64,
}

/// What a [`RelocGroup`] holds.
pub struct RelocGroupView {
    pub section: usize,
    pub entries: Seq<Reloc>,
}

/// What [`Tables`] hold.
pub struct TablesView {
    pub sections: Seq<SectionView>,
    pub symbols: Seq<SymbolView>,
    pub relocs: Seq<RelocGroupView>,
}

/// Everything read out of an ELF file.
pub struct ElfView {
    pub program: ProgramView,
    pub tables: TablesView,
}

impl View for Program {
    type V = ProgramView;

    open spec fn view(&self) -> ProgramView {
        ProgramView {
            is_64: self.is_64,
            e_machine: self.e_machine,
            entry: self.entry,
            e_shoff: self.e_shoff,
            e_shnum: self.e_shnum,
            e_shentsize: self.e_shentsize,
            segments: self.segments@,
        }
    }
}

/// The characters of a name that may be absent.
pub open spec fn name_view(name: Option<String>) -> Option<Seq<char>> {
    match name {
        Some(s) => Some(s@),
        None => None,
    }
}

impl View for Section {
    type V = SectionView;

    open spec fn view(&self) -> SectionView {
        SectionView {
            name: name_view(self.name),
            sh_type: self.sh_type,
            sh_flags: self.sh_flags,
            sh_addr: self.sh_addr,
            sh_offset: self.sh_offset,
            sh_size: self.sh_size,
            sh_info: self.sh_info,
        }
    }
}

impl View for Symbol {
    type V = SymbolView;

    open spec fn view(&self) -> SymbolView {
        SymbolView { name: name_view(self.name), st_shndx: self.st_shndx, st_value: self.st_value }
    }
}

impl View for RelocGroup {
    type V = RelocGroupView;

    open spec fn view(&self) -> RelocGroupView {
        RelocGroupView { section: self.section, entries: self.entries@ }
    }
}

impl View for Tables {
    type V = TablesView;

    open spec fn view(&self) -> TablesView {
        TablesView {
            sections: sections_view(self.sections@),
            symbols: symbols_view(self.symbols@),
            relocs: groups_view(self.relocs@),
        }
    }
}

/// What each of the sections holds.
pub open spec fn sections_view(s: Seq<Section>) -> Seq<SectionView> {
    s.map_values(|x: Section| x@)
}

/// What each of the symbols holds.
pub open spec fn symbols_view(s: Seq<Symbol>) -> Seq<SymbolView> {
    s.map_values(|x: Symbol| x@)
}

/// What each of the relocation groups holds.
pub open spec fn groups_view(s: Seq<RelocGroup>) -> Seq<RelocGroupView> {
    s.map_values(|x: RelocGroup| x@)
}

impl TablesView {
    /// Every relocation group belongs to one of the sections.
    pub open spec fn well_formed(self) -> bool {
        forall|i: int|
            0 <= i < self.relocs.len() ==> (#[trigger] self.relocs[i]).section
                < self.sections.len()
    }
}

/// What `goblin::elf::Elf::parse` reads out of `bytes`; none where it rejects
/// them. goblin narrows file offsets and the entry point to `usize`, so this is for
/// a given pointer width, and what is claimed of the call is claimed for 64 bits.
pub uninterp spec fn elf_contents(bytes: Seq<u8>) -> Option<ElfView>;

/// `goblin::error::Error`, the reason why a file is no ELF file.
#[verifier::external_type_specification]
#[verifier::external_body]
pub struct ExGoblinError(goblin::error::Error);

/// Calls `goblin::elf::Elf::parse` and moves out the header fields and the
/// program headers. The contract claims that they are a function of the bytes
/// alone, and that the call fails exactly where nothing can be read.
#[verifier::external_body]
fn parse_program(bytes: &[u8]) -> (r: Result<Program, goblin::error::Error>)
    ensures
        match r {
            Ok(p) => elf_contents(bytes@) is Some && elf_contents(bytes@)->0.program == p@,
            Err(_) => elf_contents(bytes@) is None,
        },
{
    let elf = Elf::parse(bytes)?;
    let load = |p: &goblin::elf::ProgramHeader| Segment {
        p_type: p.p_type,
        p_offset: p.p_offset,
        p_vaddr: p.p_vaddr,
        p_paddr: p.p_paddr,
        p_filesz: p.p_filesz,
        p_memsz: p.p_memsz,
    };
    let h = elf.header;
    let segments = elf.program_headers.iter().map(load).collect();
    let (e_machine, e_shoff, e_shnum, e_shentsize) = (h.e_machine, h.e_shoff, h.e_shnum, h.e_shentsize);
    Ok(Program { is_64: elf.is_64, e_machine, entry: elf.entry, e_shoff, e_shnum, e_shentsize, segments })
}

/// Calls `goblin::elf::Elf::parse` and moves out the section headers, each with
/// the name that `goblin::strtab::Strtab::get_at` gives it. The contract
/// claims that they are a function of the bytes alone, and that the call fails
/// exactly where nothing can be read.
#[verifier::external_body]
fn parse_sections(bytes: &[u8]) -> (r: Result<Vec<Section>, goblin::error::Error>)
    ensures
        match r {
            Ok(s) => elf_contents(bytes@) is Some && elf_contents(bytes@)->0.tables.sections
                == sections_view(s@),
            Err(_) => elf_contents(bytes@) is None,
        },
{
    let elf = Elf::parse(bytes)?;
    let section = |s: &goblin::elf::SectionHeader| Section {
        name: elf.shdr_strtab.get_at(s.sh_name).map(str::to_owned),
        sh_type: s.sh_type,
        sh_flags: s.sh_flags,
        sh_addr: s.sh_addr,
        sh_offset: s.sh_offset,
        sh_size: s.sh_size,
        sh_info: s.sh_info,
    };
    Ok(elf.section_headers.iter().map(section).collect())
}

/// Calls `goblin::elf::Elf::parse` and moves out the symbols, each with the
/// name that `goblin::strtab::Strtab::get_at` gives it, and the relocation
/// sections. The contract claims that they are a function of the bytes alone,
/// that the call fails exactly where nothing can be read, and that each
/// relocation section carries the index of a section header: goblin pairs the
/// relocations with the index of the header that it read them from.
#[verifier::external_body]
fn parse_symbols(bytes: &[u8]) -> (r: Result<
    (Vec<Symbol>, Vec<RelocGroup>),
    goblin::error::Error,
>)
    ensures
        match r {
            Ok((symbols, relocs)) => {
                &&& elf_contents(bytes@) is Some
                &&& elf_contents(bytes@)->0.tables.symbols == symbols_view(symbols@)
                &&& elf_contents(bytes@)->0.tables.relocs == groups_view(relocs@)
                &&& elf_contents(bytes@)->0.tables.well_formed()
            },
            Err(_) => elf_contents(bytes@) is None,
        },
{
    let elf = Elf::parse(bytes)?;
    let symbol = |s: goblin::elf::Sym| Symbol {
        name: elf.strtab.get_at(s.st_name).map(str::to_owned),
        st_shndx: s.st_shndx,
        st_value: s.st_value,
    };
    let entry = |r: goblin::elf::Reloc| Reloc { r_offset: r.r_offset, r_sym: r.r_sym, r_type: r.r_type };
    let group = |g: &(usize, goblin::elf::RelocSection)| RelocGroup {
        section: g.0,
        entries: g.1.iter().map(entry).collect(),
    };
    Ok((elf.syms.iter().map(symbol).collect(), elf.shdr_relocs.iter().map(group).collect()))
}

/// The error for a file that is no ELF file.
pub open spec fn not_elf() -> Fault {
    Fault::ElfMalformed("goblin parse failed"@)
}

/// Reads the ELF header fields and the program headers.
pub fn read_program(bytes: &[u8]) -> (r: Result<Program, KernelError>)
    ensures
        match r {
            Ok(p) => elf_contents(bytes@) is Some && elf_contents(bytes@)->0.program == p@,
            Err(e) => elf_contents(bytes@) is None && e@ == not_elf(),
        },
{
    match parse_program(bytes) {
        Ok(p) => Ok(p),
        Err(_) => Err(KernelError::ElfMalformed("goblin parse failed")),
    }
}

/// Reads the sections, the symbols and the relocation sections.
pub fn read_tables(bytes: &[u8]) -> (r: Result<Tables, KernelError>)
    ensures
        match r {
            Ok(t) => {
                &&& elf_contents(bytes@) is Some
                &&& elf_contents(bytes@)->0.tables == t@
                &&& t@.well_formed()
            },
            Err(e) => elf_contents(bytes@) is None && e@ == not_elf(),
        },
{
    let sections: Vec<Section> = match parse_sections(bytes) {
        Ok(s) => s,
        Err(_) => return Err(KernelError::ElfMalformed("goblin parse failed")),
    };
    match parse_symbols(bytes) {
        Ok((symbols, relocs)) => Ok(Tables { sections, symbols, relocs }),
        Err(_) => Err(KernelError::ElfMalformed("goblin parse failed")),
    }
}

/// Whether the segment takes up memory in the loaded image.
pub open spec fn is_loaded(s: Segment) -> bool {
    s.p_type == PT_LOAD && s.p_memsz != 0
}

/// Lowest `p_paddr` over the loaded segments.
pub open spec fn lowest_paddr(segments: Seq<Segment>) -> int
    decreases segments.len(),
{
    if segments.len() == 0 {
        u64::MAX as int
    } else {
        let rest = lowest_paddr(segments.drop_last());
        let s = segments.last();
        if is_loaded(s) && s.p_paddr < rest {
            s.p_paddr as int
        } else {
            rest
        }
    }
}

/// Highest `p_paddr + p_filesz` over the loaded segments.
pub open spec fn highest_file_end(segments: Seq<Segment>) -> int
    decreases segments.len(),
{
    if segments.len() == 0 {
        0
    } else {
        let rest = highest_file_end(segments.drop_last());
        let s = segments.last();
        if is_loaded(s) && s.p_paddr + s.p_filesz > rest {
            s.p_paddr + s.p_filesz
        } else {
            rest
        }
    }
}

/// Highest `p_paddr + p_memsz` over the loaded segments.
pub open spec fn highest_mem_end(segments: Seq<Segment>) -> int
    decreases segments.len(),
{
    if segments.len() == 0 {
        0
    } else {
        let rest = highest_mem_end(segments.drop_last());
        let s = segments.last();
        if is_loaded(s) && s.p_paddr + s.p_memsz > rest {
            s.p_paddr + s.p_memsz
        } else {
            rest
        }
    }
}

/// The physical span of an ELF's loadable segments.
#[derive(Debug, Clone, Copy, PartialEq, Eq, Structural)]
pub struct ElfSpan {
    /// Lowest `p_paddr` across the loaded segments: the image's load base.
    pub min_paddr: u64,
    /// Highest `p_paddr + p_filesz`: end of the file-backed prefix.
    pub max_file_end: u64,
    /// Highest `p_paddr + p_memsz`: end of the runtime image (incl. BSS).
    pub max_mem_end: u64,
}

/// Whether the segment is loaded and its end exceeds the address space.
pub open spec fn overflows(s: Segment) -> bool {
    is_loaded(s) && (s.p_paddr + s.p_filesz > u64::MAX || s.p_paddr + s.p_memsz > u64::MAX)
}

/// The span of the loaded segments, or why there is none: the first segment
/// whose end exceeds the address space, else that no segment is loaded.
pub open spec fn span_of(segments: Seq<Segment>) -> Result<ElfSpan, Fault> {
    match crate::bytes::least(segments.len() as int, |i: int| overflows(segments[i])) {
        Some(i) => if segments[i].p_paddr + segments[i].p_filesz > u64::MAX {
            Err(Fault::ElfMalformed("p_paddr + p_filesz overflows"@))
        } else {
            Err(Fault::ElfMalformed("p_paddr + p_memsz overflows"@))
        },
        None => if exists|i: int| 0 <= i < segments.len() && is_loaded(#[trigger] segments[i]) {
            Ok(
                ElfSpan {
                    min_paddr: lowest_paddr(segments) as u64,
                    max_file_end: highest_file_end(segments) as u64,
                    max_mem_end: highest_mem_end(segments) as u64,
                },
            )
        } else {
            Err(Fault::ElfMalformed("no PT_LOAD segments"@))
        },
    }
}

/// The lowest address and the highest ends bound every loaded segment, and
/// where a segment is loaded each of the three is that of some loaded segment.
pub proof fn lemma_span_bounds(segments: Seq<Segment>)
    ensures
        forall|i: int|
            0 <= i < segments.len() && is_loaded(#[trigger] segments[i]) ==> {
                &&& lowest_paddr(segments) <= segments[i].p_paddr
                &&& segments[i].p_paddr + segments[i].p_filesz <= highest_file_end(segments)
                &&& segments[i].p_paddr + segments[i].p_memsz <= highest_mem_end(segments)
            },
        (exists|i: int| 0 <= i < segments.len() && is_loaded(#[trigger] segments[i])) ==> {
            &&& exists|i: int|
                #![trigger segments[i]]
                0 <= i < segments.len() && is_loaded(segments[i]) && segments[i].p_paddr
                    == lowest_paddr(segments)
            &&& exists|i: int|
                #![trigger segments[i]]
                0 <= i < segments.len() && is_loaded(segments[i]) && segments[i].p_paddr
                    + segments[i].p_filesz == highest_file_end(segments)
            &&& exists|i: int|
                #![trigger segments[i]]
                0 <= i < segments.len() && is_loaded(segments[i]) && segments[i].p_paddr
                    + segments[i].p_memsz == highest_mem_end(segments)
        },
        0 <= lowest_paddr(segments) <= u64::MAX,
        0 <= highest_file_end(segments),
        0 <= highest_mem_end(segments),
        (forall|i: int| 0 <= i < segments.len() ==> !overflows(#[trigger] segments[i])) ==> {
            &&& highest_file_end(segments) <= u64::MAX
            &&& highest_mem_end(segments) <= u64::MAX
        },
    decreases segments.len(),
{
    if segments.len() > 0 {
        let rest = segments.drop_last();
        lemma_span_bounds(rest);
        assert forall|i: int| 0 <= i < segments.len() && is_loaded(#[trigger] segments[i]) implies {
            &&& lowest_paddr(segments) <= segments[i].p_paddr
            &&& segments[i].p_paddr + segments[i].p_filesz <= highest_file_end(segments)
            &&& segments[i].p_paddr + segments[i].p_memsz <= highest_mem_end(segments)
        } by {
            if i < rest.len() {
                assert(rest[i] == segments[i]);
            }
        }
        if forall|i: int| 0 <= i < segments.len() ==> !overflows(#[trigger] segments[i]) {
            assert forall|i: int| 0 <= i < rest.len() implies !overflows(#[trigger] rest[i]) by {
                assert(rest[i] == segments[i]);
            }
            assert(!overflows(segments[segments.len() - 1]));
        }
        if exists|i: int| 0 <= i < segments.len() && is_loaded(#[trigger] segments[i]) {
            let last = segments.len() - 1;
            assert(segments[last] == segments.last());
            if exists|i: int| 0 <= i < rest.len() && is_loaded(#[trigger] rest[i]) {
                let a = choose|i: int|
                    #![trigger rest[i]]
                    0 <= i < rest.len() && is_loaded(rest[i]) && rest[i].p_paddr == lowest_paddr(
                        rest,
                    );
                assert(segments[a] == rest[a]);
                let b = choose|i: int|
                    #![trigger rest[i]]
                    0 <= i < rest.len() && is_loaded(rest[i]) && rest[i].p_paddr + rest[i].p_filesz
                        == highest_file_end(rest);
                assert(segments[b] == rest[b]);
                let c = choose|i: int|
                    #![trigger rest[i]]
                    0 <= i < rest.len() && is_loaded(rest[i]) && rest[i].p_paddr + rest[i].p_memsz
                        == highest_mem_end(rest);
                assert(segments[c] == rest[c]);
            } else {
                lemma_span_without_loads(rest);
                let w = choose|i: int| 0 <= i < segments.len() && is_loaded(#[trigger] segments[i]);
                if w < rest.len() {
                    assert(is_loaded(rest[w]));
                }
            }
        }
    }
}

/// Where no segment is loaded the bounds keep their starting values.
proof fn lemma_span_without_loads(segments: Seq<Segment>)
    requires
        forall|i: int| 0 <= i < segments.len() ==> !is_loaded(#[trigger] segments[i]),
    ensures
        lowest_paddr(segments) == u64::MAX,
        highest_file_end(segments) == 0,
        highest_mem_end(segments) == 0,
    decreases segments.len(),
{
    if segments.len() > 0 {
        assert forall|i: int| 0 <= i < segments.drop_last().len() implies !is_loaded(
            #[trigger] segments.drop_last()[i],
        ) by {
            assert(segments.drop_last()[i] == segments[i]);
        }
        lemma_span_without_loads(segments.drop_last());
        assert(!is_loaded(segments[segments.len() - 1]));
    }
}

/// Compute the loadable span over all non-empty `PT_LOAD` segments.
pub fn elf_span(segments: &[Segment]) -> (r: Result<ElfSpan, KernelError>)
    ensures
        match r {
            Ok(span) => span_of(segments@) == Ok::<ElfSpan, Fault>(span),
            Err(e) => span_of(segments@) == Err::<ElfSpan, Fault>(e@),
        },
{
    let ghost over = |i: int| overflows(segments@[i]);
    let mut min_paddr: u64 = u64::MAX;
    let mut max_file_end: u64 = 0;
    let mut max_mem_end: u64 = 0;
    let mut any: bool = false;
    let mut i: usize = 0;
    while i < segments.len()
        invariant
            i <= segments@.len(),
            over == (|i: int| overflows(segments@[i])),
            min_paddr == lowest_paddr(segments@.take(i as int)),
            max_file_end == highest_file_end(segments@.take(i as int)),
            max_mem_end == highest_mem_end(segments@.take(i as int)),
            any == exists|j: int| 0 <= j < i && is_loaded(#[trigger] segments@[j]),
            forall|j: int| 0 <= j < i ==> !#[trigger] overflows(segments@[j]),
        decreases segments@.len() - i,
    {
        let p: Segment = segments[i];
        assert(segments@.take(i + 1).drop_last() =~= segments@.take(i as int));
        assert(segments@.take(i + 1).last() == p);
        if p.p_type != PT_LOAD || p.p_memsz == 0 {
            i = i + 1;
            continue;
        }
        any = true;
        assert(is_loaded(segments@[i as int]));
        if p.p_paddr < min_paddr {
            min_paddr = p.p_paddr;
        }
        let file_end: u64 = match p.p_paddr.checked_add(p.p_filesz) {
            Some(e) => e,
            None => {
                proof {
                    crate::bytes::lemma_least_is(segments@.len() as int, over, i as int);
                }
                return Err(KernelError::ElfMalformed("p_paddr + p_filesz overflows"));
            },
        };
        let mem_end: u64 = match p.p_paddr.checked_add(p.p_memsz) {
            Some(e) => e,
            None => {
                proof {
                    crate::bytes::lemma_least_is(segments@.len() as int, over, i as int);
                }
                return Err(KernelError::ElfMalformed("p_paddr + p_memsz overflows"));
            },
        };
        if file_end > max_file_end {
            max_file_end = file_end;
        }
        if mem_end > max_mem_end {
            max_mem_end = mem_end;
        }
        i = i + 1;
    }
    proof {
        crate::bytes::lemma_least_none(segments@.len() as int, over);
        assert(segments@.take(segments@.len() as int) =~= segments@);
    }
    if !any {
        return Err(KernelError::ElfMalformed("no PT_LOAD segments"));
    }
    Ok(ElfSpan { min_paddr, max_file_end, max_mem_end })
}

/// The kernel image's link virtual base: `p_vaddr` of the first loaded segment
/// at `min_paddr`.
pub open spec fn link_base(segments: Seq<Segment>, min_paddr: u64) -> Option<u64> {
    match crate::bytes::least(
        segments.len() as int,
        |i: int| is_loaded(segments[i]) && segments[i].p_paddr == min_paddr,
    ) {
        Some(i) => Some(segments[i].p_vaddr),
        None => None,
    }
}

/// Finds the kernel image's link virtual base.
pub fn text_vaddr(segments: &[Segment], min_paddr: u64) -> (r: Option<u64>)
    ensures
        r == link_base(segments@, min_paddr),
{
    let ghost at_base = |i: int| is_loaded(segments@[i]) && segments@[i].p_paddr == min_paddr;
    let mut i: usize = 0;
    while i < segments.len()
        invariant
            i <= segments@.len(),
            at_base == (|i: int| is_loaded(segments@[i]) && segments@[i].p_paddr == min_paddr),
            forall|j: int| 0 <= j < i ==> !#[trigger] at_base(j),
        decreases segments@.len() - i,
    {
        let p: Segment = segments[i];
        if p.p_type == PT_LOAD && p.p_memsz != 0 && p.p_paddr == min_paddr {
            proof {
                crate::bytes::lemma_least_is(segments@.len() as int, at_base, i as int);
            }
            return Some(p.p_vaddr);
        }
        i = i + 1;
    }
    proof {
        crate::bytes::lemma_least_none(segments@.len() as int, at_base);
    }
    None
}

/// Wherever the segments have a span, a loaded segment stands at its base: a
/// kernel image always has a link virtual base.
pub proof fn span_has_link_base(segments: Seq<Segment>)
    requires
        span_of(segments) is Ok,
    ensures
        link_base(segments, span_of(segments)->Ok_0.min_paddr) is Some,
{
    let base = span_of(segments)->Ok_0.min_paddr;
    lemma_span_bounds(segments);
    let at_base = |i: int| is_loaded(segments[i]) && segments[i].p_paddr == base;
    crate::bytes::lemma_least(segments.len() as int, at_base);
    let w = choose|i: int|
        #![trigger segments[i]]
        0 <= i < segments.len() && is_loaded(segments[i]) && segments[i].p_paddr == lowest_paddr(
            segments,
        );
    assert(at_base(w));
}

/// A span begins before the file-backed part and the whole of it end.
pub proof fn lemma_span_order(segments: Seq<Segment>)
    requires
        span_of(segments) is Ok,
    ensures
        span_of(segments)->Ok_0.min_paddr <= span_of(segments)->Ok_0.max_file_end,
        span_of(segments)->Ok_0.min_paddr < span_of(segments)->Ok_0.max_mem_end,
        forall|i: int| 0 <= i < segments.len() ==> !overflows(#[trigger] segments[i]),
{
    let over = |j: int| overflows(segments[j]);
    crate::bytes::lemma_least(segments.len() as int, over);
    assert forall|i: int| 0 <= i < segments.len() implies !overflows(#[trigger] segments[i]) by {
        assert(!over(i));
    }
    lemma_span_bounds(segments);
}

/// The span of the segments encloses every `PT_LOAD` that takes up memory, with its
/// file bytes and with its memory, and none of its three bounds could be tighter.
pub proof fn span_encloses_segments_tightly(segments: Seq<Segment>)
    requires
        span_of(segments) is Ok,
    ensures
        ({
            let span = span_of(segments)->Ok_0;
            &&& forall|i: int|
                #![trigger segments[i]]
                0 <= i < segments.len() && segments[i].p_type == 1 && segments[i].p_memsz > 0 ==> {
                    &&& span.min_paddr <= segments[i].p_paddr
                    &&& segments[i].p_paddr + segments[i].p_filesz <= span.max_file_end
                    &&& segments[i].p_paddr + segments[i].p_memsz <= span.max_mem_end
                }
            &&& exists|i: int|
                #![trigger segments[i]]
                0 <= i < segments.len() && segments[i].p_type == 1 && segments[i].p_memsz > 0
                    && segments[i].p_paddr == span.min_paddr
            &&& exists|i: int|
                #![trigger segments[i]]
                0 <= i < segments.len() && segments[i].p_type == 1 && segments[i].p_memsz > 0
                    && segments[i].p_paddr + segments[i].p_filesz == span.max_file_end
            &&& exists|i: int|
                #![trigger segments[i]]
                0 <= i < segments.len() && segments[i].p_type == 1 && segments[i].p_memsz > 0
                    && segments[i].p_paddr + segments[i].p_memsz == span.max_mem_end
        }),
{
    lemma_span_order(segments);
    lemma_span_bounds(segments);
    let a = choose|i: int|
        #![trigger segments[i]]
        0 <= i < segments.len() && is_loaded(segments[i]) && segments[i].p_paddr == lowest_paddr(
            segments,
        );
    let b = choose|i: int|
        #![trigger segments[i]]
        0 <= i < segments.len() && is_loaded(segments[i]) && segments[i].p_paddr
            + segments[i].p_filesz == highest_file_end(segments);
    let c = choose|i: int|
        #![trigger segments[i]]
        0 <= i < segments.len() && is_loaded(segments[i]) && segments[i].p_paddr
            + segments[i].p_memsz == highest_mem_end(segments);
    assert(segments[a].p_memsz > 0 && segments[b].p_memsz > 0 && segments[c].p_memsz > 0);
}

/// The first `PT_LOAD` that takes up memory and ends beyond the address space is what
/// the segments are refused for, by its file bytes before its memory.
pub proof fn first_overflow_is_the_fault(segments: Seq<Segment>, i: int)
    requires
        0 <= i < segments.len(),
        segments[i].p_type == 1,
        segments[i].p_memsz > 0,
        segments[i].p_paddr + segments[i].p_filesz > 0xffff_ffff_ffff_ffff
            || segments[i].p_paddr + segments[i].p_memsz > 0xffff_ffff_ffff_ffff,
        forall|j: int|
            #![trigger segments[j]]
            0 <= j < i && segments[j].p_type == 1 && segments[j].p_memsz > 0 ==> {
                &&& segments[j].p_paddr + segments[j].p_filesz <= 0xffff_ffff_ffff_ffff
                &&& segments[j].p_paddr + segments[j].p_memsz <= 0xffff_ffff_ffff_ffff
            },
    ensures
        span_of(segments) == Err::<ElfSpan, Fault>(
            Fault::ElfMalformed(
                if segments[i].p_paddr + segments[i].p_filesz > 0xffff_ffff_ffff_ffff {
                    "p_paddr + p_filesz overflows"@
                } else {
                    "p_paddr + p_memsz overflows"@
                },
            ),
        ),
{
    let over = |j: int| overflows(segments[j]);
    assert forall|j: int| 0 <= j < i implies !#[trigger] over(j) by {
        assert(!overflows(segments[j]));
    }
    crate::bytes::lemma_least_is(segments.len() as int, over, i);
}

/// Segments that all end within the address space have a span exactly where one of
/// them is a `PT_LOAD` that takes up memory.
pub proof fn span_needs_a_loaded_segment(segments: Seq<Segment>)
    requires
        forall|j: int|
            #![trigger segments[j]]
            0 <= j < segments.len() && segments[j].p_type == 1 && segments[j].p_memsz > 0 ==> {
                &&& segments[j].p_paddr + segments[j].p_filesz <= 0xffff_ffff_ffff_ffff
                &&& segments[j].p_paddr + segments[j].p_memsz <= 0xffff_ffff_ffff_ffff
            },
    ensures
        (exists|i: int|
            #![trigger segments[i]]
            0 <= i < segments.len() && segments[i].p_type == 1 && segments[i].p_memsz > 0)
            ==> span_of(segments) is Ok,
        (forall|i: int|
            #![trigger segments[i]]
            0 <= i < segments.len() ==> segments[i].p_type != 1 || segments[i].p_memsz == 0)
            ==> span_of(segments) == Err::<ElfSpan, Fault>(
            Fault::ElfMalformed("no PT_LOAD segments"@),
        ),
{
    let over = |j: int| overflows(segments[j]);
    assert forall|j: int| 0 <= j < segments.len() implies !#[trigger] over(j) by {
        assert(!overflows(segments[j]));
    }
    crate::bytes::lemma_least_none(segments.len() as int, over);
    if exists|i: int|
        #![trigger segments[i]]
        0 <= i < segments.len() && segments[i].p_type == 1 && segments[i].p_memsz > 0 {
        let w = choose|i: int|
            #![trigger segments[i]]
            0 <= i < segments.len() && segments[i].p_type == 1 && segments[i].p_memsz > 0;
        assert(is_loaded(segments[w]));
    }
}

/// The link base is the virtual address of the first `PT_LOAD` that takes up memory
/// and is loaded at the given address; without one there is none.
pub proof fn link_base_is_of_first_segment_there(segments: Seq<Segment>, min_paddr: u64)
    ensures
        match link_base(segments, min_paddr) {
            Some(va) => exists|i: int|
                {
                    &&& 0 <= i < segments.len()
                    &&& (#[trigger] segments[i]).p_type == 1
                    &&& segments[i].p_memsz > 0
                    &&& segments[i].p_paddr == min_paddr
                    &&& segments[i].p_vaddr == va
                    &&& forall|j: int|
                        #![trigger segments[j]]
                        0 <= j < i ==> segments[j].p_type != 1 || segments[j].p_memsz == 0
                            || segments[j].p_paddr != min_paddr
                },
            None => forall|j: int|
                #![trigger segments[j]]
                0 <= j < segments.len() ==> segments[j].p_type != 1 || segments[j].p_memsz == 0
                    || segments[j].p_paddr != min_paddr,
        },
{
    let at_base = |i: int| is_loaded(segments[i]) && segments[i].p_paddr == min_paddr;
    crate::bytes::lemma_least(segments.len() as int, at_base);
    match crate::bytes::least(segments.len() as int, at_base) {
        Some(i) => {
            assert forall|j: int| #![trigger segments[j]] 0 <= j < i implies segments[j].p_type != 1
                || segments[j].p_memsz == 0 || segments[j].p_paddr != min_paddr by {
                assert(!at_base(j));
            }
            assert(segments[i].p_memsz > 0);
        },
        None => {
            assert forall|j: int| #![trigger segments[j]]
                0 <= j < segments.len() implies segments[j].p_type != 1 || segments[j].p_memsz == 0
                || segments[j].p_paddr != min_paddr by {
                assert(!at_base(j));
            }
        },
    }
}

/// A file that nothing can be read out of is refused as one that does not parse.
pub proof fn unreadable_file_is_malformed()
    ensures
        not_elf() == Fault::ElfMalformed("goblin parse failed"@),
{
}

/// What is read out of an ELF file is seen field by field.
pub proof fn views_show_every_field(p: Program, s: Section, y: Symbol, g: RelocGroup, t: Tables)
    ensures
        p@.is_64 == p.is_64 && p@.e_machine == p.e_machine && p@.entry == p.entry,
        p@.e_shoff == p.e_shoff && p@.e_shnum == p.e_shnum && p@.e_shentsize == p.e_shentsize,
        p@.segments == p.segments@,
        s@.sh_type == s.sh_type && s@.sh_flags == s.sh_flags && s@.sh_addr == s.sh_addr,
        s@.sh_offset == s.sh_offset && s@.sh_size == s.sh_size && s@.sh_info == s.sh_info,
        s@.name is Some == s.name is Some,
        s.name is Some ==> s@.name->0 == s.name->0@,
        y@.st_shndx == y.st_shndx && y@.st_value == y.st_value,
        y@.name is Some == y.name is Some,
        y.name is Some ==> y@.name->0 == y.name->0@,
        g@.section == g.section && g@.entries == g.entries@,
        t@.sections.len() == t.sections@.len(),
        forall|i: int| 0 <= i < t.sections@.len() ==> #[trigger] t@.sections[i] == t.sections@[i]@,
        t@.symbols.len() == t.symbols@.len(),
        forall|i: int| 0 <= i < t.symbols@.len() ==> #[trigger] t@.symbols[i] == t.symbols@[i]@,
        t@.relocs.len() == t.relocs@.len(),
        forall|i: int| 0 <= i < t.relocs@.len() ==> #[trigger] t@.relocs[i] == t.relocs@[i]@,
{
}

} // verus!
