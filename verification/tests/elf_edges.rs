use arma::appended::{extract_appended_relocs, file_end, read_table};
use arma::elf::{
    elf_span, read_program, read_tables, text_vaddr, ElfSpan, Program, Reloc, RelocGroup, Section,
    Segment, Symbol, Tables,
};
use arma::error::KernelError;
use arma::image::{can_load, elf_load_image, load_image, try_elf_load_image};
use arma::kernel::{elf_placement, parse};
use arma::relocs::{
    extract_relocs, find_percpu, is_percpu_sym, is_s_rel, walk_relocs, PerCpu, Relocs,
};

fn load(paddr: u64, offset: u64, filesz: u64, memsz: u64) -> Segment {
    Segment {
        p_type: 1,
        p_offset: offset,
        p_vaddr: paddr,
        p_paddr: paddr,
        p_filesz: filesz,
        p_memsz: memsz,
    }
}

fn program(entry: u64, segments: Vec<Segment>) -> Program {
    Program {
        is_64: true,
        e_machine: 62,
        entry,
        e_shoff: 0,
        e_shnum: 0,
        e_shentsize: 0,
        segments,
    }
}

fn malformed<T: std::fmt::Debug>(r: Result<T, KernelError>) -> &'static str {
    match r {
        Err(KernelError::ElfMalformed(text)) => text,
        other => panic!("{other:?}"),
    }
}

#[test]
fn spans_and_their_faults() {
    let segments = [
        load(0x3000, 0, 0x10, 0x40),
        load(0x1000, 0, 0x100, 0x20),
        load(0, 0, 5, 0), // takes up no memory
        Segment { p_type: 2, ..load(0, 0, 9, 9) },
    ];
    assert_eq!(
        elf_span(&segments).unwrap(),
        ElfSpan { min_paddr: 0x1000, max_file_end: 0x3010, max_mem_end: 0x3040 }
    );
    assert_eq!(malformed(elf_span(&segments[2..])), "no PT_LOAD segments");
    assert_eq!(malformed(elf_span(&[])), "no PT_LOAD segments");
    let file = load(u64::MAX, 0, 1, 1);
    let mem = load(u64::MAX, 0, 0, 1);
    assert_eq!(malformed(elf_span(&[file, mem])), "p_paddr + p_filesz overflows");
    assert_eq!(malformed(elf_span(&[mem, file])), "p_paddr + p_memsz overflows");
}

#[test]
fn link_base_is_that_of_the_first_segment_at_the_bottom() {
    let at = |vaddr, paddr, memsz| Segment { p_vaddr: vaddr, ..load(paddr, 0, 0, memsz) };
    let segments = [at(1, 8, 1), at(2, 4, 0), at(3, 4, 1), at(4, 4, 1)];
    assert_eq!(text_vaddr(&segments, 4), Some(3));
    assert_eq!(text_vaddr(&segments, 5), None);
}

#[test]
fn placements_and_their_faults() {
    let meta = elf_placement(&program(0x1008, vec![load(0x1000, 0, 0, 0x10)])).unwrap();
    assert_eq!((meta.alloc_size, meta.min_paddr, meta.entry_offset), (0x10, 0x1000, 8));
    for entry in [0xfff, 0x1010] {
        match elf_placement(&program(entry, vec![load(0x1000, 0, 0, 0x10)])) {
            Err(KernelError::ElfEntryOutOfRange { entry: e, min_paddr }) => {
                assert_eq!((e, min_paddr), (entry, 0x1000));
            }
            other => panic!("{other:?}"),
        }
    }
    let small = Program { is_64: false, ..program(0, vec![]) };
    assert_eq!(malformed(elf_placement(&small)), "not a 64-bit x86-64 ELF");
    assert_eq!(malformed(elf_placement(&program(0, vec![]))), "no PT_LOAD segments");
}

#[test]
fn later_segments_are_laid_over_earlier_ones() {
    let bytes = b"abcdefgh";
    let segments = [load(10, 0, 6, 6), load(12, 6, 2, 2), load(18, 0, 0, 4)];
    assert_eq!(load_image(&segments[..2], bytes).unwrap(), b"abghef");
    // A segment without file bytes still stretches the image.
    assert_eq!(load_image(&segments, bytes).unwrap(), b"abghef\0\0");
    let out = [load(10, 4, 5, 5)];
    assert_eq!(
        malformed(load_image(&out, bytes)),
        "p_offset + p_filesz out of file bounds"
    );
    let wrap = [load(10, u64::MAX, 2, 2)];
    assert_eq!(
        malformed(load_image(&wrap, bytes)),
        "p_offset + p_filesz out of file bounds"
    );
    assert_eq!(malformed(load_image(&[], bytes)), "no PT_LOAD segments");
}

#[test]
fn trimming_keeps_whole_pages() {
    let mut bytes = vec![0u8; 0x3000];
    bytes[0x1000] = 1;
    let segments = [load(0, 0, 0x3000, 0x3000)];
    let image = load_image(&segments, &bytes).unwrap();
    assert_eq!(image.len(), 0x2000);
    assert_eq!(image[..], bytes[..0x2000]);
    bytes[0x1000] = 0;
    assert!(load_image(&segments, &bytes).unwrap().is_empty());
    bytes[0xfff] = 1;
    assert_eq!(load_image(&segments, &bytes).unwrap().len(), 0x1000);
}

#[test]
fn segments_without_memory_must_lie_in_the_span() {
    // File bytes below the span, beyond it, and within it.
    assert!(!can_load(&[load(8, 0, 4, 4), load(4, 0, 1, 0)], 8));
    assert!(!can_load(&[load(8, 0, 4, 4), load(11, 0, 2, 0)], 8));
    assert!(can_load(&[load(8, 0, 4, 4), load(11, 0, 1, 0)], 8));
    // A segment out of the file ends the copying before its place matters.
    assert!(can_load(&[load(8, 5, 4, 4), load(4, 0, 1, 0)], 8));
    assert!(can_load(&[load(8, 0, 4, 4), load(11, 7, 2, 0)], 8));
    assert!(can_load(&[], 8));
    // More than an allocation can hold.
    assert!(!can_load(&[load(0, 0, u64::MAX, 1)], 8));
}

fn put(b: &mut Vec<u8>, at: usize, data: &[u8]) {
    if b.len() < at + data.len() {
        b.resize(at + data.len(), 0);
    }
    b[at..at + data.len()].copy_from_slice(data);
}

/// An x86-64 ELF with one loaded segment at `0x100_0000`, and with these sections:
/// `.text`, `.data..percpu` at address 0, `.rela.text` and `.rela.percpu` with
/// the given entries, symbols `(name, shndx, value)` and string tables.
fn elf_with_relocs(
    symbols: &[(&str, u16, u64)],
    text: &[(u64, u32, u32)],
    percpu: &[(u64, u32, u32)],
) -> Vec<u8> {
    let mut b = Vec::new();
    put(&mut b, 0, &[0x7f, b'E', b'L', b'F', 2, 1, 1]);
    put(&mut b, 16, &2u16.to_le_bytes());
    put(&mut b, 18, &62u16.to_le_bytes());
    put(&mut b, 20, &1u32.to_le_bytes());
    put(&mut b, 24, &0x100_0000u64.to_le_bytes());
    put(&mut b, 32, &64u64.to_le_bytes());
    put(&mut b, 52, &64u16.to_le_bytes());
    put(&mut b, 54, &56u16.to_le_bytes());
    put(&mut b, 56, &1u16.to_le_bytes());
    put(&mut b, 58, &64u16.to_le_bytes());
    // The segment: 16 file bytes behind the headers.
    put(&mut b, 64, &1u32.to_le_bytes());
    put(&mut b, 72, &120u64.to_le_bytes());
    put(&mut b, 80, &0x100_0000u64.to_le_bytes());
    put(&mut b, 88, &0x100_0000u64.to_le_bytes());
    put(&mut b, 96, &16u64.to_le_bytes());
    put(&mut b, 104, &0x1_0000u64.to_le_bytes());
    put(&mut b, 120, &[0x90; 16]);

    let names = ["", ".text", ".data..percpu", ".rela.text", ".rela.percpu", ".symtab", ".strtab", ".shstrtab"];
    let mut shstr = vec![0u8];
    let mut name_at = vec![0u32];
    for n in &names[1..] {
        name_at.push(shstr.len() as u32);
        shstr.extend_from_slice(n.as_bytes());
        shstr.push(0);
    }
    let mut strtab = vec![0u8];
    let mut symtab = vec![0u8; 24];
    for (name, shndx, value) in symbols {
        let mut s = [0u8; 24];
        s[0..4].copy_from_slice(&(strtab.len() as u32).to_le_bytes());
        s[4] = 0x10;
        s[6..8].copy_from_slice(&shndx.to_le_bytes());
        s[8..16].copy_from_slice(&value.to_le_bytes());
        symtab.extend_from_slice(&s);
        strtab.extend_from_slice(name.as_bytes());
        strtab.push(0);
    }
    let rela = |entries: &[(u64, u32, u32)]| {
        let mut v = Vec::new();
        for (offset, sym, kind) in entries {
            v.extend_from_slice(&offset.to_le_bytes());
            v.extend_from_slice(&((u64::from(*sym) << 32) | u64::from(*kind)).to_le_bytes());
            v.extend_from_slice(&0u64.to_le_bytes());
        }
        v
    };
    // (type, flags, addr, contents, link, info, entsize)
    let sections: Vec<(u32, u64, u64, Vec<u8>, u32, u32, u64)> = vec![
        (0, 0, 0, vec![], 0, 0, 0),
        (1, 6, 0x100_0000, vec![0x90; 16], 0, 0, 0),
        (1, 2, 0, vec![0; 8], 0, 0, 0),
        (4, 0, 0, rela(text), 5, 1, 24),
        (4, 0, 0, rela(percpu), 5, 2, 24),
        (2, 0, 0, symtab, 6, 1, 24),
        (3, 0, 0, strtab, 0, 0, 0),
        (3, 0, 0, shstr, 0, 0, 0),
    ];
    let mut headers = Vec::new();
    for (i, (kind, flags, addr, contents, link, info, entsize)) in sections.iter().enumerate() {
        let at = b.len();
        b.extend_from_slice(contents);
        headers.extend_from_slice(&name_at[i].to_le_bytes());
        headers.extend_from_slice(&kind.to_le_bytes());
        headers.extend_from_slice(&flags.to_le_bytes());
        headers.extend_from_slice(&addr.to_le_bytes());
        headers.extend_from_slice(&(at as u64).to_le_bytes());
        headers.extend_from_slice(&(contents.len() as u64).to_le_bytes());
        headers.extend_from_slice(&link.to_le_bytes());
        headers.extend_from_slice(&info.to_le_bytes());
        headers.extend_from_slice(&1u64.to_le_bytes());
        headers.extend_from_slice(&entsize.to_le_bytes());
    }
    let shoff = b.len() as u64;
    b.extend_from_slice(&headers);
    put(&mut b, 40, &shoff.to_le_bytes());
    put(&mut b, 60, &8u16.to_le_bytes());
    put(&mut b, 62, &7u16.to_le_bytes());
    b
}

const SYMBOLS: &[(&str, u16, u64)] = &[
    ("_text", 1, 0x100_0000),          // 1
    ("__per_cpu_load", 2, 0x100_8000), // 2
    ("counter", 2, 8),                 // 3
    ("jiffies", 0xfff1, 5),            // 4
    ("CONSTANT", 0xfff1, 5),           // 5
    ("outside", 0, 0),                 // 6
];

#[test]
fn relocation_sections_are_walked() {
    let bytes = elf_with_relocs(
        SYMBOLS,
        &[
            (0x100_0010, 1, 1),  // R_X86_64_64
            (0x100_0020, 1, 10), // R_X86_64_32
            (0x100_0030, 1, 11), // R_X86_64_32S
            (0x100_0040, 1, 2),  // PC32, not per-CPU
            (0x100_0050, 3, 2),  // PC32, per-CPU
            (0x100_0060, 3, 4),  // PLT32, per-CPU
            (0x100_0070, 3, 42), // REX_GOTPCRELX, per-CPU
            (0x100_0080, 3, 1),  // 64 of a per-CPU symbol
            (0x100_0090, 4, 1),  // absolute, but moves
            (0x100_00a0, 5, 1),  // a true constant
            (0, 6, 99),          // undefined symbol: whatever its type
            (0, 1, 0),           // NONE
            (0x100_00b0, 1, 24), // PC64, not per-CPU
        ],
        &[(0x10, 1, 1)], // rebased by __per_cpu_load
    );
    let program = read_program(&bytes).unwrap();
    assert_eq!(program.segments.len(), 1);
    assert_eq!((program.e_shnum, program.e_shentsize, program.entry), (8, 64, 0x100_0000));
    let tables = read_tables(&bytes).unwrap();
    assert_eq!(tables.sections[2].name.as_deref(), Some(".data..percpu"));
    assert_eq!(tables.symbols.len(), 7);
    assert_eq!(tables.symbols[3].name.as_deref(), Some("counter"));
    assert_eq!(tables.relocs.len(), 2);
    assert_eq!((tables.relocs[0].section, tables.relocs[1].section), (3, 4));
    assert_eq!(
        find_percpu(&tables).unwrap(),
        PerCpu { shndx: Some(2), load_addr: 0x100_8000 }
    );
    let r = extract_relocs(&bytes).unwrap();
    assert_eq!(r.relocs64, vec![0x10, 0x90, 0x8010]);
    assert_eq!(r.relocs32, vec![0x20, 0x30]);
    assert_eq!(r.relocs32neg, vec![0x50, 0x60, 0x70]);
    assert_eq!(parse(&bytes).unwrap().elf.unwrap().alloc_size, 0x1_0000);
    assert_eq!(elf_load_image(&bytes).unwrap(), vec![0x90; 16]);
    assert_eq!(try_elf_load_image(&bytes).unwrap().unwrap(), vec![0x90; 16]);
}

#[test]
fn relocation_faults() {
    let fault = |entry| malformed(extract_relocs(&elf_with_relocs(SYMBOLS, &[entry], &[])));
    assert_eq!(fault((0x100_0000, 99, 1)), "reloc symbol index out of range");
    assert_eq!(fault((0x0ff_ffff, 1, 1)), "reloc location outside image");
    assert_eq!(fault((0x1_0100_0000, 1, 10)), "reloc location outside image");
    assert_eq!(fault((0x100_0000, 3, 24)), "R_X86_64_PC64 against per-CPU symbol");
    assert_eq!(fault((0x100_0000, 1, 3)), "unsupported x86-64 relocation type");
    let bytes = elf_with_relocs(&[("far", 0xffff, 0), ("__per_cpu_load", 2, 0)], &[(0, 1, 1)], &[]);
    assert_eq!(malformed(extract_relocs(&bytes)), "SHN_XINDEX symbols unsupported");
    let bytes = elf_with_relocs(&[("a", 1, 0)], &[(0x100_0000, 1, 1)], &[]);
    assert_eq!(malformed(extract_relocs(&bytes)), "percpu section but no __per_cpu_load");
    assert_eq!(malformed(extract_relocs(b"\x7fELF and no more")), "goblin parse failed");
    assert_eq!(malformed(elf_load_image(b"")), "goblin parse failed");
    assert_eq!(malformed(read_tables(b"")), "goblin parse failed");
}

#[test]
fn a_file_that_cannot_be_laid_out_gives_no_image() {
    let mut bytes = elf_with_relocs(SYMBOLS, &[], &[]);
    // A second program header over the segment's bytes: below the span, no memory.
    put(&mut bytes, 56, &2u16.to_le_bytes());
    put(&mut bytes, 120, &1u32.to_le_bytes());
    put(&mut bytes, 124, &[0; 4]);
    put(&mut bytes, 128, &0u64.to_le_bytes());
    put(&mut bytes, 136, &0u64.to_le_bytes());
    put(&mut bytes, 144, &0u64.to_le_bytes());
    put(&mut bytes, 152, &1u64.to_le_bytes());
    put(&mut bytes, 160, &0u64.to_le_bytes());
    assert!(try_elf_load_image(&bytes).is_none());
    assert!(matches!(
        try_elf_load_image(b"no ELF"),
        Some(Err(KernelError::ElfMalformed("goblin parse failed")))
    ));
}

fn section(name: &str, kind: u32, flags: u64, info: u32) -> Section {
    Section {
        name: Some(name.to_string()),
        sh_type: kind,
        sh_flags: flags,
        sh_addr: 0,
        sh_offset: 0,
        sh_size: 0,
        sh_info: info,
    }
}

fn walked(sections: Vec<Section>, group: usize) -> Result<Relocs, KernelError> {
    let tables = Tables {
        sections,
        symbols: vec![Symbol { name: None, st_shndx: 1, st_value: 0 }],
        relocs: vec![RelocGroup {
            section: group,
            entries: vec![Reloc { r_offset: 0x1004, r_sym: 0, r_type: 1 }],
        }],
    };
    walk_relocs(&program(0, vec![load(0x1000, 0, 0, 0x10)]), &tables)
}

#[test]
fn only_allocated_sections_that_are_no_notes_count() {
    let sites = |kind, flags| {
        walked(vec![section("t", kind, flags, 0), section("r", 4, 0, 0)], 1).unwrap().relocs64
    };
    assert_eq!(sites(1, 2), vec![4]);
    assert_eq!(sites(1, 0x7), vec![4]);
    assert!(sites(1, 0x5).is_empty());
    assert!(sites(7, 2).is_empty());
    assert_eq!(
        malformed(walked(vec![section("r", 4, 0, 1)], 0)),
        "reloc sh_info out of range"
    );
}

#[test]
fn non_smp_kernels_have_no_percpu_case() {
    let mut percpu = section(".data..percpu", 1, 2, 0);
    percpu.sh_addr = 0x1000;
    let tables = Tables { sections: vec![percpu], symbols: vec![], relocs: vec![] };
    let none = PerCpu { shndx: None, load_addr: 0 };
    assert_eq!(find_percpu(&tables).unwrap(), none);
    let tables = Tables { sections: vec![], symbols: vec![], relocs: vec![] };
    assert_eq!(find_percpu(&tables).unwrap(), none);
}

#[test]
fn symbol_classes() {
    for name in ["__init_begin", "jiffies_64", "_end", "__start_pci_x", "__end_pci_", "init_per_cpu__y", "__stop_notes"] {
        assert!(is_s_rel(name), "{name}");
    }
    for name in ["", "jiffies_6", "_endx", "__start_pc", "init_per_cpu_", "__Init_begin"] {
        assert!(!is_s_rel(name), "{name}");
    }
    let percpu = PerCpu { shndx: Some(3), load_addr: 0 };
    assert!(is_percpu_sym(3, "counter", &percpu));
    assert!(!is_percpu_sym(4, "counter", &percpu));
    for name in ["__init_begin", "__per_cpu_load", "init_per_cpu_", "init_per_cpu__gdt"] {
        assert!(!is_percpu_sym(3, name, &percpu), "{name}");
    }
    assert!(!is_percpu_sym(3, "counter", &PerCpu { shndx: None, load_addr: 0 }));
}

#[test]
fn relocs_are_stored_table_by_table() {
    let r = Relocs { relocs32: vec![0x0403_0201], relocs32neg: vec![2, 3], relocs64: vec![0xffff_ffff] };
    assert!(!r.is_empty());
    assert_eq!(
        r.to_section_bytes(),
        vec![0xff, 0xff, 0xff, 0xff, 2, 0, 0, 0, 3, 0, 0, 0, 1, 2, 3, 4]
    );
    assert!(Relocs::default().is_empty());
    assert!(Relocs::default().to_section_bytes().is_empty());
}

fn words(ws: &[u32]) -> Vec<u8> {
    ws.iter().flat_map(|w| w.to_le_bytes()).collect()
}

#[test]
fn table_words_are_sign_extended() {
    let base = 0xffff_ffff_8100_0000;
    let r = read_table(&words(&[0, 0x8100_0008, 0, 0x8100_0004]), 0, base, 0x10).unwrap();
    assert_eq!((r.relocs32, r.relocs64), (vec![4], vec![8]));
    // Outside the image, on either side.
    for w in [0x80ff_ffff, 0x8100_0010] {
        assert_eq!(
            malformed(read_table(&words(&[0, w, 0]), 0, base, 0x10)),
            "appended reloc site outside image"
        );
    }
    // A positive word is no kernel address there.
    assert_eq!(
        malformed(read_table(&words(&[0, 4, 0]), 0, base, 0x10)),
        "appended reloc site outside image"
    );
}

#[test]
fn list_counts_are_checked() {
    let count = |n: usize| read_table(&words(&vec![0; n]), 0, 0, 0);
    assert!(count(2).unwrap().is_empty());
    assert!(count(3).unwrap().is_empty());
    for n in [0, 1, 4, 5] {
        assert_eq!(malformed(count(n)), "unexpected appended reloc list count");
    }
    // Bytes in front that make up no word are left aside.
    let mut odd = vec![1u8, 2, 3];
    odd.extend(words(&[0, 0]));
    assert!(read_table(&odd, 0, 0, 0).unwrap().is_empty());
}

#[test]
fn the_table_starts_at_the_file_end() {
    let mut p = program(0, vec![load(0x1000, 0x40, 0x10, 0x10)]);
    assert_eq!(file_end(&p, &[]), 0x50);
    p.e_shoff = 0x100;
    p.e_shnum = 3;
    p.e_shentsize = 64;
    assert_eq!(file_end(&p, &[]), 0x1c0);
    let mut s = section("s", 1, 0, 0);
    s.sh_offset = 0x200;
    s.sh_size = 0x20;
    assert_eq!(file_end(&p, &[s]), 0x220);
    let mut bss = section("b", 8, 0, 0);
    bss.sh_offset = 0x1000;
    assert_eq!(file_end(&p, &[bss]), 0x1c0);
    p.e_shoff = u64::MAX;
    assert_eq!(file_end(&p, &[]), u64::MAX);
    assert!(extract_appended_relocs(&p, &[], &[0; 8]).unwrap().is_empty());
    let bare = program(0, vec![]);
    assert_eq!(malformed(extract_appended_relocs(&bare, &[], &[0; 8])), "no PT_LOAD segments");
}
