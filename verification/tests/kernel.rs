use std::io::Write;

use arma::elf::EM_X86_64;
use arma::error::{Arch, KernelError};
use arma::image::elf_load_image;
use arma::kernel::{parse, ARM64_IMAGE_MAGIC, ARM64_IMAGE_MAGIC_OFFSET, ELF_MAGIC};
use arma::relocs::extract_relocs;
use arma::unpack::{
    extract_vmlinux, unwrap_zboot, BZIMAGE_HDRS_MAGIC, BZIMAGE_HDRS_OFFSET, ZBOOT_COMP_OFFSET,
    ZBOOT_HEADER_MIN, ZBOOT_PAYLOAD_OFFSET_FIELD, ZBOOT_PAYLOAD_SIZE_FIELD, ZBOOT_ZIMG_OFFSET,
};
use flate2::{write::GzEncoder, Compression};

fn make_arm64_image() -> Vec<u8> {
    let mut v = vec![0u8; 256];
    v[ARM64_IMAGE_MAGIC_OFFSET..ARM64_IMAGE_MAGIC_OFFSET + 4]
        .copy_from_slice(&ARM64_IMAGE_MAGIC.to_le_bytes());
    v
}

#[test]
fn detects_arm64_image() {
    let bytes = make_arm64_image();
    let p = parse(&bytes).unwrap();
    assert_eq!(p.arch, Arch::Aarch64);
    assert!(p.elf.is_none());
}

// Wrap an already-compressed `payload` in an EFI-zboot header tagged with
// `comp` (the NUL-padded compression name at offset 24).
fn make_zboot_raw(payload: &[u8], comp: &[u8]) -> Vec<u8> {
    let offset = ZBOOT_HEADER_MIN; // payload right after the header
    let mut v = vec![0u8; offset];
    v[0..2].copy_from_slice(b"MZ");
    v[ZBOOT_ZIMG_OFFSET..ZBOOT_ZIMG_OFFSET + 4].copy_from_slice(b"zimg");
    v[ZBOOT_PAYLOAD_OFFSET_FIELD..ZBOOT_PAYLOAD_OFFSET_FIELD + 4]
        .copy_from_slice(&(offset as u32).to_le_bytes());
    v[ZBOOT_PAYLOAD_SIZE_FIELD..ZBOOT_PAYLOAD_SIZE_FIELD + 4]
        .copy_from_slice(&(payload.len() as u32).to_le_bytes());
    v[ZBOOT_COMP_OFFSET..ZBOOT_COMP_OFFSET + comp.len()].copy_from_slice(comp);
    v.extend_from_slice(payload);
    v
}

fn gzip(data: &[u8]) -> Vec<u8> {
    let mut enc = GzEncoder::new(Vec::new(), Compression::fast());
    enc.write_all(data).unwrap();
    enc.finish().unwrap()
}

// A zstd frame of exactly `make_arm64_image()`'s 256 bytes (zeros + the
// ARM\x64 magic at offset 56), precomputed with `zstd -19` — ruzstd is
// decode-only, so the encoded frame is embedded rather than produced here.
// Regenerate if `make_arm64_image` changes.
const ZSTD_FRAME_OF_ARM64_IMAGE: &[u8] = &[
    0x28, 0xb5, 0x2f, 0xfd, 0x64, 0x00, 0x00, 0x7d, 0x00, 0x00, 0x30, 0x00, 0x41, 0x52, 0x4d,
    0x64, 0x00, 0x02, 0x00, 0x40, 0x40, 0x29, 0x4f, 0xc0, 0x06, 0xc3, 0x99, 0x53, 0x49,
];

#[test]
fn unwraps_gzip_efi_zboot_to_arm64_image() {
    let img = make_arm64_image();
    let wrapped = make_zboot_raw(&gzip(&img), b"gzip");
    let raw = unwrap_zboot(wrapped).unwrap();
    assert_eq!(raw, img);
    assert_eq!(parse(&raw).unwrap().arch, Arch::Aarch64);
}

#[test]
fn unwraps_zstd_efi_zboot_to_arm64_image() {
    let img = make_arm64_image();
    let wrapped = make_zboot_raw(ZSTD_FRAME_OF_ARM64_IMAGE, b"zstd");
    let raw = unwrap_zboot(wrapped).unwrap();
    assert_eq!(raw, img);
    assert_eq!(parse(&raw).unwrap().arch, Arch::Aarch64);
}

#[test]
fn unwrap_zboot_passes_through_non_zboot() {
    // Anything lacking the MZ+zimg header passes through untouched.
    let blob = vec![0x55u8; 0x100];
    assert_eq!(unwrap_zboot(blob.clone()).unwrap(), blob);
    let arm = make_arm64_image();
    assert_eq!(unwrap_zboot(arm.clone()).unwrap(), arm);
}

#[test]
fn rejects_unsupported_zboot_compression() {
    let z = make_zboot_raw(&gzip(&make_arm64_image()), b"lzma");
    assert!(matches!(
        unwrap_zboot(z),
        Err(KernelError::ZbootCompression(_))
    ));
}

#[test]
fn rejects_too_small() {
    let r = parse(&[0u8; 32]);
    assert!(matches!(r, Err(KernelError::TooSmall(_))));
}

#[test]
fn rejects_random_bytes() {
    let v = vec![0xAAu8; 1024];
    assert!(matches!(parse(&v), Err(KernelError::Unrecognized)));
}

#[test]
fn pe_machine_codes_match_pmi_spec() {
    assert_eq!(Arch::X86_64.pe_machine(), 0x8664);
    assert_eq!(Arch::Aarch64.pe_machine(), 0xAA64);
}

/// Build a minimal ELF64 x86-64 executable with the given PT_LOAD segments
/// (paddr, file_bytes, memsz) and entry. Layout: [ehdr][phdrs][seg data…],
/// with each segment's p_offset pointing at its bytes in the file.
fn make_elf(entry: u64, segs: &[(u64, Vec<u8>, u64)]) -> Vec<u8> {
    const EHSIZE: usize = 64;
    const PHENTSIZE: usize = 56;
    let phoff = EHSIZE;
    let mut data_off = EHSIZE + segs.len() * PHENTSIZE;
    let mut phdrs = Vec::new();
    let mut blob = Vec::new();
    for (paddr, bytes, memsz) in segs {
        let mut ph = [0u8; PHENTSIZE];
        ph[0..4].copy_from_slice(&1u32.to_le_bytes()); // p_type = PT_LOAD
        ph[8..16].copy_from_slice(&(data_off as u64).to_le_bytes()); // p_offset
        ph[16..24].copy_from_slice(&paddr.to_le_bytes()); // p_vaddr (reuse)
        ph[24..32].copy_from_slice(&paddr.to_le_bytes()); // p_paddr
        ph[32..40].copy_from_slice(&(bytes.len() as u64).to_le_bytes()); // p_filesz
        ph[40..48].copy_from_slice(memsz.to_le_bytes().as_slice()); // p_memsz
        phdrs.extend_from_slice(&ph);
        blob.extend_from_slice(bytes);
        data_off += bytes.len();
    }
    let mut ehdr = [0u8; EHSIZE];
    ehdr[0..4].copy_from_slice(&ELF_MAGIC);
    ehdr[4] = 2; // EI_CLASS = ELFCLASS64
    ehdr[5] = 1; // EI_DATA = ELFDATA2LSB
    ehdr[6] = 1; // EI_VERSION
    ehdr[16..18].copy_from_slice(&2u16.to_le_bytes()); // e_type = ET_EXEC
    ehdr[18..20].copy_from_slice(&EM_X86_64.to_le_bytes()); // e_machine
    ehdr[20..24].copy_from_slice(&1u32.to_le_bytes()); // e_version
    ehdr[24..32].copy_from_slice(&entry.to_le_bytes()); // e_entry
    ehdr[32..40].copy_from_slice(&(phoff as u64).to_le_bytes()); // e_phoff
    ehdr[52..54].copy_from_slice(&(EHSIZE as u16).to_le_bytes()); // e_ehsize
    ehdr[54..56].copy_from_slice(&(PHENTSIZE as u16).to_le_bytes()); // e_phentsize
    ehdr[56..58].copy_from_slice(&(segs.len() as u16).to_le_bytes()); // e_phnum
    let mut out = Vec::new();
    out.extend_from_slice(&ehdr);
    out.extend_from_slice(&phdrs);
    out.extend_from_slice(&blob);
    out
}

#[test]
fn detects_elf_vmlinux_as_x86_64() {
    // Two segments: text at 0x100_0000 (entry), data at 0x120_0000 with a
    // BSS tail (memsz > filesz). alloc_size spans both incl. BSS.
    let elf = make_elf(
        0x100_0000,
        &[
            (0x100_0000, vec![0x11; 0x1000], 0x1000),
            (0x120_0000, vec![0x22; 0x800], 0x4000),
        ],
    );
    let p = parse(&elf).unwrap();
    assert_eq!(p.arch, Arch::X86_64);
    let e = p.elf.unwrap();
    // max_mem_end = 0x120_0000 + 0x4000; min_paddr = 0x100_0000.
    assert_eq!(e.alloc_size, 0x120_0000 + 0x4000 - 0x100_0000);
    assert_eq!(e.min_paddr, 0x100_0000);
    assert_eq!(e.entry_offset, 0); // entry == base here
}

#[test]
fn elf_entry_offset_when_entry_not_at_base() {
    // Entry deep in the image (Alpine-style): offset = entry - min_paddr.
    let elf = make_elf(
        0x130_0000,
        &[
            (0x100_0000, vec![0x11; 0x400_000], 0x400_000),
            (0x140_0000, vec![0x22; 0x1000], 0x1000),
        ],
    );
    let e = parse(&elf).unwrap().elf.unwrap();
    assert_eq!(e.min_paddr, 0x100_0000);
    assert_eq!(e.entry_offset, 0x30_0000);
}

#[test]
fn elf_load_image_lays_segments_at_relative_paddr() {
    let elf = make_elf(
        0x100_0000,
        &[
            (0x100_0000, vec![0xAB; 4], 4),
            (0x100_2000, vec![0xCD; 2], 0x100), // gap before it stays zero
        ],
    );
    let img = elf_load_image(&elf).unwrap();
    // Image spans min_paddr..max_file_end = [0x100_0000, 0x100_2002).
    // Last byte is non-zero, so nothing is trimmed.
    assert_eq!(img.len(), 0x2002);
    assert_eq!(&img[0..4], &[0xAB; 4]);
    assert_eq!(&img[4..0x2000], &vec![0u8; 0x2000 - 4][..]); // gap zero
    assert_eq!(&img[0x2000..0x2002], &[0xCD; 2]);
}

#[test]
fn elf_load_image_trims_trailing_zeros() {
    // A segment whose p_filesz bakes in a zero tail (a .bss/.brk region
    // stored in-file). elf_load_image must drop those trailing zeros so the
    // .linux section becomes Padded (the VMM zero-fills to VirtualSize);
    // the loaded content is unchanged.
    let mut data = vec![0xABu8; 4];
    data.extend(std::iter::repeat_n(0u8, 0x3000)); // 12 KiB zero tail in-file
    let elf = make_elf(0x100_0000, &[(0x100_0000, data, 0x4000)]);
    let img = elf_load_image(&elf).unwrap();
    // 4 real bytes + a 0x3000 zero tail: trimmed to the real content, rounded
    // up to one 4 KiB page. The rest is VirtualSize zero-fill (no 2 MiB pad).
    assert_eq!(img.len(), 0x1000);
    assert_eq!(&img[0..4], &[0xAB; 4]);
    assert!(img[4..].iter().all(|&b| b == 0));
}

#[test]
fn rejects_elf_entry_outside_image() {
    // Entry past the end of the loaded image.
    let elf = make_elf(0x900_0000, &[(0x100_0000, vec![0u8; 0x100], 0x100)]);
    assert!(matches!(
        parse(&elf),
        Err(KernelError::ElfEntryOutOfRange { .. })
    ));
}

#[test]
fn extract_vmlinux_inflates_embedded_elf() {
    // A real ELF vmlinux, gzip-compressed and embedded in a fake bzImage
    // after the setup header (with a decoy gzip magic that won't inflate).
    let elf = make_elf(0x100_0000, &[(0x100_0000, vec![0x5a; 0x400], 0x800)]);
    let mut enc = GzEncoder::new(Vec::new(), Compression::fast());
    enc.write_all(&elf).unwrap();
    let payload = enc.finish().unwrap();

    let mut bz = vec![0u8; 0x600];
    bz[BZIMAGE_HDRS_OFFSET..BZIMAGE_HDRS_OFFSET + 4]
        .copy_from_slice(&BZIMAGE_HDRS_MAGIC.to_le_bytes());
    bz[0x300..0x303].copy_from_slice(&[0x1f, 0x8b, 0x08]); // decoy: not valid gzip
    bz.extend_from_slice(&payload);

    let out = extract_vmlinux(bz).unwrap();
    assert_eq!(&out[0..4], &ELF_MAGIC);
    assert_eq!(parse(&out).unwrap().arch, Arch::X86_64);
}

#[test]
fn extract_vmlinux_passes_through_raw_vmlinux() {
    let elf = make_elf(0x100_0000, &[(0x100_0000, vec![0u8; 0x100], 0x100)]);
    assert_eq!(extract_vmlinux(elf.clone()).unwrap(), elf);
}

#[test]
fn extract_relocs_reads_appended_table() {
    // A stripped bzImage-style payload: an ELF with no `.rela.*` sections and
    // a `vmlinux.relocs` table appended after the image, in the boot format
    // (forward: 0, relocs64.., 0, relocs32neg.., 0, relocs32..; each u32-LE a
    // patch-site VA). text_vaddr = 0x100_0000, so VA - base = image offset.
    let mut payload = make_elf(0x100_0000, &[(0x100_0000, vec![0u8; 0x100], 0x1_0000)]);
    let push = |v: &mut Vec<u8>, x: u32| v.extend_from_slice(&x.to_le_bytes());
    push(&mut payload, 0); // relocs64 terminator
    push(&mut payload, 0x100_0040); // relocs64 -> off 0x40
    push(&mut payload, 0); // relocs32neg terminator
    push(&mut payload, 0x100_0030); // relocs32neg -> off 0x30
    push(&mut payload, 0); // relocs32 terminator
    push(&mut payload, 0x100_0020); // relocs32 -> off 0x20
    push(&mut payload, 0x100_0010); // relocs32 -> off 0x10 (read first, backward)

    let r = extract_relocs(&payload).unwrap();
    assert_eq!(r.relocs32, vec![0x10, 0x20]);
    assert_eq!(r.relocs32neg, vec![0x30]);
    assert_eq!(r.relocs64, vec![0x40]);
    assert!(!r.is_empty());
}

#[test]
fn extract_relocs_reads_appended_table_two_list() {
    // Current kernels (after "x86/boot/64: Remove inverse relocations") emit
    // only two lists, low→high: [0][relocs64][0][relocs32]. The 64-bit list
    // must NOT be mistaken for the old inverse-32 list.
    let mut payload = make_elf(0x100_0000, &[(0x100_0000, vec![0u8; 0x100], 0x1_0000)]);
    let push = |v: &mut Vec<u8>, x: u32| v.extend_from_slice(&x.to_le_bytes());
    push(&mut payload, 0); // relocs64 terminator (leading stop)
    push(&mut payload, 0x100_0040); // relocs64 -> off 0x40
    push(&mut payload, 0); // relocs32 terminator
    push(&mut payload, 0x100_0020); // relocs32 -> off 0x20
    push(&mut payload, 0x100_0010); // relocs32 -> off 0x10 (read first, backward)

    let r = extract_relocs(&payload).unwrap();
    assert_eq!(r.relocs32, vec![0x10, 0x20]);
    assert!(r.relocs32neg.is_empty());
    assert_eq!(r.relocs64, vec![0x40]);
    assert!(!r.is_empty());
}

#[test]
fn extract_relocs_empty_without_table_or_rela() {
    // No `.rela.*` sections and no appended table — a kernel genuinely built
    // without relocations. arma reports none (the caller rejects it as
    // KASLR-incapable) rather than misreading trailing image bytes.
    let payload = make_elf(0x100_0000, &[(0x100_0000, vec![0u8; 0x100], 0x1_0000)]);
    assert!(extract_relocs(&payload).unwrap().is_empty());
}

#[test]
fn rejects_non_x86_elf() {
    // EM_AARCH64 = 183; arma's ELF path is x86-only (arm64 ships raw Image).
    let mut elf = make_elf(0x100_0000, &[(0x100_0000, vec![0u8; 0x100], 0x100)]);
    elf[18..20].copy_from_slice(&183u16.to_le_bytes());
    assert!(matches!(parse(&elf), Err(KernelError::ElfMalformed(_))));
}
