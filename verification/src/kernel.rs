//! Kernel input handling: arch inference and format validation.
//!
//! Only direct-boot kernel formats are accepted:
//!
//! - **x86_64**: a raw ELF `vmlinux`. A Linux bzImage is converted to its
//!   embedded ELF first; see [`crate::unpack::extract_vmlinux`].
//! - **aarch64**: a raw arm64 `Image` (`ARM\x64` magic at offset 56). An arm64
//!   EFI-zboot wrapper is unwrapped to its raw Image first; see
//!   [`crate::unpack::unwrap_zboot`].
use vstd::prelude::*;

use crate::bytes::{read_le32, read_le64};
use crate::elf::{elf_span, read_program, ElfSpan, Program, EM_X86_64};
use crate::error::{Arch, Fault, KernelError};

verus! {

/// "ARM\x64", little-endian, at offset 56.
pub const ARM64_IMAGE_MAGIC: u32 = 0x644D_5241;

/// Offset of the arm64 `Image` magic.
pub const ARM64_IMAGE_MAGIC_OFFSET: usize = 56;

/// Offset of the arm64 `Image` effective size (text + BSS), u64 little-endian.
pub const ARM64_IMAGE_SIZE_OFFSET: usize = 16;

/// ELF magic (`\x7fELF`) at offset 0.
pub const ELF_MAGIC: [u8; 4] = [0x7f, 0x45, 0x4c, 0x46];

/// The bytes of [`ELF_MAGIC`].
pub open spec fn elf_magic() -> Seq<u8> {
    seq![0x7fu8, 0x45u8, 0x4cu8, 0x46u8]
}

/// Result of parsing a kernel file.
#[derive(Debug, Clone, Copy, PartialEq, Eq, Structural)]
pub struct Parsed {
    pub arch: Arch,
    /// aarch64 only: the Image header's `image_size` (text + BSS), the RAM the
    /// kernel needs at runtime. `0` if the header leaves it unspecified.
    pub aarch64_image_size: Option<u64>,
    /// x86 only: present when the input is a raw ELF `vmlinux`.
    pub elf: Option<ElfMeta>,
}

/// ELF `vmlinux` placement metadata, derived from the program headers.
#[derive(Debug, Clone, Copy, PartialEq, Eq, Structural)]
pub struct ElfMeta {
    /// Runtime RAM footprint: `max(p_paddr + p_memsz) - min(p_paddr)`.
    pub alloc_size: u64,
    /// Lowest `p_paddr`: the kernel's link (load) physical address.
    pub min_paddr: u64,
    /// `e_entry - min_paddr`: the entry's byte offset within the loaded image.
    pub entry_offset: u64,
}

/// The placement that an ELF kernel's header and segments ask for, or why they
/// are refused.
pub open spec fn placement(program: crate::elf::ProgramView) -> Result<ElfMeta, Fault> {
    if !program.is_64 || program.e_machine != EM_X86_64 {
        Err(Fault::ElfMalformed("not a 64-bit x86-64 ELF"@))
    } else {
        match crate::elf::span_of(program.segments) {
            Err(e) => Err(e),
            Ok(span) => if span.min_paddr <= program.entry < span.max_mem_end {
                Ok(
                    ElfMeta {
                        alloc_size: (span.max_mem_end - span.min_paddr) as u64,
                        min_paddr: span.min_paddr,
                        entry_offset: (program.entry - span.min_paddr) as u64,
                    },
                )
            } else {
                Err(
                    Fault::ElfEntryOutOfRange { entry: program.entry, min_paddr: span.min_paddr },
                )
            },
        }
    }
}

/// What a kernel file is recognised as, or why it is refused.
pub open spec fn recognised(bytes: Seq<u8>) -> Result<Parsed, Fault> {
    if bytes.len() < 64 {
        Err(Fault::TooSmall(bytes.len() as usize))
    } else if bytes.take(4) == elf_magic() {
        match crate::elf::elf_contents(bytes) {
            None => Err(crate::elf::not_elf()),
            Some(c) => match placement(c.program) {
                Ok(meta) => Ok(
                    Parsed { arch: Arch::X86_64, aarch64_image_size: None, elf: Some(meta) },
                ),
                Err(e) => Err(e),
            },
        }
    } else if crate::bytes::le32(bytes, 56) == ARM64_IMAGE_MAGIC {
        Ok(
            Parsed {
                arch: Arch::Aarch64,
                aarch64_image_size: Some(crate::bytes::le64(bytes, 16) as u64),
                elf: None,
            },
        )
    } else {
        Err(Fault::Unrecognized)
    }
}

/// The entry point of an accepted ELF kernel lies in the image, the image is
/// not empty, and it ends within the address space.
pub proof fn entry_lies_in_image(program: crate::elf::ProgramView)
    requires
        placement(program) is Ok,
    ensures
        placement(program)->Ok_0.entry_offset < placement(program)->Ok_0.alloc_size,
        placement(program)->Ok_0.min_paddr + placement(program)->Ok_0.alloc_size <= u64::MAX,
        placement(program)->Ok_0.min_paddr + placement(program)->Ok_0.entry_offset
            == program.entry,
{
}

/// Whether the file begins with the ELF magic.
pub fn is_elf(bytes: &[u8]) -> (r: bool)
    ensures
        r == (bytes@.len() >= 4 && bytes@.take(4) == elf_magic()),
{
    let r: bool = bytes.len() >= 4 && bytes[0] == ELF_MAGIC[0] && bytes[1] == ELF_MAGIC[1]
        && bytes[2] == ELF_MAGIC[2] && bytes[3] == ELF_MAGIC[3];
    proof {
        if bytes@.len() >= 4 {
            assert(r ==> bytes@.take(4) =~= elf_magic());
            if bytes@.take(4) == elf_magic() {
                assert(bytes@.take(4)[0] == 0x7f && bytes@.take(4)[1] == 0x45 && bytes@.take(4)[2]
                    == 0x4c && bytes@.take(4)[3] == 0x46);
            }
        }
    }
    r
}

/// Derives the placement of an ELF kernel from its header and segments.
pub fn elf_placement(program: &Program) -> (r: Result<ElfMeta, KernelError>)
    ensures
        match r {
            Ok(meta) => placement(program@) == Ok::<ElfMeta, Fault>(meta),
            Err(e) => placement(program@) == Err::<ElfMeta, Fault>(e@),
        },
{
    if !program.is_64 || program.e_machine != EM_X86_64 {
        return Err(KernelError::ElfMalformed("not a 64-bit x86-64 ELF"));
    }
    let span: ElfSpan = match elf_span(program.segments.as_slice()) {
        Ok(span) => span,
        Err(e) => return Err(e),
    };
    if span.min_paddr <= program.entry && program.entry < span.max_mem_end {
        Ok(
            ElfMeta {
                alloc_size: span.max_mem_end - span.min_paddr,
                min_paddr: span.min_paddr,
                entry_offset: program.entry - span.min_paddr,
            },
        )
    } else {
        Err(KernelError::ElfEntryOutOfRange { entry: program.entry, min_paddr: span.min_paddr })
    }
}

/// Detect and validate the guest architecture from a kernel image's header
/// bytes.
pub fn parse(bytes: &[u8]) -> (r: Result<Parsed, KernelError>)
    ensures
        match r {
            Ok(p) => recognised(bytes@) == Ok::<Parsed, Fault>(p),
            Err(e) => recognised(bytes@) == Err::<Parsed, Fault>(e@),
        },
{
    if bytes.len() < 64 {
        return Err(KernelError::TooSmall(bytes.len()));
    }
    if is_elf(bytes) {
        let program: Program = match read_program(bytes) {
            Ok(program) => program,
            Err(e) => return Err(e),
        };
        return match elf_placement(&program) {
            Ok(meta) => Ok(
                Parsed { arch: Arch::X86_64, aarch64_image_size: None, elf: Some(meta) },
            ),
            Err(e) => Err(e),
        };
    }
    if read_le32(bytes, ARM64_IMAGE_MAGIC_OFFSET) == ARM64_IMAGE_MAGIC {
        let image_size: u64 = read_le64(bytes, ARM64_IMAGE_SIZE_OFFSET);
        return Ok(
            Parsed { arch: Arch::Aarch64, aarch64_image_size: Some(image_size), elf: None },
        );
    }
    Err(KernelError::Unrecognized)
}

/// The ELF magic is DEL and the letters `ELF`.
pub proof fn elf_magic_is_del_elf()
    ensures
        elf_magic().len() == 4,
        elf_magic()[0] == 0x7f,
        elf_magic()[1] as char == 'E',
        elf_magic()[2] as char == 'L',
        elf_magic()[3] as char == 'F',
{
}

/// A file of fewer than 64 bytes is too small to tell, and is refused with its size.
pub proof fn short_files_are_refused(bytes: Seq<u8>)
    requires
        bytes.len() < 64,
    ensures
        recognised(bytes) is Err,
        recognised(bytes)->Err_0 matches Fault::TooSmall(n) && n == bytes.len(),
{
}

/// A file with `ARM\x64` at 56 that does not begin as an ELF file is an arm64 Image,
/// and the number whose little-endian bytes stand at 16 is reported as the memory that
/// it needs.
pub proof fn arm64_image_reports_its_size(bytes: Seq<u8>, n: u64)
    requires
        bytes.len() >= 64,
        !(bytes[0] == 0x7f && bytes[1] as char == 'E' && bytes[2] as char == 'L' && bytes[3] as char
            == 'F'),
        bytes[56] as char == 'A',
        bytes[57] as char == 'R',
        bytes[58] as char == 'M',
        bytes[59] == 0x64,
        bytes[16] as int == n as int % 0x100,
        bytes[17] as int == n as int / 0x100 % 0x100,
        bytes[18] as int == n as int / 0x1_0000 % 0x100,
        bytes[19] as int == n as int / 0x100_0000 % 0x100,
        bytes[20] as int == n as int / 0x1_0000_0000 % 0x100,
        bytes[21] as int == n as int / 0x100_0000_0000 % 0x100,
        bytes[22] as int == n as int / 0x1_0000_0000_0000 % 0x100,
        bytes[23] as int == n as int / 0x100_0000_0000_0000 % 0x100,
    ensures
        recognised(bytes) is Ok,
        recognised(bytes)->Ok_0.arch == Arch::Aarch64,
        recognised(bytes)->Ok_0.aarch64_image_size == Some(n),
        recognised(bytes)->Ok_0.elf is None,
{
    lemma_begins_as_elf(bytes);
    crate::bytes::long_words_are_little_endian(bytes, 16, n);
    crate::bytes::words_are_little_endian(bytes, 56, 0x644D_5241);
}

/// A file of 64 bytes and more that neither begins as an ELF file nor has `ARM\x64` at
/// 56 is not recognised.
pub proof fn other_files_are_unrecognised(bytes: Seq<u8>)
    requires
        bytes.len() >= 64,
        !(bytes[0] == 0x7f && bytes[1] as char == 'E' && bytes[2] as char == 'L' && bytes[3] as char
            == 'F'),
        !(bytes[56] as char == 'A' && bytes[57] as char == 'R' && bytes[58] as char == 'M'
            && bytes[59] == 0x64),
    ensures
        recognised(bytes) == Err::<Parsed, Fault>(Fault::Unrecognized),
{
    lemma_begins_as_elf(bytes);
}

/// A file that begins as an ELF file is taken for nothing else: it is an x86-64 kernel
/// with the placement that its header and segments ask for, or it is refused, by what
/// they are refused for, or because it does not parse.
pub proof fn elf_files_are_placed(bytes: Seq<u8>)
    requires
        bytes.len() >= 64,
        bytes[0] == 0x7f,
        bytes[1] as char == 'E',
        bytes[2] as char == 'L',
        bytes[3] as char == 'F',
    ensures
        match crate::elf::elf_contents(bytes) {
            None => recognised(bytes) == Err::<Parsed, Fault>(
                Fault::ElfMalformed("goblin parse failed"@),
            ),
            Some(c) => match (placement(c.program), recognised(bytes)) {
                (Ok(meta), Ok(p)) => p.arch == Arch::X86_64 && p.aarch64_image_size is None && p.elf
                    == Some(meta),
                (Err(why), Err(e)) => e == why,
                _ => false,
            },
        },
{
    lemma_begins_as_elf(bytes);
}

/// The first four bytes are the ELF magic exactly where they are DEL and `ELF`.
proof fn lemma_begins_as_elf(bytes: Seq<u8>)
    requires
        bytes.len() >= 4,
    ensures
        bytes.take(4) == elf_magic() <==> bytes[0] == 0x7f && bytes[1] as char == 'E'
            && bytes[2] as char == 'L' && bytes[3] as char == 'F',
{
    let front = bytes.take(4);
    assert(front[0] == bytes[0] && front[1] == bytes[1] && front[2] == bytes[2] && front[3]
        == bytes[3]);
    if bytes[0] == 0x7f && bytes[1] == 0x45 && bytes[2] == 0x4c && bytes[3] == 0x46 {
        assert(front =~= elf_magic());
    }
}

/// Only a 64-bit ELF file for x86-64 is placed.
pub proof fn foreign_elf_is_refused(program: crate::elf::ProgramView)
    requires
        !program.is_64 || program.e_machine != 62,
    ensures
        placement(program) == Err::<ElfMeta, Fault>(
            Fault::ElfMalformed("not a 64-bit x86-64 ELF"@),
        ),
{
}

/// An x86-64 kernel whose segments have no span is refused for that; one that has a
/// span is placed exactly where its entry point lies in it, and is else refused with
/// its entry point and its lowest address.
pub proof fn placement_needs_entry_in_span(program: crate::elf::ProgramView)
    requires
        program.is_64,
        program.e_machine == 62,
    ensures
        match crate::elf::span_of(program.segments) {
            Err(why) => placement(program) == Err::<ElfMeta, Fault>(why),
            Ok(span) => if span.min_paddr <= program.entry && program.entry < span.max_mem_end {
                placement(program) is Ok
            } else {
                placement(program) == Err::<ElfMeta, Fault>(
                    Fault::ElfEntryOutOfRange { entry: program.entry, min_paddr: span.min_paddr },
                )
            },
        },
{
}

/// The memory that a kernel is given begins at its lowest `PT_LOAD`, holds the memory
/// of every one that takes up any, and is no larger than that needs; the entry point
/// is where the header puts it.
pub proof fn placement_holds_every_segment(program: crate::elf::ProgramView)
    requires
        placement(program) is Ok,
    ensures
        ({
            let meta = placement(program)->Ok_0;
            let segments = program.segments;
            &&& meta.min_paddr + meta.entry_offset == program.entry
            &&& forall|i: int|
                #![trigger segments[i]]
                0 <= i < segments.len() && segments[i].p_type == 1 && segments[i].p_memsz > 0 ==> {
                    &&& meta.min_paddr <= segments[i].p_paddr
                    &&& segments[i].p_paddr + segments[i].p_memsz <= meta.min_paddr
                        + meta.alloc_size
                }
            &&& exists|i: int|
                #![trigger segments[i]]
                0 <= i < segments.len() && segments[i].p_type == 1 && segments[i].p_memsz > 0
                    && segments[i].p_paddr == meta.min_paddr
            &&& exists|i: int|
                #![trigger segments[i]]
                0 <= i < segments.len() && segments[i].p_type == 1 && segments[i].p_memsz > 0
                    && segments[i].p_paddr + segments[i].p_memsz == meta.min_paddr
                    + meta.alloc_size
        }),
{
    crate::elf::lemma_span_order(program.segments);
    crate::elf::span_encloses_segments_tightly(program.segments);
}

} // verus!
