//! Guest architectures and kernel errors.
use vstd::prelude::*;

verus! {

/// Target guest architecture, inferred from the kernel file.
#[derive(Debug, Clone, Copy, PartialEq, Eq, Structural)]
pub enum Arch {
    X86_64,
    Aarch64,
}

impl Arch {
    /// PE `FileHeader.Machine` value for this arch.
    pub fn pe_machine(self) -> (r: u16)
        ensures
            r == match self {
                Arch::X86_64 => 0x8664u16,
                Arch::Aarch64 => 0xAA64u16,
            },
    {
        match self {
            Arch::X86_64 => 0x8664,
            Arch::Aarch64 => 0xAA64,
        }
    }
}

/// Errors from kernel parsing.
#[derive(Debug)]
pub enum KernelError {
    /// The file, of this many bytes, is too small to hold any kernel header.
    TooSmall(usize),
    /// No known kernel format matches.
    Unrecognized,
    /// The EFI-zboot payload does not lie within the file.
    ZbootMalformed { offset: usize, size: usize, file: usize },
    /// The EFI-zboot header names a compression other than gzip and zstd.
    ZbootCompression(String),
    /// The EFI-zboot payload does not decompress.
    ZbootDecompress(String),
    /// The ELF kernel is malformed.
    ElfMalformed(&'static str),
    /// The ELF entry point is outside the loaded image.
    ElfEntryOutOfRange { entry: u64, min_paddr: u64 },
    /// The bzImage carries no `vmlinux` that can be extracted.
    BzImageNoVmlinux,
}

/// What a [`KernelError`] says, with its text as characters.
pub enum Fault {
    TooSmall(usize),
    Unrecognized,
    ZbootMalformed { offset: usize, size: usize, file: usize },
    ZbootCompression(Seq<char>),
    ZbootDecompress(Seq<char>),
    ElfMalformed(Seq<char>),
    ElfEntryOutOfRange { entry: u64, min_paddr: u64 },
    BzImageNoVmlinux,
}

impl View for KernelError {
    type V = Fault;

    open spec fn view(&self) -> Fault {
        match *self {
            KernelError::TooSmall(n) => Fault::TooSmall(n),
            KernelError::Unrecognized => Fault::Unrecognized,
            KernelError::ZbootMalformed { offset, size, file } => Fault::ZbootMalformed {
                offset,
                size,
                file,
            },
            KernelError::ZbootCompression(s) => Fault::ZbootCompression(s@),
            KernelError::ZbootDecompress(s) => Fault::ZbootDecompress(s@),
            KernelError::ElfMalformed(s) => Fault::ElfMalformed(s@),
            KernelError::ElfEntryOutOfRange { entry, min_paddr } => Fault::ElfEntryOutOfRange {
                entry,
                min_paddr,
            },
            KernelError::BzImageNoVmlinux => Fault::BzImageNoVmlinux,
        }
    }
}

/// An error says what it holds, and which it is.
pub proof fn errors_say_what_they_hold(e: KernelError)
    ensures
        match (e, e@) {
            (KernelError::TooSmall(n), Fault::TooSmall(m)) => n == m,
            (KernelError::Unrecognized, Fault::Unrecognized) => true,
            (
                KernelError::ZbootMalformed { offset, size, file },
                Fault::ZbootMalformed { offset: o, size: s, file: f },
            ) => offset == o && size == s && file == f,
            (KernelError::ZbootCompression(text), Fault::ZbootCompression(said)) => text@ == said,
            (KernelError::ZbootDecompress(text), Fault::ZbootDecompress(said)) => text@ == said,
            (KernelError::ElfMalformed(text), Fault::ElfMalformed(said)) => text@ == said,
            (
                KernelError::ElfEntryOutOfRange { entry, min_paddr },
                Fault::ElfEntryOutOfRange { entry: e, min_paddr: m },
            ) => entry == e && min_paddr == m,
            (KernelError::BzImageNoVmlinux, Fault::BzImageNoVmlinux) => true,
            _ => false,
        },
{
}

} // verus!
