//! Kernel image handling for the arma image builder.
//!
//! The library recognises guest kernel images, unwraps the compressed forms
//! that distributions ship, lowers an ELF `vmlinux` to a flat loaded image,
//! extracts its KASLR relocation tables, reads the kernel's build
//! configuration to size the virtual board, edits the kernel command line of
//! a device tree, and emits the ACPI namespace devices that stand for the
//! device tree's transports.
pub mod aml;
pub mod appended;
pub mod bytes;
pub mod cmdline;
pub mod dtb;
pub mod elf;
pub mod emit;
pub mod error;
pub mod fs_ext;
pub mod image;
pub mod kconfig;
pub mod kernel;
pub mod motherboard_resource;
pub mod relocs;
pub mod text;
pub mod unpack;
pub mod virtio_mmio;
pub mod zstd;
