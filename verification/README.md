# arma

Kernel image handling for the arma image builder, written and proved in Verus.

`src/` is the library:

- `error`, `elf`, `kernel`: guest architectures, the parts of an ELF file that are
  read, and the recognition of kernel files.
- `image`: the flat loaded image of an ELF kernel.
- `relocs`, `appended`: the KASLR relocation tables, from relocation sections or
  from a table appended to the image.
- `unpack`, `zstd`: EFI-zboot and bzImage unwrapping, and the bound on zstd blocks
  that the decoder needs.
- `kconfig`: the kernel's build configuration and the board's slots.
- `dtb`, `aml`, `emit`, `motherboard_resource`, `virtio_mmio`: ACPI namespace devices
  for the nodes of a device tree.
- `cmdline`, `fs_ext`: edits of the kernel command line, and temp file names.
- `bytes`, `text`: what the others share.

ELF parsing comes from goblin, decompression from flate2 and ruzstd; the few functions
that call them state in their doc comments what is claimed of them.

`app/` is the `arma cmdline` command around the library.
