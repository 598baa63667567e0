use std::io::Write;

use arma::error::Arch;
use arma::kconfig::{
    config_of_blob, find_config_blob, isa_levels, raise_to_floor, KernelConfig, SlotError,
};
use flate2::{write::GzEncoder, Compression};

fn cfg(s: &str) -> KernelConfig {
    KernelConfig::parse(s.to_string())
}

fn gz(data: &[u8]) -> Vec<u8> {
    let mut e = GzEncoder::new(Vec::new(), Compression::fast());
    e.write_all(data).unwrap();
    e.finish().unwrap()
}

#[test]
fn lines_and_white_space() {
    // CRLF line ends, leading white space (also beyond ASCII), no final newline.
    let c = cfg("CONFIG_A=y\r\n \t\u{2003}CONFIG_B=m\r\n\u{85}CONFIG_C=y");
    assert!(c.is_builtin("CONFIG_A"));
    assert!(c.is_set("CONFIG_B"));
    assert!(c.is_builtin("CONFIG_C"));
    // A carriage return that ends no line belongs to the value.
    assert!(!cfg("CONFIG_A=y\r").is_set("CONFIG_A"));
    assert!(!cfg("CONFIG_A=y\r\r\n").is_set("CONFIG_A"));
    // Nothing may follow the value, and the symbol is matched whole.
    assert!(!cfg("CONFIG_A=y \n").is_set("CONFIG_A"));
    assert!(!cfg("CONFIG_A=yes\n").is_set("CONFIG_A"));
    assert!(!cfg("CONFIG_A=n\n").is_set("CONFIG_A"));
    assert!(!cfg("XCONFIG_A=y\n").is_set("CONFIG_A"));
    assert!(!cfg("CONFIG_A =y\n").is_set("CONFIG_A"));
    assert!(!cfg("").is_set("CONFIG_A"));
    assert!(!cfg("\n\n").is_set(""));
    assert!(cfg("=y").is_set(""));
    // A later line decides as well as an earlier one.
    assert!(cfg("CONFIG_A=n\n\nCONFIG_A=m\n").is_set("CONFIG_A"));
    assert!(cfg("CONFIG_\u{fc}=y\n").is_builtin("CONFIG_\u{fc}"));
}

#[test]
fn built_in_implies_set() {
    let c = cfg("CONFIG_PCI=y\nCONFIG_VIRTIO_PCI=y\nCONFIG_VIRTIO_MMIO=y\n");
    assert!(c.builtin_virtio_mmio() && c.supports_virtio_mmio());
    assert!(c.builtin_pci(Arch::X86_64) && c.supports_pci(Arch::X86_64));
    assert!(!c.builtin_pci(Arch::Aarch64) && !c.supports_pci(Arch::Aarch64));
}

#[test]
fn mmio_slots_need_mmio() {
    let c = cfg("CONFIG_PCI=y\nCONFIG_VIRTIO_PCI=y\n");
    assert_eq!(
        c.infer_slots(Arch::X86_64, Some(1), None),
        Err(SlotError::MmioUnsupported)
    );
    // Asking for none of them is asking for nothing undrivable.
    assert_eq!(c.infer_slots(Arch::X86_64, Some(0), None), Ok((0, 0)));
    assert_eq!(c.infer_slots(Arch::X86_64, Some(0), Some(3)), Ok((0, 3)));
    assert_eq!(
        c.infer_slots(Arch::X86_64, Some(1), Some(u32::MAX)),
        Err(SlotError::MmioUnsupported)
    );
    assert_eq!(
        cfg("").infer_slots(Arch::X86_64, Some(0), Some(0)),
        Err(SlotError::NoTransport)
    );
}

#[test]
fn isa_levels_ascend() {
    assert_eq!(
        isa_levels(Arch::X86_64),
        ["x86-64-v1", "x86-64-v2", "x86-64-v3", "x86-64-v4"]
    );
    assert_eq!(isa_levels(Arch::Aarch64).len(), 7);
    for arch in [Arch::X86_64, Arch::Aarch64] {
        let levels = isa_levels(arch);
        for (i, chosen) in levels.iter().enumerate() {
            for (j, floor) in levels.iter().enumerate() {
                let raised = raise_to_floor(chosen, floor, arch);
                assert_eq!(raised, levels[i.max(j)]);
                assert_eq!(raise_to_floor(&raised, floor, arch), raised);
            }
        }
    }
    // A floor of another vocabulary raises nothing.
    assert_eq!(raise_to_floor("x86-64-v1", "armv8.6-a", Arch::X86_64), "x86-64-v1");
}

#[test]
fn marked_kernels_raise_the_floor() {
    assert_eq!(cfg("CONFIG_X86_64_V2=y\n").isa_floor(Arch::X86_64), "x86-64-v2");
    let both = cfg("CONFIG_X86_64_V2=y\nCONFIG_X86_64_V4=m\n");
    assert_eq!(both.isa_floor(Arch::X86_64), "x86-64-v4");
    assert_eq!(both.isa_floor(Arch::Aarch64), "armv8.0-a");
}

fn embedded(blob: &[u8]) -> Vec<u8> {
    let mut kernel = vec![0xABu8; 5];
    kernel.extend_from_slice(b"IKCFG_ST");
    kernel.extend_from_slice(blob);
    kernel.extend_from_slice(b"IKCFG_ED");
    kernel.extend_from_slice(b"tail IKCFG_ED");
    kernel
}

#[test]
fn config_blob_is_located() {
    assert_eq!(find_config_blob(&embedded(b"abc")), Some((13, 16)));
    assert_eq!(find_config_blob(&embedded(b"")), Some((13, 13)));
    assert_eq!(find_config_blob(b"IKCFG_ST and no end"), None);
    // An end marker before the begin marker does not count.
    assert_eq!(find_config_blob(b"IKCFG_EDIKCFG_ST"), None);
}

#[test]
fn undecodable_config_is_none() {
    // Not gzip, and gzip of what is no UTF-8.
    assert!(KernelConfig::from_ikconfig(&embedded(b"not gzip")).is_none());
    assert!(KernelConfig::from_ikconfig(&embedded(&gz(b"CONFIG_A=y\n\xff\n"))).is_none());
    let c = KernelConfig::from_ikconfig(&embedded(&gz("CONFIG_\u{e9}=m\n".as_bytes()))).unwrap();
    assert!(c.is_set("CONFIG_\u{e9}"));
    assert!(!c.is_builtin("CONFIG_\u{e9}"));
    assert!(config_of_blob(Err("no gzip".to_string())).is_none());
    assert!(config_of_blob(Ok(vec![0xc3])).is_none());
    assert!(config_of_blob(Ok(b"CONFIG_A=y".to_vec())).unwrap().is_builtin("CONFIG_A"));
}
