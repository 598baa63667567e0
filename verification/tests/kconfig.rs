use std::io::Write;

use arma::error::Arch;
use arma::kconfig::{raise_to_floor, KernelConfig, PoweroffSupport, SlotError};
use flate2::{write::GzEncoder, Compression};

fn cfg(s: &str) -> KernelConfig {
    KernelConfig::parse(s.to_string())
}

#[test]
fn is_set_exact_and_module() {
    let c = cfg("CONFIG_PCI=y\nCONFIG_VIRTIO_MMIO=m\n# CONFIG_FOO is not set\n");
    assert!(c.is_set("CONFIG_PCI"));
    assert!(c.is_set("CONFIG_VIRTIO_MMIO")); // =m counts
    assert!(!c.is_set("CONFIG_FOO")); // "is not set"
    assert!(!c.is_set("CONFIG_PC")); // not a prefix match
    // is_builtin is stricter: =y only, never =m.
    assert!(c.is_builtin("CONFIG_PCI")); // =y
    assert!(!c.is_builtin("CONFIG_VIRTIO_MMIO")); // =m is not built-in
}

#[test]
fn both_builtin_transports_split_8_8() {
    // Both transports built in: split evenly.
    let c = cfg(
        "CONFIG_PCI=y\nCONFIG_VIRTIO_PCI=y\nCONFIG_PCI_HOST_GENERIC=y\nCONFIG_VIRTIO_MMIO=y\n",
    );
    assert_eq!(c.infer_slots(Arch::Aarch64, None, None).unwrap(), (8, 8));
}

#[test]
fn modular_mmio_not_emitted_by_default() {
    // Fedora-like: virtio-mmio is a module, PCI is built in. A default board
    // must route everything to PCI and emit NO (empty, boot-probed) mmio
    // slots — the module has no attach surface until the guest loads it.
    let c = cfg("CONFIG_PCI=y\nCONFIG_VIRTIO_PCI=y\nCONFIG_VIRTIO_MMIO=m\n");
    assert_eq!(c.infer_slots(Arch::X86_64, None, None).unwrap(), (0, 16));
    // An explicit request is still honored (the guest loads the module).
    assert_eq!(c.infer_slots(Arch::X86_64, Some(2), None).unwrap(), (2, 0));
}

#[test]
fn modular_virtio_pci_not_emitted_by_default() {
    // virtio-pci is a module, virtio-mmio is built in: the default board
    // must route to mmio and emit no (useless) PCIe bridge.
    let c = cfg("CONFIG_PCI=y\nCONFIG_VIRTIO_PCI=m\nCONFIG_VIRTIO_MMIO=y\n");
    assert_eq!(c.infer_slots(Arch::X86_64, None, None).unwrap(), (16, 0));
    // Explicit --pci-slots still honored (guest loads virtio_pci early).
    assert_eq!(c.infer_slots(Arch::X86_64, None, Some(2)).unwrap(), (0, 2));
}

#[test]
fn aarch64_modular_host_generic_not_builtin_pci() {
    // aarch64 with a modular ECAM host driver: PCI is drivable (module) but
    // not built-in, so it earns no default bridge; mmio (built in) takes all.
    let c = cfg(
        "CONFIG_PCI=y\nCONFIG_VIRTIO_PCI=y\nCONFIG_PCI_HOST_GENERIC=m\nCONFIG_VIRTIO_MMIO=y\n",
    );
    assert_eq!(c.infer_slots(Arch::Aarch64, None, None).unwrap(), (16, 0));
    // Explicit --pci-slots honored (the host driver loads early).
    assert_eq!(c.infer_slots(Arch::Aarch64, None, Some(4)).unwrap(), (0, 4));
}

#[test]
fn all_modular_transports_have_no_default_board() {
    // Every transport is a module: no default board is possible, but each
    // explicit opt-in works (the operator vouches for early module load).
    let c = cfg("CONFIG_PCI=y\nCONFIG_VIRTIO_PCI=m\nCONFIG_VIRTIO_MMIO=m\n");
    assert!(matches!(
        c.infer_slots(Arch::X86_64, None, None),
        Err(SlotError::NoBuiltinTransport)
    ));
    assert_eq!(c.infer_slots(Arch::X86_64, Some(4), None).unwrap(), (4, 0));
    assert_eq!(c.infer_slots(Arch::X86_64, None, Some(4)).unwrap(), (0, 4));
}

#[test]
fn no_pci_all_to_mmio() {
    // Firecracker-like: no PCI, virtio-mmio only.
    let c = cfg("# CONFIG_PCI is not set\nCONFIG_VIRTIO_MMIO=y\n");
    assert_eq!(c.infer_slots(Arch::Aarch64, None, None).unwrap(), (16, 0));
}

#[test]
fn aarch64_needs_host_generic_for_pci() {
    // PCI + virtio-pci but no ECAM host driver ⇒ not drivable on aarch64.
    let c = cfg("CONFIG_PCI=y\nCONFIG_VIRTIO_PCI=y\nCONFIG_VIRTIO_MMIO=y\n");
    assert_eq!(c.infer_slots(Arch::Aarch64, None, None).unwrap(), (16, 0));
    // x86 needs no host-generic driver (cf8/cfc base config).
    assert_eq!(c.infer_slots(Arch::X86_64, None, None).unwrap(), (8, 8));
}

#[test]
fn neither_transport_is_rejected() {
    let c = cfg("# CONFIG_PCI is not set\n# CONFIG_VIRTIO_MMIO is not set\n");
    assert!(matches!(
        c.infer_slots(Arch::Aarch64, None, None),
        Err(SlotError::NoTransport)
    ));
}

#[test]
fn explicit_slots_honored_and_checked() {
    let c = cfg("# CONFIG_PCI is not set\nCONFIG_VIRTIO_MMIO=y\n");
    // Explicit mmio honored; pci omitted (None ⇒ 0).
    assert_eq!(c.infer_slots(Arch::Aarch64, Some(4), None).unwrap(), (4, 0));
    // Asking for PCI the kernel can't drive ⇒ error.
    assert!(matches!(
        c.infer_slots(Arch::Aarch64, None, Some(4)),
        Err(SlotError::PciUnsupported)
    ));
}

#[test]
fn x86_poweroff_prefers_acpi() {
    // Both ACPI and the DT driver present: ACPI wins (the distro path).
    let c = cfg("CONFIG_ACPI=y\nCONFIG_POWER_RESET_SYSCON_POWEROFF=y\n");
    assert_eq!(c.poweroff_support(Arch::X86_64), PoweroffSupport::Acpi);
}

#[test]
fn x86_poweroff_falls_back_to_syscon_driver() {
    // No ACPI, but the kernel builds its own syscon-poweroff driver.
    let c = cfg("# CONFIG_ACPI is not set\nCONFIG_POWER_RESET_SYSCON_POWEROFF=m\n");
    assert_eq!(
        c.poweroff_support(Arch::X86_64),
        PoweroffSupport::SysconDriver
    );
}

#[test]
fn x86_poweroff_unsupported_when_neither() {
    // The Fedora-x86-without-ACPI trap: neither mechanism → the guest hangs.
    let c = cfg("# CONFIG_ACPI is not set\n");
    assert_eq!(
        c.poweroff_support(Arch::X86_64),
        PoweroffSupport::Unsupported
    );
}

#[test]
fn aarch64_poweroff_is_psci() {
    let c = cfg("CONFIG_ARM_PSCI_FW=y\n");
    assert_eq!(c.poweroff_support(Arch::Aarch64), PoweroffSupport::Psci);
}

#[test]
fn aarch64_poweroff_unsupported_without_psci() {
    // ACPI on aarch64 does not help — Arma emits `/psci` there, not syscon.
    let c = cfg("CONFIG_ACPI=y\n");
    assert_eq!(
        c.poweroff_support(Arch::Aarch64),
        PoweroffSupport::Unsupported
    );
}

#[test]
fn from_ikconfig_extracts_embedded_config() {
    let mut e = GzEncoder::new(Vec::new(), Compression::fast());
    e.write_all(b"CONFIG_PCI=y\nCONFIG_VIRTIO_MMIO=y\n")
        .unwrap();
    let gz = e.finish().unwrap();
    // Embed between markers with junk on both sides (as in a real image).
    let mut kernel = vec![0xABu8; 64];
    kernel.extend_from_slice(b"IKCFG_ST");
    kernel.extend_from_slice(&gz);
    kernel.extend_from_slice(b"IKCFG_ED");
    kernel.extend_from_slice(&[0xCDu8; 32]);

    let c = KernelConfig::from_ikconfig(&kernel).expect("extract IKCONFIG");
    assert!(c.is_set("CONFIG_PCI"));
    assert!(c.is_set("CONFIG_VIRTIO_MMIO"));
    // A kernel without the markers yields None (caller errors / asks for --config).
    assert!(KernelConfig::from_ikconfig(b"no ikconfig here").is_none());
}

#[test]
fn isa_floor_and_clamp() {
    // x86: no marker ⇒ baseline v1 floor; the v2 default is not lowered.
    let c = cfg("CONFIG_PCI=y\n");
    assert_eq!(c.isa_floor(Arch::X86_64), "x86-64-v1");
    assert_eq!(
        raise_to_floor("x86-64-v2", c.isa_floor(Arch::X86_64), Arch::X86_64),
        "x86-64-v2"
    );
    // x86: a v3-marked kernel raises the v2 default to v3 (the clamp).
    let c3 = cfg("CONFIG_X86_64_V3=y\n");
    assert_eq!(c3.isa_floor(Arch::X86_64), "x86-64-v3");
    assert_eq!(
        raise_to_floor("x86-64-v2", c3.isa_floor(Arch::X86_64), Arch::X86_64),
        "x86-64-v3"
    );
    // An explicit higher profile is kept (operator may require more).
    assert_eq!(
        raise_to_floor("x86-64-v4", "x86-64-v2", Arch::X86_64),
        "x86-64-v4"
    );
    // aarch64 stock floor is the baseline; default stays.
    let a = cfg("CONFIG_ARM64_LSE_ATOMICS=y\n");
    assert_eq!(a.isa_floor(Arch::Aarch64), "armv8.0-a");
    // An unrecognized explicit profile is passed through unchanged.
    assert_eq!(
        raise_to_floor("vendor-custom", "x86-64-v3", Arch::X86_64),
        "vendor-custom"
    );
}
