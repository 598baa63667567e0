use arma::aml;
use arma::dtb::{DtbError, DtbNode, DtbTree, Sense, Site};
use arma::motherboard_resource::{self, motherboard_aml_bytes};
use arma::virtio_mmio::{self, name_seg, DEVICE_BYTES};

#[test]
fn motherboard_device_size_is_stable() {
    assert_eq!(motherboard_aml_bytes(), 84);
}

#[test]
fn motherboard_name_first_few() {
    assert_eq!(aml::name_seg_indexed(b"MBR", 0), *b"MBR0");
    assert_eq!(aml::name_seg_indexed(b"MBR", 9), *b"MBR9");
    assert_eq!(aml::name_seg_indexed(b"MBR", 10), *b"MBRA");
}

#[test]
fn device_size_pinned() {
    // _HID(15) + _UID(7) + CRS wrapper(11) + descriptors(57) = 90 body;
    // + DeviceOp(2) + PkgLength(2) + NameSeg(4) = 98.
    assert_eq!(DEVICE_BYTES, 98);
}

#[test]
fn name_seg_is_valid() {
    assert_eq!(&name_seg(0), b"VM00");
    assert_eq!(&name_seg(15), b"VM15");
}

#[test]
fn indexed_names_run_through_base_36() {
    assert_eq!(aml::name_seg_indexed(b"MBR", 35), *b"MBRZ");
    assert_eq!(aml::name_seg_indexed(b"MBR", 36), *b"MBR0");
    assert_eq!(&name_seg(99), b"VM99");
}

#[test]
fn eisa_id_is_compressed() {
    assert_eq!(aml::eisaid(b"PNP0C02"), 0x020c_d041);
    assert_eq!(aml::eisaid(b"PNP0A08"), 0x080a_d041);
}

fn node(compatible: &[&str], reg: &[(u64, u64)]) -> DtbNode {
    DtbNode {
        compatible: Ok(compatible.iter().map(|s| s.to_string()).collect()),
        reg: Ok(reg.to_vec()),
        interrupts: Ok((5, Sense::EdgeRising)),
    }
}

fn tree(children: Vec<DtbNode>) -> DtbTree {
    DtbTree { children: Ok(children) }
}

fn qword(base: u64, size: u64) -> Vec<u8> {
    let mut v = vec![0x8a, 0x2b, 0, 0, 0x0d, 0x01];
    for x in [0, base, base + size - 1, 0, size] {
        v.extend_from_slice(&u64::to_le_bytes(x));
    }
    v
}

fn motherboard_device(name: &[u8; 4], uid: u8, base: u64, size: u64) -> Vec<u8> {
    let mut v = vec![0x5b, 0x82, 0x42, 0x05];
    v.extend_from_slice(name);
    v.extend_from_slice(b"\x08_HID\x0c\x41\xd0\x0c\x02");
    v.extend_from_slice(b"\x08_UID\x0a");
    v.push(uid);
    v.extend_from_slice(b"\x08_CRS\x11\x45\x03\x0b\x30\x00");
    v.extend_from_slice(&qword(base, size));
    v.extend_from_slice(&[0x79, 0]);
    v
}

fn virtio_device(name: &[u8; 4], uid: u8, base: u64, size: u64, flags: u8, gsi: u32) -> Vec<u8> {
    let mut v = vec![0x5b, 0x82, 0x40, 0x06];
    v.extend_from_slice(name);
    v.extend_from_slice(b"\x08_HID\x0dLNRO0005\x00");
    v.extend_from_slice(b"\x08_UID\x0a");
    v.push(uid);
    v.extend_from_slice(b"\x08_CRS\x11\x4e\x03\x0b\x39\x00");
    v.extend_from_slice(&qword(base, size));
    v.extend_from_slice(&[0x89, 0x06, 0, flags, 0x01]);
    v.extend_from_slice(&gsi.to_le_bytes());
    v.extend_from_slice(&[0x79, 0]);
    v
}

#[test]
fn motherboard_devices_are_emitted_in_tree_order() {
    let t = tree(vec![
        node(&["pci-host-ecam-generic"], &[(0xe000_0000, 0x1000_0000), (1, 1)]),
        node(&["virtio,mmio"], &[(0xd000_0000, 0x200)]),
        node(&["vendor,host", "pci-host-ecam-generic"], &[(0x10_0000_0000, 0x100_0000)]),
    ]);
    assert_eq!(motherboard_resource::dsdt_total_bytes(&t), Ok(2 * 84));
    let mut slot = vec![0xeeu8; 200];
    assert_eq!(motherboard_resource::emit(&mut slot, 10, &t), Ok(10 + 2 * 84));
    let mut want = vec![0xeeu8; 10];
    want.extend(motherboard_device(b"MBR0", 0, 0xe000_0000, 0x1000_0000));
    want.extend(motherboard_device(b"MBR1", 1, 0x10_0000_0000, 0x100_0000));
    want.resize(200, 0xee);
    assert_eq!(slot, want);
}

#[test]
fn motherboard_faults() {
    // No window.
    let t = tree(vec![node(&["pci-host-ecam-generic"], &[])]);
    let mut slot = vec![0u8; 100];
    assert_eq!(motherboard_resource::emit(&mut slot, 0, &t), Err(DtbError::Internal));
    assert_eq!(slot, vec![0u8; 100]);
    // A device that does not fit leaves what stands before it alone.
    let t = tree(vec![node(&["pci-host-ecam-generic"], &[(0, 1)])]);
    let mut slot = vec![7u8; 90];
    assert_eq!(motherboard_resource::emit(&mut slot, 7, &t), Err(DtbError::Internal));
    assert_eq!(slot[..7], [7u8; 7]);
    // An empty window, and one past the end of the address space.
    for window in [(0x1000, 0), (u64::MAX, 2)] {
        let t = tree(vec![node(&["pci-host-ecam-generic"], &[window])]);
        let mut slot = vec![0u8; 100];
        assert_eq!(motherboard_resource::emit(&mut slot, 0, &t), Err(DtbError::Internal));
    }
    // Undecodable properties and trees.
    let fault = DtbError::MalformedProperty { site: Site::PciHost, property: "reg" };
    let mut n = node(&["pci-host-ecam-generic"], &[]);
    n.reg = Err(fault);
    assert_eq!(motherboard_resource::emit(&mut [0u8; 100], 0, &tree(vec![n])), Err(fault));
    let broken = DtbTree { children: Err(fault) };
    assert_eq!(motherboard_resource::emit(&mut [0u8; 100], 0, &broken), Err(fault));
    assert_eq!(motherboard_resource::dsdt_total_bytes(&broken), Err(fault));
}

#[test]
fn virtio_devices_are_emitted_in_tree_order() {
    let mut level = node(&["virtio,mmio"], &[(0xd000_0200, 0x200)]);
    level.interrupts = Ok((0x1234_5678, Sense::LevelLow));
    let t = tree(vec![
        node(&["virtio,mmio"], &[(0xd000_0000, 0x200)]),
        node(&["other"], &[]),
        level,
    ]);
    assert_eq!(virtio_mmio::count_devices(&t), Ok(2));
    assert_eq!(virtio_mmio::dsdt_total_bytes(&t), Ok(2 * 98));
    let mut slot = vec![0u8; 2 * 98];
    assert_eq!(virtio_mmio::emit(&mut slot, 0, &t), Ok(2 * 98));
    let mut want = virtio_device(b"VM00", 0, 0xd000_0000, 0x200, 0x03, 5);
    want.extend(virtio_device(b"VM01", 1, 0xd000_0200, 0x200, 0x05, 0x1234_5678));
    assert_eq!(slot, want);
}

#[test]
fn virtio_faults() {
    let missing = DtbError::MalformedProperty { site: Site::VirtioMmio, property: "reg" };
    let t = tree(vec![node(&["virtio,mmio"], &[])]);
    assert_eq!(virtio_mmio::emit(&mut [0u8; 98], 0, &t), Err(missing));
    let fault = DtbError::MalformedProperty { site: Site::VirtioMmio, property: "interrupts" };
    let mut n = node(&["virtio,mmio"], &[(0, 1)]);
    n.interrupts = Err(fault);
    let mut slot = [9u8; 98];
    assert_eq!(virtio_mmio::emit(&mut slot, 0, &tree(vec![n])), Err(fault));
    assert_eq!(slot, [9u8; 98]);
    let mut n = node(&[], &[]);
    n.compatible = Err(fault);
    assert_eq!(virtio_mmio::count_devices(&tree(vec![n])), Err(fault));
    let t = tree(vec![node(&["virtio,mmio"], &[(0, 1)])]);
    assert_eq!(virtio_mmio::emit(&mut [0u8; 97], 0, &t), Err(DtbError::Internal));
}

#[test]
fn the_last_index_cannot_be_used() {
    // 255 devices can be indexed; a further one exhausts the index.
    let many = |n: usize| tree((0..n).map(|_| node(&["virtio,mmio"], &[(0, 1)])).collect());
    let mut slot = vec![0u8; 256 * 98];
    assert_eq!(virtio_mmio::emit(&mut slot, 0, &many(255)), Ok(255 * 98));
    assert_eq!(virtio_mmio::emit(&mut slot, 0, &many(256)), Err(DtbError::Internal));
}

#[test]
fn nothing_to_emit_leaves_the_slot_alone() {
    let t = tree(vec![node(&["other"], &[])]);
    let mut slot = vec![3u8; 4];
    assert_eq!(virtio_mmio::emit(&mut slot, 2, &t), Ok(2));
    assert_eq!(motherboard_resource::emit(&mut slot, 2, &t), Ok(2));
    assert_eq!(slot, vec![3u8; 4]);
    assert_eq!(virtio_mmio::dsdt_total_bytes(&t), Ok(0));
}

#[test]
fn interrupt_senses_have_their_flags() {
    let flags = |sense| {
        let mut slot = [0u8; 9];
        assert_eq!(aml::write_extended_interrupt(&mut slot, 0, 1, sense), Ok(9));
        slot[3]
    };
    assert_eq!(flags(Sense::EdgeRising), 0x03);
    assert_eq!(flags(Sense::EdgeFalling), 0x07);
    assert_eq!(flags(Sense::LevelHigh), 0x01);
    assert_eq!(flags(Sense::LevelLow), 0x05);
}

#[test]
fn a_fault_leaves_what_was_written() {
    let fault = DtbError::MalformedProperty { site: Site::VirtioMmio, property: "reg" };
    let ecam = "pci-host-ecam-generic";
    let first = motherboard_device(b"MBR0", 0, 0x1000, 0x100);
    let second = motherboard_device(b"MBR1", 1, 0x2000, 0x100);

    // A node that does not decode: the devices before it, and nothing of its own.
    let mut bad = node(&[ecam], &[]);
    bad.reg = Err(fault);
    let t = tree(vec![node(&[ecam], &[(0x1000, 0x100)]), bad, node(&[ecam], &[(1, 1)])]);
    let mut slot = [0xeeu8; 200];
    assert_eq!(motherboard_resource::emit(&mut slot, 3, &t), Err(fault));
    assert_eq!(slot[..3], [0xee; 3]);
    assert_eq!(slot[3..87], first[..]);
    assert_eq!(slot[87..], [0xee; 113]);

    // A window that is none: the device up to its window.
    let t = tree(vec![node(&[ecam], &[(0x1000, 0x100)]), node(&[ecam], &[(0x2000, 0)])]);
    let mut slot = [0xeeu8; 200];
    assert_eq!(motherboard_resource::emit(&mut slot, 3, &t), Err(DtbError::Internal));
    assert_eq!(slot[3..87], first[..]);
    assert_eq!(slot[87..123], second[..36]);
    assert_eq!(slot[123..], [0xee; 77]);

    // Too little room: a first part of the device.
    let t = tree(vec![node(&[ecam], &[(0x1000, 0x100)]), node(&[ecam], &[(0x2000, 0x100)])]);
    let mut slot = [0xeeu8; 170];
    assert_eq!(motherboard_resource::emit(&mut slot, 3, &t), Err(DtbError::Internal));
    assert_eq!(slot[3..87], first[..]);
    let n = slot[87..].iter().take_while(|b| **b != 0xee).count();
    assert_eq!(slot[87..87 + n], second[..n]);
    assert!(slot[87 + n..].iter().all(|b| *b == 0xee));
    assert!(n > 36);

    // The same of the other emitter.
    let virtio = "virtio,mmio";
    let first = virtio_device(b"VM00", 0, 0x1000, 0x200, 0x03, 5);
    let second = virtio_device(b"VM01", 1, 0x2000, 0x200, 0x03, 5);
    let t = tree(vec![node(&[virtio], &[(0x1000, 0x200)]), node(&[virtio], &[])]);
    let mut slot = [0xeeu8; 250];
    assert_eq!(virtio_mmio::emit(&mut slot, 1, &t), Err(fault));
    assert_eq!(slot[0], 0xee);
    assert_eq!(slot[1..99], first[..]);
    assert_eq!(slot[99..], [0xee; 151]);
    let t = tree(vec![node(&[virtio], &[(0x1000, 0x200)]), node(&[virtio], &[(0x2000, 0)])]);
    assert_eq!(virtio_mmio::emit(&mut slot, 1, &t), Err(DtbError::Internal));
    assert_eq!(slot[1..99], first[..]);
    assert_eq!(slot[99..140], second[..41]);
    assert_eq!(slot[140..], [0xee; 110]);

    // A tree that cannot be walked, and the last index.
    let mut slot = [0xeeu8; 100];
    assert_eq!(virtio_mmio::emit(&mut slot, 0, &DtbTree { children: Err(fault) }), Err(fault));
    assert_eq!(slot, [0xee; 100]);
    let t = tree((0..256).map(|_| node(&[virtio], &[(0x1000, 0x200)])).collect());
    let mut slot = vec![0xeeu8; 256 * 98 + 1];
    assert_eq!(virtio_mmio::emit(&mut slot, 0, &t), Err(DtbError::Internal));
    assert_eq!(slot[255 * 98..255 * 98 + 4], [0x5b, 0x82, 0x40, 0x06]);
    assert_eq!(slot[256 * 98 - 2..], [0x79, 0, 0xee]);
}
