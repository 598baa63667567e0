//! DSDT `Device(VMnn)` emitter for virtio-mmio transports.
//!
//! On a DT platform the kernel finds virtio-mmio devices straight from the
//! device tree. x86 has no DT at runtime, so without an ACPI namespace device
//! the kernel never probes the transport. This emitter gives each virtio-mmio
//! node an ACPI device with `_HID "LNRO0005"` (the ID Linux's `virtio_mmio`
//! driver matches in ACPI mode) and a `_CRS` carrying the MMIO window + GSI.
//!
//! One device is emitted per declared transport, in tree order. Empty slots are
//! harmless: the driver reads the virtio magic at probe time and skips a slot
//! that has none.
use vstd::prelude::*;

use crate::aml;
use crate::dtb::{DtbError, DtbNode, DtbTree, NodeView, Sense, Site};
use crate::emit::Emitted;

verus! {

/// Fixed body bytes per `Device(VMnn)` before `_CRS`: `_HID` (string-valued name
/// of 8 characters) + `_UID` (Byte-valued).
pub const FIXED_NAMES_BYTES: usize = (1 + 4 + 10) + (1 + 4 + 1 + 1);

/// QWordMemory(window) + ExtendedInterrupt(GSI) + EndTag.
pub const CRS_DESCRIPTOR_BYTES: usize = aml::QWORD_MEMORY_BYTES + aml::EXTENDED_INTERRUPT_BYTES
    + aml::END_TAG_BYTES;

/// Total bytes for one virtio-mmio ACPI device: DeviceOp(2) + PkgLength(2) +
/// NameSeg(4) + body.
pub const DEVICE_BYTES: usize = 2 + aml::PKG_LENGTH_BYTES + 4 + FIXED_NAMES_BYTES
    + aml::CRS_WRAPPER_BYTES + CRS_DESCRIPTOR_BYTES;

/// "virtio,mmio".
pub open spec fn virtio_id() -> Seq<char> {
    "virtio,mmio"@
}

/// `VM` with the index in two decimal digits behind it.
pub open spec fn vm_name(index: u8) -> Seq<u8> {
    seq![0x56u8, 0x4du8, (0x30 + index / 10) as u8, (0x30 + index % 10) as u8]
}

/// "_HID".
pub open spec fn hid() -> Seq<u8> {
    seq![0x5fu8, 0x48u8, 0x49u8, 0x44u8]
}

/// "_UID".
pub open spec fn uid() -> Seq<u8> {
    seq![0x5fu8, 0x55u8, 0x49u8, 0x44u8]
}

/// "LNRO0005".
pub open spec fn lnro0005() -> Seq<u8> {
    seq![0x4cu8, 0x4eu8, 0x52u8, 0x4fu8, 0x30u8, 0x30u8, 0x30u8, 0x35u8]
}

/// The device up to its window descriptor.
pub open spec fn device_head(index: u8) -> Seq<u8> {
    aml::device_header(vm_name(index), 98) + aml::name_string(hid(), lnro0005()) + aml::name_byte(
        uid(),
        index,
    ) + aml::crs_header(57)
}

/// `Device(VMnn)` with the window of `size` bytes at `base` and one interrupt.
pub open spec fn device(index: u8, base: u64, size: u64, gsi: u32, sense: Sense) -> Seq<u8> {
    device_head(index) + aml::qword_memory(base, size) + aml::extended_interrupt(gsi, sense)
        + aml::end_tag()
}

/// The window and the interrupt of a transport.
pub open spec fn transport(node: NodeView) -> Result<((u64, u64), (u32, Sense)), DtbError> {
    match crate::dtb::first_window(node) {
        Err(e) => Err(e),
        Ok(None) => Err(
            DtbError::MalformedProperty { site: Site::VirtioMmio, property: "reg" },
        ),
        Ok(Some(window)) => match node.interrupts {
            Err(e) => Err(e),
            Ok(line) => Ok((window, line)),
        },
    }
}

/// The device of a transport.
pub open spec fn transport_device(node: NodeView, index: u8) -> Result<Seq<u8>, DtbError> {
    match transport(node) {
        Err(e) => Err(e),
        Ok(((base, size), (gsi, sense))) => if crate::dtb::is_window(base, size) {
            Ok(device(index, base, size, gsi, sense))
        } else {
            Err(DtbError::Internal)
        },
    }
}

/// The device of a node: one for every virtio-mmio transport.
pub open spec fn node_device(node: NodeView, index: u8) -> Result<Option<Seq<u8>>, DtbError> {
    match crate::dtb::compatible_with(node, virtio_id()) {
        Err(e) => Err(e),
        Ok(false) => Ok(None),
        Ok(true) => match transport_device(node, index) {
            Err(e) => Err(e),
            Ok(d) => Ok(Some(d)),
        },
    }
}

/// What may get written of the device of a node that a fault is at: all of it where
/// only room or a further index is missing, the part before the window where that is
/// none, and nothing where the node does not decode.
pub open spec fn node_begun(node: NodeView, index: u8) -> Seq<u8> {
    match (crate::dtb::compatible_with(node, virtio_id()), transport(node)) {
        (Ok(true), Ok(((base, size), (gsi, sense)))) => if crate::dtb::is_window(base, size) {
            device(index, base, size, gsi, sense)
        } else {
            device_head(index)
        },
        _ => seq![],
    }
}

/// The devices of a tree, in `room` bytes.
pub open spec fn transport_devices(tree: Result<Seq<NodeView>, DtbError>, room: int) -> Result<
    Emitted,
    DtbError,
> {
    crate::emit::tree_devices(tree, room, |node: NodeView, index: u8| node_device(node, index))
}

/// The bytes that the devices of a tree take up.
pub open spec fn total_bytes(tree: Result<Seq<NodeView>, DtbError>) -> Result<int, DtbError> {
    match crate::emit::tree_counted(tree, virtio_id()) {
        Err(e) => Err(e),
        Ok(n) => if n * 98 > usize::MAX {
            Err(DtbError::Internal)
        } else {
            Ok(n * 98)
        },
    }
}

/// A device takes up [`DEVICE_BYTES`], and its package length counts all of them
/// but the opcode.
pub proof fn device_size_is_pinned(index: u8, base: u64, size: u64, gsi: u32, sense: Sense)
    ensures
        DEVICE_BYTES == 98,
        device_head(index).len() == 41,
        device(index, base, size, gsi, sense).len() == 98,
        device(index, base, size, gsi, sense).subrange(2, 4) == aml::pkg_length(
            device(index, base, size, gsi, sense).len() - 2,
        ),
        device(index, base, size, gsi, sense).subrange(4, 8) == vm_name(index),
{
    let d = device(index, base, size, gsi, sense);
    let h = aml::device_header(vm_name(index), 98);
    assert(d.subrange(0, 8) =~= h);
    assert(d.subrange(2, 4) =~= h.subrange(2, 4));
    assert(h.subrange(2, 4) =~= aml::pkg_length(96));
    assert(d.subrange(4, 8) =~= vm_name(index));
}

/// Up to a hundred devices have name segments, each its own.
pub proof fn transport_names_are_valid(a: u8, b: u8)
    requires
        a < 100,
        b < 100,
    ensures
        aml::is_name_seg(vm_name(a)),
        vm_name(a) == vm_name(b) ==> a == b,
{
    if vm_name(a) == vm_name(b) {
        assert(vm_name(a)[2] == vm_name(b)[2]);
        assert(vm_name(a)[3] == vm_name(b)[3]);
    }
}

/// What is emitted takes up exactly the bytes that were announced.
pub proof fn emission_fills_announced_bytes(tree: Result<Seq<NodeView>, DtbError>, room: int)
    requires
        transport_devices(tree, room) is Ok,
        room <= usize::MAX,
    ensures
        total_bytes(tree) == Ok::<int, DtbError>(
            transport_devices(tree, room)->Ok_0.data.len() as int,
        ),
{
    let f = |node: NodeView, index: u8| node_device(node, index);
    assert forall|node: NodeView, index: u8| (#[trigger] f(node, index)) matches Ok(d) implies {
        &&& crate::dtb::compatible_with(node, virtio_id()) == Ok::<bool, DtbError>(
            f(node, index)->Ok_0 is Some,
        )
        &&& f(node, index)->Ok_0 is Some ==> f(node, index)->Ok_0->0.len() == 98
    } by {
        if f(node, index) matches Ok(Some(_)) {
            let t = transport(node)->Ok_0;
            device_size_is_pinned(index, t.0.0, t.0.1, t.1.0, t.1.1);
        }
    }
    crate::emit::lemma_devices_size(tree->Ok_0, room, f, virtio_id(), 98);
}

/// `VMnn` name segment (two decimal digits).
pub fn name_seg(index: u8) -> (r: [u8; 4])
    ensures
        r@ == vm_name(index),
{
    let r: [u8; 4] = [0x56, 0x4d, 0x30 + (index / 10), 0x30 + (index % 10)];
    assert(r@ =~= vm_name(index));
    r
}

/// Count the `virtio,mmio` transports declared in the device tree.
pub fn count_devices(tree: &DtbTree) -> (r: Result<usize, DtbError>)
    ensures
        match r {
            Ok(n) => crate::emit::tree_counted(tree@, virtio_id()) == Ok::<int, DtbError>(n as int),
            Err(e) => crate::emit::tree_counted(tree@, virtio_id()) == Err::<int, DtbError>(e),
        },
{
    let children: &Vec<DtbNode> = match &tree.children {
        Ok(children) => children,
        Err(e) => return Err(*e),
    };
    let ghost nodes = crate::dtb::nodes_view(children@);
    let mut n: usize = 0;
    let mut i: usize = 0;
    assert(nodes.take(0) =~= seq![]);
    while i < children.len()
        invariant
            i <= children@.len(),
            n <= i,
            nodes == crate::dtb::nodes_view(children@),
            tree@ == Ok::<Seq<NodeView>, DtbError>(nodes),
            crate::emit::counted(nodes.take(i as int), virtio_id()) == Ok::<int, DtbError>(
                n as int,
            ),
        decreases children@.len() - i,
    {
        proof {
            assert(nodes[i as int] == children@[i as int]@);
            assert(nodes.take(i + 1).drop_last() =~= nodes.take(i as int));
            assert(nodes.take(i + 1).last() == nodes[i as int]);
        }
        match children[i].has_compatible("virtio,mmio") {
            Ok(wanted) => {
                if wanted {
                    n = n + 1;
                }
            },
            Err(e) => {
                proof {
                    crate::emit::lemma_counted_fault(nodes, i + 1, virtio_id());
                }
                return Err(e);
            },
        }
        i = i + 1;
    }
    assert(nodes.take(nodes.len() as int) =~= nodes);
    Ok(n)
}

/// DSDT byte cost contributed by the virtio-mmio devices.
pub fn dsdt_total_bytes(tree: &DtbTree) -> (r: Result<usize, DtbError>)
    ensures
        match r {
            Ok(n) => total_bytes(tree@) == Ok::<int, DtbError>(n as int),
            Err(e) => total_bytes(tree@) == Err::<int, DtbError>(e),
        },
{
    match count_devices(tree) {
        Ok(n) => match n.checked_mul(DEVICE_BYTES) {
            Some(total) => Ok(total),
            None => Err(DtbError::Internal),
        },
        Err(e) => Err(e),
    }
}

/// Failing to write the head is failing to write the device.
proof fn lemma_head_failed(
    before: Seq<u8>,
    pos: int,
    index: u8,
    whole: Seq<u8>,
    after: Seq<u8>,
    r: Result<usize, DtbError>,
)
    requires
        aml::wrote(before, pos, device_head(index), after, r),
        r is Err,
        device_head(index).len() <= whole.len(),
        whole.take(device_head(index).len() as int) == device_head(index),
    ensures
        aml::wrote(before, pos, whole, after, r),
        aml::wrote_part(before, pos, device_head(index), after),
{
    aml::lemma_failed_within(before, pos, device_head(index), whole, after, r);
}

/// Writes `Device(VMnn)` for a transport and gives the position behind it. A node
/// that cannot be decoded leaves the slot as it is.
pub fn write_one_device(slot: &mut [u8], pos: usize, node: &DtbNode, index: u8) -> (r: Result<
    usize,
    DtbError,
>)
    ensures
        match transport_device(node@, index) {
            Ok(d) => aml::wrote(old(slot)@, pos as int, d, final(slot)@, r),
            Err(e) => {
                &&& r == Err::<usize, DtbError>(e)
                &&& transport(node@) is Err ==> final(slot)@ == old(slot)@
                &&& transport(node@) is Ok ==> aml::wrote_part(
                    old(slot)@,
                    pos as int,
                    device_head(index),
                    final(slot)@,
                )
            },
        },
{
    let (base, size): (u64, u64) = match node.first_reg() {
        Ok(Some(window)) => window,
        Ok(None) => return Err(
            DtbError::MalformedProperty { site: Site::VirtioMmio, property: "reg" },
        ),
        Err(e) => return Err(e),
    };
    let (gsi, sense): (u32, Sense) = match node.first_interrupt() {
        Ok(line) => line,
        Err(e) => return Err(e),
    };
    let ghost before = slot@;
    let ghost at = pos as int;
    let ghost head = device_head(index);
    let ghost whole = device(index, base, size, gsi, sense);
    let ghost d1 = aml::device_header(vm_name(index), 98);
    let ghost d2 = d1 + aml::name_string(hid(), lnro0005());
    let ghost d3 = d2 + aml::name_byte(uid(), index);
    proof {
        assert(head =~= d3 + aml::crs_header(57));
        assert(whole.take(head.len() as int) =~= head);
    }
    let name: [u8; 4] = name_seg(index);
    let r1: Result<usize, DtbError> = aml::write_device_header(slot, pos, &name, DEVICE_BYTES);
    proof {
        if r1 is Err {
            assert(head.take(d1.len() as int) =~= d1);
            aml::lemma_failed_within(before, at, d1, head, slot@, r1);
            lemma_head_failed(before, at, index, whole, slot@, r1);
        }
    }
    let p1: usize = match r1 {
        Ok(p) => p,
        Err(e) => return Err(e),
    };
    let hid_seg: [u8; 4] = [0x5f, 0x48, 0x49, 0x44];
    assert(hid_seg@ =~= hid());
    let driver: [u8; 8] = [0x4c, 0x4e, 0x52, 0x4f, 0x30, 0x30, 0x30, 0x35];
    assert(driver@ =~= lnro0005());
    let ghost s1 = slot@;
    let r2: Result<usize, DtbError> = aml::write_name_string(
        slot,
        p1,
        &hid_seg,
        driver.as_slice(),
    );
    proof {
        assert(head.take(d2.len() as int) =~= d2);
        aml::lemma_wrote_next(
            before,
            at,
            d1,
            s1,
            p1,
            aml::name_string(hid(), lnro0005()),
            slot@,
            r2,
            head,
        );
        if r2 is Err {
            lemma_head_failed(before, at, index, whole, slot@, r2);
        }
    }
    let p2: usize = match r2 {
        Ok(p) => p,
        Err(e) => return Err(e),
    };
    let uid_seg: [u8; 4] = [0x5f, 0x55, 0x49, 0x44];
    assert(uid_seg@ =~= uid());
    let ghost s2 = slot@;
    let r3: Result<usize, DtbError> = aml::write_name_byte(slot, p2, &uid_seg, index);
    proof {
        assert(head.take(d3.len() as int) =~= d3);
        aml::lemma_wrote_next(before, at, d2, s2, p2, aml::name_byte(uid(), index), slot@, r3, head);
        if r3 is Err {
            lemma_head_failed(before, at, index, whole, slot@, r3);
        }
    }
    let p3: usize = match r3 {
        Ok(p) => p,
        Err(e) => return Err(e),
    };
    let ghost s3 = slot@;
    let r4: Result<usize, DtbError> = aml::write_crs_buffer_header(slot, p3, CRS_DESCRIPTOR_BYTES);
    proof {
        assert(head.take(head.len() as int) =~= head);
        aml::lemma_wrote_next(before, at, d3, s3, p3, aml::crs_header(57), slot@, r4, head);
        if r4 is Err {
            lemma_head_failed(before, at, index, whole, slot@, r4);
        }
    }
    let p4: usize = match r4 {
        Ok(p) => p,
        Err(e) => return Err(e),
    };
    let ghost s4 = slot@;
    let ghost d5 = head + aml::qword_memory(base, size);
    let r5: Result<usize, DtbError> = aml::write_qword_memory(slot, p4, base, size);
    proof {
        if crate::dtb::is_window(base, size) {
            assert(whole.take(d5.len() as int) =~= d5);
            aml::lemma_wrote_next(
                before,
                at,
                head,
                s4,
                p4,
                aml::qword_memory(base, size),
                slot@,
                r5,
                whole,
            );
        } else {
            assert(slot@ == aml::overlaid(before, at, head.take(head.len() as int)));
        }
    }
    let p5: usize = match r5 {
        Ok(p) => p,
        Err(e) => return Err(e),
    };
    let ghost s5 = slot@;
    let ghost d6 = d5 + aml::extended_interrupt(gsi, sense);
    let r6: Result<usize, DtbError> = aml::write_extended_interrupt(slot, p5, gsi, sense);
    proof {
        assert(whole.take(d6.len() as int) =~= d6);
        aml::lemma_wrote_next(
            before,
            at,
            d5,
            s5,
            p5,
            aml::extended_interrupt(gsi, sense),
            slot@,
            r6,
            whole,
        );
    }
    let p6: usize = match r6 {
        Ok(p) => p,
        Err(e) => return Err(e),
    };
    let ghost s6 = slot@;
    let r7: Result<usize, DtbError> = aml::write_end_tag(slot, p6);
    proof {
        assert(whole.take(whole.len() as int) =~= whole);
        aml::lemma_wrote_next(before, at, d6, s6, p6, aml::end_tag(), slot@, r7, whole);
    }
    r7
}

/// Emit a `Device(VMnn)` for every `virtio,mmio` node. Returns the new position.
/// A fault leaves the devices before it in the slot, and a first part of the next.
pub fn emit(slot: &mut [u8], pos: usize, tree: &DtbTree) -> (r: Result<usize, DtbError>)
    ensures
        crate::emit::emitted_at(
            old(slot)@,
            pos as int,
            tree@,
            |node: NodeView, index: u8| node_device(node, index),
            |node: NodeView, index: u8| node_begun(node, index),
            final(slot)@,
            r,
        ),
{
    let ghost before = slot@;
    let ghost room = before.len() - pos;
    let ghost f = |node: NodeView, index: u8| node_device(node, index);
    let ghost begun = |node: NodeView, index: u8| node_begun(node, index);
    let children: &Vec<DtbNode> = match &tree.children {
        Ok(children) => children,
        Err(e) => return Err(*e),
    };
    let ghost nodes = crate::dtb::nodes_view(children@);
    let mut cursor: usize = pos;
    let mut index: u8 = 0;
    let mut i: usize = 0;
    proof {
        assert(nodes.take(0) =~= seq![]);
        assert(slot@ =~= aml::overlaid(before, pos as int, seq![]));
    }
    while i < children.len()
        invariant
            i <= children@.len(),
            nodes == crate::dtb::nodes_view(children@),
            tree@ == Ok::<Seq<NodeView>, DtbError>(nodes),
            f == (|node: NodeView, index: u8| node_device(node, index)),
            begun == (|node: NodeView, index: u8| node_begun(node, index)),
            before == old(slot)@,
            room == before.len() - pos,
            slot@.len() == before.len(),
            crate::emit::devices(nodes.take(i as int), room, f) matches Ok(t) && {
                &&& t.count == index
                &&& cursor == pos + t.data.len()
                &&& t.data.len() == 0 || cursor <= before.len()
                &&& slot@ == aml::overlaid(before, pos as int, t.data)
            },
        decreases children@.len() - i,
    {
        let ghost t = crate::emit::devices(nodes.take(i as int), room, f)->Ok_0;
        let ghost middle = slot@;
        let ghost next = node_begun(nodes[i as int], index);
        proof {
            assert(nodes[i as int] == children@[i as int]@);
            assert(nodes.take(i + 1).drop_last() =~= nodes.take(i as int));
            assert(nodes.take(i + 1).last() == nodes[i as int]);
            crate::emit::lemma_wrote_nothing(middle, cursor as int, next);
            if f(nodes[i as int], index) is Err && next.len() == 0 {
                crate::emit::lemma_left_at_fault(
                    before,
                    pos as int,
                    nodes,
                    i as int,
                    f,
                    begun,
                    middle,
                    middle,
                );
            }
        }
        let wanted: bool = match children[i].has_compatible("virtio,mmio") {
            Ok(wanted) => wanted,
            Err(e) => return Err(e),
        };
        if !wanted {
            i = i + 1;
            continue;
        }
        let wrote: Result<usize, DtbError> = write_one_device(slot, cursor, &children[i], index);
        proof {
            if transport(nodes[i as int]) is Ok {
                let tr = transport(nodes[i as int])->Ok_0;
                device_size_is_pinned(index, tr.0.0, tr.0.1, tr.1.0, tr.1.1);
            }
            if wrote is Ok {
                assert(slot@ =~= aml::overlaid(before, pos as int, t.data + next));
                crate::emit::lemma_wrote_all(middle, cursor as int, next, slot@);
            }
            if wrote is Err || index == 255 {
                crate::emit::lemma_left_at_fault(
                    before,
                    pos as int,
                    nodes,
                    i as int,
                    f,
                    begun,
                    middle,
                    slot@,
                );
            }
        }
        cursor = match wrote {
            Ok(p) => p,
            Err(e) => return Err(e),
        };
        index = match index.checked_add(1) {
            Some(n) => n,
            None => return Err(DtbError::Internal),
        };
        i = i + 1;
    }
    assert(nodes.take(nodes.len() as int) =~= nodes);
    Ok(cursor)
}

/// The head of a device, byte by byte.
proof fn lemma_head_bytes(index: u8)
    ensures
        ({
            let d = device_head(index);
            &&& d.len() == 41
            &&& d[0] == 0x5b && d[1] == 0x82 && d[2] == 0x40 && d[3] == 0x06
            &&& d[4] as char == 'V' && d[5] as char == 'M'
            &&& d[6] as int == '0' as int + index as int / 10
            &&& d[7] as int == '0' as int + index as int % 10
            &&& d[8] == 0x08 && d[9] as char == '_' && d[10] as char == 'H' && d[11] as char == 'I' && d[12] as char == 'D'
            &&& d[13] == 0x0d && d[14] as char == 'L' && d[15] as char == 'N' && d[16] as char == 'R' && d[17] as char == 'O' && d[18] as char == '0' && d[19] as char == '0' && d[20] as char == '0' && d[21] as char == '5'
            &&& d[22] == 0
            &&& d[23] == 0x08 && d[24] as char == '_' && d[25] as char == 'U' && d[26] as char == 'I' && d[27] as char == 'D'
            &&& d[28] == 0x0a && d[29] == index
            &&& d[30] == 0x08 && d[31] as char == '_' && d[32] as char == 'C' && d[33] as char == 'R' && d[34] as char == 'S'
            &&& d[35] == 0x11 && d[36] == 0x4e && d[37] == 0x03
            &&& d[38] == 0x0b && d[39] == 57 && d[40] == 0
        }),
{
}

/// The device of an index, a window and an interrupt, field by field: `Device(VMnn)` with
/// the `_HID` "LNRO0005", the index as its `_UID`, the window, from its first address to
/// its last, and the interrupt with its sense.
pub proof fn device_gives_window_and_interrupt(
    index: u8,
    base: u64,
    size: u64,
    gsi: u32,
    sense: Sense,
)
    requires
        crate::dtb::is_window(base, size),
    ensures
        ({
            let d = device(index, base, size, gsi, sense);
            let flags = d[90] as int;
            &&& d.len() == 98
            &&& d[0] == 0x5b && d[1] == 0x82 && d[2] == 0x40 && d[3] == 0x06
            &&& d[4] as char == 'V' && d[5] as char == 'M'
            &&& d[6] as int == '0' as int + index as int / 10
            &&& d[7] as int == '0' as int + index as int % 10
            &&& d[8] == 0x08 && d[9] as char == '_' && d[10] as char == 'H' && d[11] as char == 'I' && d[12] as char == 'D'
            &&& d[13] == 0x0d && d[14] as char == 'L' && d[15] as char == 'N' && d[16] as char == 'R' && d[17] as char == 'O' && d[18] as char == '0' && d[19] as char == '0' && d[20] as char == '0' && d[21] as char == '5'
            &&& d[22] == 0
            &&& d[23] == 0x08 && d[24] as char == '_' && d[25] as char == 'U' && d[26] as char == 'I' && d[27] as char == 'D'
            &&& d[28] == 0x0a && d[29] == index
            &&& d[30] == 0x08 && d[31] as char == '_' && d[32] as char == 'C' && d[33] as char == 'R' && d[34] as char == 'S'
            &&& d[35] == 0x11 && d[36] == 0x4e && d[37] == 0x03
            &&& d[38] == 0x0b && d[39] == 57 && d[40] == 0
            &&& d[41] == 0x8a && d[42] == 0x2b && d[43] == 0 && d[44] == 0
            &&& d[45] == 0x0d && d[46] == 0x01
            &&& crate::bytes::le64(d, 47) == 0
            &&& crate::bytes::le64(d, 55) == base
            &&& crate::bytes::le64(d, 63) == base + size - 1
            &&& crate::bytes::le64(d, 71) == 0
            &&& crate::bytes::le64(d, 79) == size
            &&& d[87] == 0x89 && d[88] == 0x06 && d[89] == 0 && d[91] == 0x01
            &&& flags == match sense {
                Sense::LevelHigh => 1int,
                Sense::EdgeRising => 3,
                Sense::LevelLow => 5,
                Sense::EdgeFalling => 7,
            }
            &&& crate::bytes::le32(d, 92) == gsi
            &&& d[96] == 0x79 && d[97] == 0
        }),
{
    let d = device(index, base, size, gsi, sense);
    device_size_is_pinned(index, base, size, gsi, sense);
    lemma_head_bytes(index);
    let h = device_head(index);
    assert(forall|k: int| 0 <= k < 41 ==> #[trigger] d[k] == h[k]);
    let q = aml::qword_memory(base, size);
    aml::memory_descriptor_spans_the_window(base, size);
    assert(forall|k: int| 0 <= k < 46 ==> d[41 + k] == #[trigger] q[k]);
    lemma_moved(d, q, 41);
    let x = aml::extended_interrupt(gsi, sense);
    aml::interrupt_descriptor_gives_line_and_sense(gsi, sense);
    assert(d[87] == x[0] && d[88] == x[1] && d[89] == x[2] && d[90] == x[3] && d[91] == x[4]);
    assert(d[92] == x[5] && d[93] == x[6] && d[94] == x[7] && d[95] == x[8]);
}

/// A failing device is begun with the same bytes up to its window, whatever that is.
pub proof fn device_begins_with_its_head(index: u8, base: u64, size: u64, gsi: u32, sense: Sense)
    ensures
        device_head(index).len() == 41,
        device(index, base, size, gsi, sense).take(41) == device_head(index),
{
    device_size_is_pinned(index, base, size, gsi, sense);
    assert(device(index, base, size, gsi, sense).take(41) =~= device_head(index));
}

/// The long words of a window descriptor stand as far behind as it does.
proof fn lemma_moved(d: Seq<u8>, q: Seq<u8>, at: int)
    requires
        q.len() == 46,
        0 <= at,
        at + 46 <= d.len(),
        forall|k: int| 0 <= k < 46 ==> d[at + k] == #[trigger] q[k],
    ensures
        crate::bytes::le64(d, at + 6) == crate::bytes::le64(q, 6),
        crate::bytes::le64(d, at + 14) == crate::bytes::le64(q, 14),
        crate::bytes::le64(d, at + 22) == crate::bytes::le64(q, 22),
        crate::bytes::le64(d, at + 30) == crate::bytes::le64(q, 30),
        crate::bytes::le64(d, at + 38) == crate::bytes::le64(q, 38),
        d[at] == q[0] && d[at + 1] == q[1] && d[at + 2] == q[2] && d[at + 3] == q[3] && d[at + 4]
            == q[4] && d[at + 5] == q[5],
{
    let s = d.subrange(at, at + 46);
    assert(s =~= q);
    assert forall|k: int| 0 <= k <= 38 implies crate::bytes::le64(d, at + k) == #[trigger] crate::bytes::le64(
        q,
        k,
    ) by {
        assert(s[k] == d[at + k] && s[k + 1] == d[at + k + 1] && s[k + 2] == d[at + k + 2] && s[k
            + 3] == d[at + k + 3] && s[k + 4] == d[at + k + 4] && s[k + 5] == d[at + k + 5] && s[k
            + 6] == d[at + k + 6] && s[k + 7] == d[at + k + 7]);
    }
    assert(q[0] == d[at + 0]);
}

/// A node is given a device exactly where one of its `compatible` strings is
/// "virtio,mmio": that of its first window and its interrupt. Without a window it is
/// refused for that, with one that is none too, and what cannot be decoded is the fault,
/// windows before interrupts.
pub proof fn transports_are_given_devices(node: NodeView, index: u8)
    ensures
        match node.compatible {
            Err(why) => node_device(node, index) == Err::<Option<Seq<u8>>, DtbError>(why),
            Ok(ids) => if !ids.contains("virtio,mmio"@) {
                node_device(node, index) == Ok::<Option<Seq<u8>>, DtbError>(None)
            } else {
                match (node.reg, node.interrupts) {
                    (Err(why), _) => node_device(node, index) == Err::<
                        Option<Seq<u8>>,
                        DtbError,
                    >(why),
                    (Ok(windows), line) => if windows.len() == 0 {
                        node_device(node, index) == Err::<Option<Seq<u8>>, DtbError>(
                            DtbError::MalformedProperty {
                                site: Site::VirtioMmio,
                                property: "reg",
                            },
                        )
                    } else if line is Err {
                        node_device(node, index) == Err::<Option<Seq<u8>>, DtbError>(line->Err_0)
                    } else if windows[0].1 > 0 && windows[0].0 + windows[0].1 - 1
                        <= 0xffff_ffff_ffff_ffff {
                        node_device(node, index) == Ok::<Option<Seq<u8>>, DtbError>(
                            Some(
                                device(
                                    index,
                                    windows[0].0,
                                    windows[0].1,
                                    line->Ok_0.0,
                                    line->Ok_0.1,
                                ),
                            ),
                        )
                    } else {
                        node_device(node, index) == Err::<Option<Seq<u8>>, DtbError>(
                            DtbError::Internal,
                        )
                    },
                }
            },
        },
{
}

/// The device that is written for a transport is the one that its node is given.
pub proof fn transports_are_written_as_given(node: NodeView, index: u8)
    requires
        node.compatible matches Ok(ids) && ids.contains("virtio,mmio"@),
    ensures
        match transport_device(node, index) {
            Ok(d) => node_device(node, index) == Ok::<Option<Seq<u8>>, DtbError>(Some(d)),
            Err(why) => node_device(node, index) == Err::<Option<Seq<u8>>, DtbError>(why),
        },
{
}

/// A transport is written by its window and its interrupt, whatever it is compatible
/// with.
pub proof fn compatibility_does_not_matter_to_writing(a: NodeView, b: NodeView, index: u8)
    requires
        a.reg == b.reg,
        a.interrupts == b.interrupts,
    ensures
        transport_device(a, index) == transport_device(b, index),
        transport(a) is Ok <==> a.reg is Ok && a.reg->Ok_0.len() > 0 && a.interrupts is Ok,
{
}

/// Of a node that is refused nothing is begun but the head of its device, and that only
/// where its window is none; of a node with a device all of it may be.
pub proof fn only_devices_with_a_window_are_begun(node: NodeView, index: u8)
    ensures
        node_device(node, index) matches Ok(Some(d)) ==> node_begun(node, index) == d,
        node_device(node, index) is Ok && node_device(node, index)->Ok_0 is None ==> node_begun(
            node,
            index,
        ).len() == 0,
        node_device(node, index) is Err ==> {
            ||| node_begun(node, index).len() == 0
            ||| node_begun(node, index) == device_head(index) && node.reg is Ok
                && node.reg->Ok_0.len() > 0 && !crate::dtb::is_window(
                node.reg->Ok_0[0].0,
                node.reg->Ok_0[0].1,
            )
        },
{
}

/// One more node adds its device behind the others, under the next index, and costs the
/// bytes of one: those announced are 98 for every transport.
pub proof fn one_more_transport_adds_its_device(nodes: Seq<NodeView>, node: NodeView, room: int)
    ensures
        ({
            let after = transport_devices(Ok(nodes.push(node)), room);
            match transport_devices(Ok(nodes), room) {
                Err(why) => after == Err::<Emitted, DtbError>(why),
                Ok(t) => match node_device(node, t.count as u8) {
                    Err(why) => after == Err::<Emitted, DtbError>(why),
                    Ok(None) => after == Ok::<Emitted, DtbError>(t),
                    Ok(Some(d)) => if t.data.len() + d.len() <= room && t.count < 255 {
                        &&& after is Ok
                        &&& after->Ok_0.data == t.data + d
                        &&& after->Ok_0.count == t.count + 1
                    } else {
                        after == Err::<Emitted, DtbError>(DtbError::Internal)
                    },
                },
            }
        }),
        match total_bytes(Ok(nodes)) {
            Err(why) => total_bytes(Ok(nodes.push(node))) is Err,
            Ok(n) => match node.compatible {
                Err(why) => total_bytes(Ok(nodes.push(node))) == Err::<int, DtbError>(why),
                Ok(ids) => if !ids.contains("virtio,mmio"@) {
                    total_bytes(Ok(nodes.push(node))) == Ok::<int, DtbError>(n)
                } else if n + 98 <= usize::MAX {
                    total_bytes(Ok(nodes.push(node))) == Ok::<int, DtbError>(n + 98)
                } else {
                    total_bytes(Ok(nodes.push(node))) == Err::<int, DtbError>(DtbError::Internal)
                },
            },
        },
{
    let f = |n: NodeView, i: u8| node_device(n, i);
    crate::emit::one_more_node_adds_its_device(nodes, node, room, f);
    crate::emit::one_more_node_is_counted(nodes, node, virtio_id());
}

/// What is announced fails only for what the count fails for, or because the bytes cannot
/// be addressed; a tree without transports costs nothing.
pub proof fn announced_bytes_follow_the_count(tree: Result<Seq<NodeView>, DtbError>, why: DtbError)
    ensures
        match crate::emit::tree_counted(tree, "virtio,mmio"@) {
            Err(e) => total_bytes(tree) == Err::<int, DtbError>(e),
            Ok(n) => if 98 * n <= usize::MAX {
                total_bytes(tree) == Ok::<int, DtbError>(98 * n)
            } else {
                total_bytes(tree) == Err::<int, DtbError>(DtbError::Internal)
            },
        },
        transport_devices(Ok(seq![]), 0) is Ok,
        transport_devices(Ok(seq![]), 0)->Ok_0.data.len() == 0,
        transport_devices(Ok(seq![]), 0)->Ok_0.count == 0,
        transport_devices(Err(why), 0) == Err::<Emitted, DtbError>(why),
{
}

} // verus!
