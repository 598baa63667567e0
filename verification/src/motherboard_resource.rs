//! DSDT motherboard resource emitter.
//!
//! Linux's late ECAM validation accepts an MCFG allocation only when the ECAM
//! range is reserved by firmware, commonly through a `PNP0C02` motherboard
//! resource device. MCFG names the ECAM base; this DSDT device reserves the
//! same `reg` window of the device tree so an ECAM-only x86 guest does not need
//! legacy CF8/CFC config-space probing.
use vstd::prelude::*;

use crate::aml;
use crate::dtb::{DtbError, DtbNode, DtbTree, NodeView};
use crate::emit::Emitted;

verus! {

/// `_HID` + `_UID`.
const FIXED_NAMES_BYTES: usize = (1 + 4 + 1 + 4) + (1 + 4 + 1 + 1);

/// Bytes of one motherboard resource device.
pub fn motherboard_aml_bytes() -> (r: usize)
    ensures
        r == 84,
{
    let descriptors: usize = aml::QWORD_MEMORY_BYTES + aml::END_TAG_BYTES;
    let crs: usize = aml::CRS_WRAPPER_BYTES + descriptors;
    let body: usize = FIXED_NAMES_BYTES.saturating_add(crs);
    body.saturating_add(aml::PKG_LENGTH_BYTES).saturating_add(6)
}

/// "pci-host-ecam-generic".
pub open spec fn ecam_id() -> Seq<char> {
    "pci-host-ecam-generic"@
}

/// "MBR".
pub open spec fn mbr() -> Seq<u8> {
    seq![0x4du8, 0x42u8, 0x52u8]
}

/// "_HID".
pub open spec fn hid() -> Seq<u8> {
    seq![0x5fu8, 0x48u8, 0x49u8, 0x44u8]
}

/// "_UID".
pub open spec fn uid() -> Seq<u8> {
    seq![0x5fu8, 0x55u8, 0x49u8, 0x44u8]
}

/// The compressed form of "PNP0C02".
pub open spec fn pnp0c02() -> u32 {
    0x020c_d041
}

/// The device up to its window descriptor.
pub open spec fn device_head(index: u8) -> Seq<u8> {
    aml::device_header(aml::indexed_name(mbr(), index), 84) + aml::name_dword(hid(), pnp0c02())
        + aml::name_byte(uid(), index) + aml::crs_header(48)
}

/// `Device(MBRn)` that reserves the window of `size` bytes at `base`.
pub open spec fn device(index: u8, base: u64, size: u64) -> Seq<u8> {
    device_head(index) + aml::qword_memory(base, size) + aml::end_tag()
}

/// The device of a node: one for every ECAM host, over its first window.
pub open spec fn node_device(node: NodeView, index: u8) -> Result<Option<Seq<u8>>, DtbError> {
    match crate::dtb::compatible_with(node, ecam_id()) {
        Err(e) => Err(e),
        Ok(false) => Ok(None),
        Ok(true) => match crate::dtb::first_window(node) {
            Err(e) => Err(e),
            Ok(None) => Err(DtbError::Internal),
            Ok(Some((base, size))) => if crate::dtb::is_window(base, size) {
                Ok(Some(device(index, base, size)))
            } else {
                Err(DtbError::Internal)
            },
        },
    }
}

/// What may get written of the device of a node that a fault is at: all of it where
/// only room or a further index is missing, the part before the window where that is
/// none, and nothing where the node does not decode.
pub open spec fn node_begun(node: NodeView, index: u8) -> Seq<u8> {
    match (crate::dtb::compatible_with(node, ecam_id()), crate::dtb::first_window(node)) {
        (Ok(true), Ok(Some((base, size)))) => if crate::dtb::is_window(base, size) {
            device(index, base, size)
        } else {
            device_head(index)
        },
        _ => seq![],
    }
}

/// The devices of a tree, in `room` bytes.
pub open spec fn board_devices(tree: Result<Seq<NodeView>, DtbError>, room: int) -> Result<
    Emitted,
    DtbError,
> {
    crate::emit::tree_devices(tree, room, |node: NodeView, index: u8| node_device(node, index))
}

/// The bytes that the devices of a tree take up.
pub open spec fn total_bytes(tree: Result<Seq<NodeView>, DtbError>) -> Result<int, DtbError> {
    match tree {
        Ok(nodes) => crate::emit::summed(nodes, ecam_id(), 84),
        Err(e) => Err(e),
    }
}

/// A device takes up 84 bytes, and its package length counts all of them but the
/// opcode.
pub proof fn device_size_is_stable(index: u8, base: u64, size: u64)
    ensures
        device_head(index).len() == 36,
        device(index, base, size).len() == 84,
        device(index, base, size).subrange(2, 4) == aml::pkg_length(
            device(index, base, size).len() - 2,
        ),
        aml::is_name_seg(device(index, base, size).subrange(4, 8)),
{
    let d = device(index, base, size);
    let h = aml::device_header(aml::indexed_name(mbr(), index), 84);
    assert(d.subrange(0, 8) =~= h);
    assert(d.subrange(2, 4) =~= h.subrange(2, 4));
    assert(h.subrange(2, 4) =~= aml::pkg_length(82));
    assert(d.subrange(4, 8) =~= aml::indexed_name(mbr(), index));
    aml::indexed_names_are_valid(mbr(), index, index);
}

/// What is emitted takes up exactly the bytes that were announced.
pub proof fn emission_fills_announced_bytes(tree: Result<Seq<NodeView>, DtbError>, room: int)
    requires
        board_devices(tree, room) is Ok,
        room <= usize::MAX,
    ensures
        total_bytes(tree) == Ok::<int, DtbError>(board_devices(tree, room)->Ok_0.data.len() as int),
{
    let f = |node: NodeView, index: u8| node_device(node, index);
    assert forall|node: NodeView, index: u8| (#[trigger] f(node, index)) matches Ok(d) implies {
        &&& crate::dtb::compatible_with(node, ecam_id()) == Ok::<bool, DtbError>(f(node, index)->Ok_0 is Some)
        &&& f(node, index)->Ok_0 is Some ==> f(node, index)->Ok_0->0.len() == 84
    } by {
        if f(node, index) matches Ok(Some(_)) {
            let w = crate::dtb::first_window(node)->Ok_0->0;
            device_size_is_stable(index, w.0, w.1);
        }
    }
    crate::emit::lemma_devices_size(tree->Ok_0, room, f, ecam_id(), 84);
    crate::emit::lemma_summed(tree->Ok_0, ecam_id(), 84);
}

/// Writes `Device(MBRn)` for the window of `size` bytes at `base` and gives the
/// position behind it.
pub fn write_one_device(slot: &mut [u8], pos: usize, index: u8, base: u64, size: u64) -> (r: Result<
    usize,
    DtbError,
>)
    ensures
        crate::dtb::is_window(base, size) ==> aml::wrote(
            old(slot)@,
            pos as int,
            device(index, base, size),
            final(slot)@,
            r,
        ),
        !crate::dtb::is_window(base, size) ==> {
            &&& r == Err::<usize, DtbError>(DtbError::Internal)
            &&& aml::wrote_part(old(slot)@, pos as int, device_head(index), final(slot)@)
        },
{
    let ghost before = slot@;
    let ghost at = pos as int;
    let ghost head = device_head(index);
    let ghost name_bytes = aml::indexed_name(mbr(), index);
    let ghost d1 = seq![aml::EXT_OP_PREFIX, aml::DEVICE_OP];
    let ghost d2 = d1 + aml::pkg_length(82);
    let ghost d3 = d2 + name_bytes;
    let ghost d4 = d3 + aml::name_dword(hid(), pnp0c02());
    let ghost d5 = d4 + aml::name_byte(uid(), index);
    proof {
        assert(head =~= d5 + aml::crs_header(48));
    }
    let total: usize = motherboard_aml_bytes();
    let op: [u8; 2] = [aml::EXT_OP_PREFIX, aml::DEVICE_OP];
    assert(op@ =~= d1);
    let r1: Result<usize, DtbError> = aml::write_bytes(slot, pos, op.as_slice());
    proof {
        if r1 is Err {
            assert(head.take(d1.len() as int) =~= d1);
            aml::lemma_failed_within(before, at, d1, head, slot@, r1);
            lemma_head_failed(before, at, index, base, size, slot@, r1);
        }
    }
    let p1: usize = match r1 {
        Ok(p) => p,
        Err(e) => return Err(e),
    };
    let ghost s1 = slot@;
    let r2: Result<usize, DtbError> = aml::write_pkg_length(slot, p1, total - 2);
    proof {
        assert(head.take(d2.len() as int) =~= d2);
        aml::lemma_wrote_next(before, at, d1, s1, p1, aml::pkg_length(82), slot@, r2, head);
        if r2 is Err {
            lemma_head_failed(before, at, index, base, size, slot@, r2);
        }
    }
    let p2: usize = match r2 {
        Ok(p) => p,
        Err(e) => return Err(e),
    };
    let prefix: [u8; 3] = [0x4d, 0x42, 0x52];
    assert(prefix@ =~= mbr());
    let name: [u8; 4] = aml::name_seg_indexed(&prefix, index);
    let ghost s2 = slot@;
    let r3: Result<usize, DtbError> = aml::write_name_seg(slot, p2, &name);
    proof {
        assert(head.take(d3.len() as int) =~= d3);
        aml::lemma_wrote_next(before, at, d2, s2, p2, name_bytes, slot@, r3, head);
        if r3 is Err {
            lemma_head_failed(before, at, index, base, size, slot@, r3);
        }
    }
    let p3: usize = match r3 {
        Ok(p) => p,
        Err(e) => return Err(e),
    };
    let hid_seg: [u8; 4] = [0x5f, 0x48, 0x49, 0x44];
    assert(hid_seg@ =~= hid());
    let pnp: [u8; 7] = [0x50, 0x4e, 0x50, 0x30, 0x43, 0x30, 0x32];
    let ghost s3 = slot@;
    let r4: Result<usize, DtbError> = aml::write_name_dword(
        slot,
        p3,
        &hid_seg,
        aml::eisaid(&pnp),
    );
    proof {
        assert(head.take(d4.len() as int) =~= d4);
        aml::lemma_wrote_next(
            before,
            at,
            d3,
            s3,
            p3,
            aml::name_dword(hid(), pnp0c02()),
            slot@,
            r4,
            head,
        );
        if r4 is Err {
            lemma_head_failed(before, at, index, base, size, slot@, r4);
        }
    }
    let p4: usize = match r4 {
        Ok(p) => p,
        Err(e) => return Err(e),
    };
    let uid_seg: [u8; 4] = [0x5f, 0x55, 0x49, 0x44];
    assert(uid_seg@ =~= uid());
    let ghost s4 = slot@;
    let r5: Result<usize, DtbError> = aml::write_name_byte(slot, p4, &uid_seg, index);
    proof {
        assert(head.take(d5.len() as int) =~= d5);
        aml::lemma_wrote_next(before, at, d4, s4, p4, aml::name_byte(uid(), index), slot@, r5, head);
        if r5 is Err {
            lemma_head_failed(before, at, index, base, size, slot@, r5);
        }
    }
    let p5: usize = match r5 {
        Ok(p) => p,
        Err(e) => return Err(e),
    };
    let descriptors_bytes: usize = aml::QWORD_MEMORY_BYTES + aml::END_TAG_BYTES;
    let ghost s5 = slot@;
    let r6: Result<usize, DtbError> = aml::write_crs_buffer_header(slot, p5, descriptors_bytes);
    proof {
        assert(head.take(head.len() as int) =~= head);
        aml::lemma_wrote_next(before, at, d5, s5, p5, aml::crs_header(48), slot@, r6, head);
        if r6 is Err {
            lemma_head_failed(before, at, index, base, size, slot@, r6);
        }
    }
    let p6: usize = match r6 {
        Ok(p) => p,
        Err(e) => return Err(e),
    };
    let ghost s6 = slot@;
    let ghost whole = device(index, base, size);
    let ghost d7 = head + aml::qword_memory(base, size);
    let r7: Result<usize, DtbError> = aml::write_qword_memory(slot, p6, base, size);
    proof {
        if crate::dtb::is_window(base, size) {
            assert(whole.take(d7.len() as int) =~= d7);
            aml::lemma_wrote_next(
                before,
                at,
                head,
                s6,
                p6,
                aml::qword_memory(base, size),
                slot@,
                r7,
                whole,
            );
        } else {
            assert(slot@ == aml::overlaid(before, at, head.take(head.len() as int)));
        }
    }
    let p7: usize = match r7 {
        Ok(p) => p,
        Err(e) => return Err(e),
    };
    let ghost s7 = slot@;
    let r8: Result<usize, DtbError> = aml::write_end_tag(slot, p7);
    proof {
        assert(whole.take(whole.len() as int) =~= whole);
        aml::lemma_wrote_next(before, at, d7, s7, p7, aml::end_tag(), slot@, r8, whole);
    }
    r8
}

/// Failing to write the head is failing to write the device.
proof fn lemma_head_failed(
    before: Seq<u8>,
    pos: int,
    index: u8,
    base: u64,
    size: u64,
    after: Seq<u8>,
    r: Result<usize, DtbError>,
)
    requires
        aml::wrote(before, pos, device_head(index), after, r),
        r is Err,
    ensures
        aml::wrote(before, pos, device(index, base, size), after, r),
        aml::wrote_part(before, pos, device_head(index), after),
{
    let head = device_head(index);
    let whole = device(index, base, size);
    assert(whole.take(head.len() as int) =~= head);
    aml::lemma_failed_within(before, pos, head, whole, after, r);
}

/// DSDT byte cost contributed by the motherboard resource devices.
pub fn dsdt_total_bytes(tree: &DtbTree) -> (r: Result<usize, DtbError>)
    ensures
        match r {
            Ok(n) => total_bytes(tree@) == Ok::<int, DtbError>(n as int),
            Err(e) => total_bytes(tree@) == Err::<int, DtbError>(e),
        },
{
    let children: &Vec<DtbNode> = match &tree.children {
        Ok(children) => children,
        Err(e) => return Err(*e),
    };
    let ghost nodes = crate::dtb::nodes_view(children@);
    let mut total: usize = 0;
    let mut i: usize = 0;
    assert(nodes.take(0) =~= seq![]);
    while i < children.len()
        invariant
            i <= children@.len(),
            nodes == crate::dtb::nodes_view(children@),
            tree@ == Ok::<Seq<NodeView>, DtbError>(nodes),
            crate::emit::summed(nodes.take(i as int), ecam_id(), 84) == Ok::<int, DtbError>(
                total as int,
            ),
        decreases children@.len() - i,
    {
        let ghost next = nodes.take(i + 1);
        proof {
            assert(nodes[i as int] == children@[i as int]@);
            assert(next.drop_last() =~= nodes.take(i as int));
            assert(next.last() == nodes[i as int]);
        }
        let wanted: bool = match children[i].has_compatible("pci-host-ecam-generic") {
            Ok(wanted) => wanted,
            Err(e) => {
                proof {
                    crate::emit::lemma_summed_fault(nodes, i + 1, ecam_id(), 84);
                }
                return Err(e);
            },
        };
        if wanted {
            total = match total.checked_add(motherboard_aml_bytes()) {
                Some(total) => total,
                None => {
                    proof {
                        crate::emit::lemma_summed_fault(nodes, i + 1, ecam_id(), 84);
                    }
                    return Err(DtbError::Internal);
                },
            };
        }
        i = i + 1;
    }
    assert(nodes.take(nodes.len() as int) =~= nodes);
    Ok(total)
}

/// Emit a `Device(MBRn)` for every ECAM host. Returns the new position. A fault
/// leaves the devices before it in the slot, and a first part of the next.
pub fn emit(slot: &mut [u8], pos: usize, tree: &DtbTree) -> (r: Result<usize, DtbError>)
    ensures
        crate::emit::emitted_at(
            old(slot)@,
            pos as int,
            tree@,
            |node: NodeView, index: u8| node_device(node, index),
            |node: NodeView, index: u8| node_begun(node, index),
            final(slot)@,
            r,
        ),
{
    let ghost before = slot@;
    let ghost room = before.len() - pos;
    let ghost f = |node: NodeView, index: u8| node_device(node, index);
    let ghost begun = |node: NodeView, index: u8| node_begun(node, index);
    let children: &Vec<DtbNode> = match &tree.children {
        Ok(children) => children,
        Err(e) => return Err(*e),
    };
    let ghost nodes = crate::dtb::nodes_view(children@);
    let mut cursor: usize = pos;
    let mut index: u8 = 0;
    let mut i: usize = 0;
    proof {
        assert(nodes.take(0) =~= seq![]);
        assert(slot@ =~= aml::overlaid(before, pos as int, seq![]));
    }
    while i < children.len()
        invariant
            i <= children@.len(),
            nodes == crate::dtb::nodes_view(children@),
            tree@ == Ok::<Seq<NodeView>, DtbError>(nodes),
            f == (|node: NodeView, index: u8| node_device(node, index)),
            begun == (|node: NodeView, index: u8| node_begun(node, index)),
            before == old(slot)@,
            room == before.len() - pos,
            slot@.len() == before.len(),
            crate::emit::devices(nodes.take(i as int), room, f) matches Ok(t) && {
                &&& t.count == index
                &&& cursor == pos + t.data.len()
                &&& t.data.len() == 0 || cursor <= before.len()
                &&& slot@ == aml::overlaid(before, pos as int, t.data)
            },
        decreases children@.len() - i,
    {
        let ghost t = crate::emit::devices(nodes.take(i as int), room, f)->Ok_0;
        let ghost middle = slot@;
        let ghost next = node_begun(nodes[i as int], index);
        proof {
            assert(nodes[i as int] == children@[i as int]@);
            assert(nodes.take(i + 1).drop_last() =~= nodes.take(i as int));
            assert(nodes.take(i + 1).last() == nodes[i as int]);
            crate::emit::lemma_wrote_nothing(middle, cursor as int, next);
            if f(nodes[i as int], index) is Err && next.len() == 0 {
                crate::emit::lemma_left_at_fault(
                    before,
                    pos as int,
                    nodes,
                    i as int,
                    f,
                    begun,
                    middle,
                    middle,
                );
            }
        }
        let wanted: bool = match children[i].has_compatible("pci-host-ecam-generic") {
            Ok(wanted) => wanted,
            Err(e) => return Err(e),
        };
        if !wanted {
            i = i + 1;
            continue;
        }
        let (base, size): (u64, u64) = match children[i].first_reg() {
            Ok(Some(window)) => window,
            Ok(None) => return Err(DtbError::Internal),
            Err(e) => return Err(e),
        };
        let wrote: Result<usize, DtbError> = write_one_device(slot, cursor, index, base, size);
        proof {
            device_size_is_stable(index, base, size);
            if wrote is Ok {
                assert(slot@ =~= aml::overlaid(before, pos as int, t.data + next));
                crate::emit::lemma_wrote_all(middle, cursor as int, next, slot@);
            }
            if wrote is Err || index == 255 {
                crate::emit::lemma_left_at_fault(
                    before,
                    pos as int,
                    nodes,
                    i as int,
                    f,
                    begun,
                    middle,
                    slot@,
                );
            }
        }
        cursor = match wrote {
            Ok(p) => p,
            Err(e) => return Err(e),
        };
        index = match index.checked_add(1) {
            Some(n) => n,
            None => return Err(DtbError::Internal),
        };
        i = i + 1;
    }
    assert(nodes.take(nodes.len() as int) =~= nodes);
    Ok(cursor)
}

/// The head of a device, byte by byte.
proof fn lemma_head_bytes(index: u8)
    ensures
        ({
            let d = device_head(index);
            &&& d.len() == 36
            &&& d[0] == 0x5b && d[1] == 0x82 && d[2] == 0x42 && d[3] == 0x05
            &&& d[4] as char == 'M' && d[5] as char == 'B' && d[6] as char == 'R'
            &&& index as int % 36 < 10 ==> d[7] as int == '0' as int + index as int % 36
            &&& index as int % 36 >= 10 ==> d[7] as int == 'A' as int + index as int % 36 - 10
            &&& d[8] == 0x08 && d[9] as char == '_' && d[10] as char == 'H' && d[11] as char == 'I' && d[12] as char == 'D'
            &&& d[13] == 0x0c && d[14] == 0x41 && d[15] == 0xd0 && d[16] == 0x0c && d[17] == 0x02
            &&& d[18] == 0x08 && d[19] as char == '_' && d[20] as char == 'U' && d[21] as char == 'I' && d[22] as char == 'D'
            &&& d[23] == 0x0a && d[24] == index
            &&& d[25] == 0x08 && d[26] as char == '_' && d[27] as char == 'C' && d[28] as char == 'R' && d[29] as char == 'S'
            &&& d[30] == 0x11 && d[31] == 0x45 && d[32] == 0x03
            &&& d[33] == 0x0b && d[34] == 0x30 && d[35] == 0
        }),
{
}

/// The device of an index and a window, field by field: `Device(MBRn)` with the `_HID`
/// "PNP0C02", the index as its `_UID`, and the window, from its first address to its last.
pub proof fn device_reserves_the_window(index: u8, base: u64, size: u64)
    requires
        crate::dtb::is_window(base, size),
    ensures
        ({
            let d = device(index, base, size);
            &&& d.len() == 84
            &&& d[0] == 0x5b && d[1] == 0x82 && d[2] == 0x42 && d[3] == 0x05
            &&& d[4] as char == 'M' && d[5] as char == 'B' && d[6] as char == 'R'
            &&& index as int % 36 < 10 ==> d[7] as int == '0' as int + index as int % 36
            &&& index as int % 36 >= 10 ==> d[7] as int == 'A' as int + index as int % 36 - 10
            &&& d[8] == 0x08 && d[9] as char == '_' && d[10] as char == 'H' && d[11] as char == 'I' && d[12] as char == 'D'
            &&& d[13] == 0x0c && d[14] == 0x41 && d[15] == 0xd0 && d[16] == 0x0c && d[17] == 0x02
            &&& d[18] == 0x08 && d[19] as char == '_' && d[20] as char == 'U' && d[21] as char == 'I' && d[22] as char == 'D'
            &&& d[23] == 0x0a && d[24] == index
            &&& d[25] == 0x08 && d[26] as char == '_' && d[27] as char == 'C' && d[28] as char == 'R' && d[29] as char == 'S'
            &&& d[30] == 0x11 && d[31] == 0x45 && d[32] == 0x03
            &&& d[33] == 0x0b && d[34] == 0x30 && d[35] == 0
            &&& d[36] == 0x8a && d[37] == 0x2b && d[38] == 0 && d[39] == 0
            &&& d[40] == 0x0d && d[41] == 0x01
            &&& crate::bytes::le64(d, 42) == 0
            &&& crate::bytes::le64(d, 50) == base
            &&& crate::bytes::le64(d, 58) == base + size - 1
            &&& crate::bytes::le64(d, 66) == 0
            &&& crate::bytes::le64(d, 74) == size
            &&& d[82] == 0x79 && d[83] == 0
        }),
{
    let d = device(index, base, size);
    device_size_is_stable(index, base, size);
    lemma_head_bytes(index);
    let h = device_head(index);
    assert(forall|k: int| 0 <= k < 36 ==> #[trigger] d[k] == h[k]);
    let q = aml::qword_memory(base, size);
    aml::memory_descriptor_spans_the_window(base, size);
    assert(forall|k: int| 0 <= k < 46 ==> d[36 + k] == #[trigger] q[k]);
    lemma_moved(d, q, 36);
}

/// A failing device is begun with the same bytes up to its window, whatever that is.
pub proof fn device_begins_with_its_head(index: u8, base: u64, size: u64)
    ensures
        device_head(index).len() == 36,
        device(index, base, size).take(36) == device_head(index),
{
    device_size_is_stable(index, base, size);
    assert(device(index, base, size).take(36) =~= device_head(index));
}

/// The long words of a window descriptor stand as far behind as it does.
proof fn lemma_moved(d: Seq<u8>, q: Seq<u8>, at: int)
    requires
        q.len() == 46,
        0 <= at,
        at + 46 <= d.len(),
        forall|k: int| 0 <= k < 46 ==> d[at + k] == #[trigger] q[k],
    ensures
        crate::bytes::le64(d, at + 6) == crate::bytes::le64(q, 6),
        crate::bytes::le64(d, at + 14) == crate::bytes::le64(q, 14),
        crate::bytes::le64(d, at + 22) == crate::bytes::le64(q, 22),
        crate::bytes::le64(d, at + 30) == crate::bytes::le64(q, 30),
        crate::bytes::le64(d, at + 38) == crate::bytes::le64(q, 38),
        d[at] == q[0] && d[at + 1] == q[1] && d[at + 2] == q[2] && d[at + 3] == q[3] && d[at + 4]
            == q[4] && d[at + 5] == q[5],
{
    let s = d.subrange(at, at + 46);
    assert(s =~= q);
    assert forall|k: int| 0 <= k <= 38 implies crate::bytes::le64(d, at + k) == #[trigger] crate::bytes::le64(
        q,
        k,
    ) by {
        assert(s[k] == d[at + k] && s[k + 1] == d[at + k + 1] && s[k + 2] == d[at + k + 2] && s[k
            + 3] == d[at + k + 3] && s[k + 4] == d[at + k + 4] && s[k + 5] == d[at + k + 5] && s[k
            + 6] == d[at + k + 6] && s[k + 7] == d[at + k + 7]);
    }
    assert(q[0] == d[at + 0]);
}

/// A node is given a device exactly where one of its `compatible` strings is
/// "pci-host-ecam-generic": that of its first window. Without a window, or with one that
/// is none, it is refused, and what cannot be decoded is the fault.
pub proof fn ecam_hosts_are_given_devices(node: NodeView, index: u8)
    ensures
        match node.compatible {
            Err(why) => node_device(node, index) == Err::<Option<Seq<u8>>, DtbError>(why),
            Ok(ids) => if !ids.contains("pci-host-ecam-generic"@) {
                node_device(node, index) == Ok::<Option<Seq<u8>>, DtbError>(None)
            } else {
                match node.reg {
                    Err(why) => node_device(node, index) == Err::<Option<Seq<u8>>, DtbError>(why),
                    Ok(windows) => if windows.len() > 0 && windows[0].1 > 0 && windows[0].0
                        + windows[0].1 - 1 <= 0xffff_ffff_ffff_ffff {
                        node_device(node, index) == Ok::<Option<Seq<u8>>, DtbError>(
                            Some(device(index, windows[0].0, windows[0].1)),
                        )
                    } else {
                        node_device(node, index) == Err::<Option<Seq<u8>>, DtbError>(
                            DtbError::Internal,
                        )
                    },
                }
            },
        },
{
}

/// Of a node that is refused nothing is begun but the head of its device, and that only
/// where its window is none; of a node with a device all of it may be.
pub proof fn only_devices_with_a_window_are_begun(node: NodeView, index: u8)
    ensures
        node_device(node, index) matches Ok(Some(d)) ==> node_begun(node, index) == d,
        node_device(node, index) is Ok && node_device(node, index)->Ok_0 is None ==> node_begun(
            node,
            index,
        ).len() == 0,
        node_device(node, index) is Err ==> {
            ||| node_begun(node, index).len() == 0
            ||| node_begun(node, index) == device_head(index) && node.reg is Ok
                && node.reg->Ok_0.len() > 0 && !crate::dtb::is_window(
                node.reg->Ok_0[0].0,
                node.reg->Ok_0[0].1,
            )
        },
{
}

/// One more node adds its device behind the others, under the next index, and costs the
/// bytes of one: those announced are 84 for every ECAM host.
pub proof fn one_more_host_adds_its_device(nodes: Seq<NodeView>, node: NodeView, room: int)
    ensures
        ({
            let after = board_devices(Ok(nodes.push(node)), room);
            match board_devices(Ok(nodes), room) {
                Err(why) => after == Err::<Emitted, DtbError>(why),
                Ok(t) => match node_device(node, t.count as u8) {
                    Err(why) => after == Err::<Emitted, DtbError>(why),
                    Ok(None) => after == Ok::<Emitted, DtbError>(t),
                    Ok(Some(d)) => if t.data.len() + d.len() <= room && t.count < 255 {
                        &&& after is Ok
                        &&& after->Ok_0.data == t.data + d
                        &&& after->Ok_0.count == t.count + 1
                    } else {
                        after == Err::<Emitted, DtbError>(DtbError::Internal)
                    },
                },
            }
        }),
        match total_bytes(Ok(nodes)) {
            Err(why) => total_bytes(Ok(nodes.push(node))) == Err::<int, DtbError>(why),
            Ok(n) => match node.compatible {
                Err(why) => total_bytes(Ok(nodes.push(node))) == Err::<int, DtbError>(why),
                Ok(ids) => if !ids.contains("pci-host-ecam-generic"@) {
                    total_bytes(Ok(nodes.push(node))) == Ok::<int, DtbError>(n)
                } else if n + 84 <= usize::MAX {
                    total_bytes(Ok(nodes.push(node))) == Ok::<int, DtbError>(n + 84)
                } else {
                    total_bytes(Ok(nodes.push(node))) == Err::<int, DtbError>(DtbError::Internal)
                },
            },
        },
{
    let f = |n: NodeView, i: u8| node_device(n, i);
    crate::emit::one_more_node_adds_its_device(nodes, node, room, f);
    crate::emit::one_more_node_costs_its_unit(nodes, node, ecam_id(), 84);
}

/// A tree without nodes has no devices and costs nothing, and one whose nodes cannot be
/// listed is refused for that.
pub proof fn empty_boards_have_no_devices(room: int, why: DtbError)
    ensures
        board_devices(Ok(seq![]), room) is Ok,
        board_devices(Ok(seq![]), room)->Ok_0.data.len() == 0,
        board_devices(Ok(seq![]), room)->Ok_0.count == 0,
        total_bytes(Ok(seq![])) == Ok::<int, DtbError>(0),
        board_devices(Err(why), room) == Err::<Emitted, DtbError>(why),
        total_bytes(Err(why)) == Err::<int, DtbError>(why),
{
}

} // verus!
