//! What the DSDT emitters have in common: one device for every node that asks
//! for one, in tree order.
use vstd::prelude::*;

use crate::dtb::{DtbError, NodeView};

verus! {

/// What has been emitted: the bytes, and the number of devices.
#[verifier::ext_equal]
pub struct Emitted {
    pub data: Seq<u8>,
    pub count: int,
}

/// The devices of the nodes, one after the other, in `room` bytes.
/// `node_device` gives the device of a node, from its index, if the node asks
/// for one. The first fault ends the emission; so does a device that does not
/// fit, and one behind which no index is left.
pub open spec fn devices(
    nodes: Seq<NodeView>,
    room: int,
    node_device: spec_fn(NodeView, u8) -> Result<Option<Seq<u8>>, DtbError>,
) -> Result<Emitted, DtbError>
    decreases nodes.len(),
{
    if nodes.len() == 0 {
        Ok(Emitted { data: seq![], count: 0 })
    } else {
        match devices(nodes.drop_last(), room, node_device) {
            Err(e) => Err(e),
            Ok(t) => match node_device(nodes.last(), t.count as u8) {
                Err(e) => Err(e),
                Ok(None) => Ok(t),
                Ok(Some(device)) => if t.data.len() + device.len() > room || t.count >= 255 {
                    Err(DtbError::Internal)
                } else {
                    Ok(Emitted { data: t.data + device, count: t.count + 1 })
                },
            },
        }
    }
}

/// The devices of a tree.
pub open spec fn tree_devices(
    tree: Result<Seq<NodeView>, DtbError>,
    room: int,
    node_device: spec_fn(NodeView, u8) -> Result<Option<Seq<u8>>, DtbError>,
) -> Result<Emitted, DtbError> {
    match tree {
        Ok(nodes) => devices(nodes, room, node_device),
        Err(e) => Err(e),
    }
}

/// The number of nodes compatible with `id`, or the first fault.
pub open spec fn counted(nodes: Seq<NodeView>, id: Seq<char>) -> Result<int, DtbError>
    decreases nodes.len(),
{
    if nodes.len() == 0 {
        Ok(0)
    } else {
        match counted(nodes.drop_last(), id) {
            Err(e) => Err(e),
            Ok(n) => match crate::dtb::compatible_with(nodes.last(), id) {
                Err(e) => Err(e),
                Ok(b) => Ok(
                    if b {
                        n + 1
                    } else {
                        n
                    },
                ),
            },
        }
    }
}

/// The number of nodes of a tree compatible with `id`, or the first fault.
pub open spec fn tree_counted(tree: Result<Seq<NodeView>, DtbError>, id: Seq<char>) -> Result<
    int,
    DtbError,
> {
    match tree {
        Ok(nodes) => counted(nodes, id),
        Err(e) => Err(e),
    }
}

/// The bytes of the nodes compatible with `id`, at `unit` bytes each, or the first
/// fault; a sum that exceeds what can be addressed is one.
pub open spec fn summed(nodes: Seq<NodeView>, id: Seq<char>, unit: int) -> Result<int, DtbError>
    decreases nodes.len(),
{
    if nodes.len() == 0 {
        Ok(0)
    } else {
        match summed(nodes.drop_last(), id, unit) {
            Err(e) => Err(e),
            Ok(n) => match crate::dtb::compatible_with(nodes.last(), id) {
                Err(e) => Err(e),
                Ok(b) => if !b {
                    Ok(n)
                } else if n + unit > usize::MAX {
                    Err(DtbError::Internal)
                } else {
                    Ok(n + unit)
                },
            },
        }
    }
}

/// The number of nodes in front of the first fault.
pub open spec fn faultless(
    nodes: Seq<NodeView>,
    room: int,
    node_device: spec_fn(NodeView, u8) -> Result<Option<Seq<u8>>, DtbError>,
) -> int
    decreases nodes.len(),
{
    if nodes.len() == 0 || devices(nodes, room, node_device) is Ok {
        nodes.len() as int
    } else {
        faultless(nodes.drop_last(), room, node_device)
    }
}

/// What the first fault leaves behind at `pos`: the devices of the nodes in front of
/// it, and a first part of what `begun` gives for the node that it is at. Nothing
/// else has changed.
pub open spec fn left_at_fault(
    before: Seq<u8>,
    pos: int,
    nodes: Seq<NodeView>,
    node_device: spec_fn(NodeView, u8) -> Result<Option<Seq<u8>>, DtbError>,
    begun: spec_fn(NodeView, u8) -> Seq<u8>,
    after: Seq<u8>,
) -> bool {
    let room = before.len() - pos;
    let k = faultless(nodes, room, node_device);
    let done = devices(nodes.take(k), room, node_device)->Ok_0;
    let next = begun(nodes[k], done.count as u8);
    exists|n: int|
        0 <= n <= next.len() && after == crate::aml::overlaid(
            before,
            pos,
            done.data + #[trigger] next.take(n),
        )
}

/// What emitting the devices of a tree at `pos` does. Where there is no fault, it
/// gives the position behind the devices, which then stand in the slot. Else it
/// gives the first fault, and leaves behind what had been written by then. `begun`
/// is what may get written of the device of a node that a fault is at.
pub open spec fn emitted_at(
    before: Seq<u8>,
    pos: int,
    tree: Result<Seq<NodeView>, DtbError>,
    node_device: spec_fn(NodeView, u8) -> Result<Option<Seq<u8>>, DtbError>,
    begun: spec_fn(NodeView, u8) -> Seq<u8>,
    after: Seq<u8>,
    r: Result<usize, DtbError>,
) -> bool {
    match tree_devices(tree, before.len() - pos, node_device) {
        Ok(t) => {
            &&& r is Ok
            &&& r->Ok_0 == pos + t.data.len()
            &&& after == crate::aml::overlaid(before, pos, t.data)
        },
        Err(e) => {
            &&& r == Err::<usize, DtbError>(e)
            &&& match tree {
                Ok(nodes) => left_at_fault(before, pos, nodes, node_device, begun, after),
                Err(_) => after == before,
            }
        },
    }
}

/// Emitting at `pos` changes nothing before it, whether it succeeds or not.
pub proof fn emission_keeps_what_precedes(
    before: Seq<u8>,
    pos: int,
    tree: Result<Seq<NodeView>, DtbError>,
    node_device: spec_fn(NodeView, u8) -> Result<Option<Seq<u8>>, DtbError>,
    begun: spec_fn(NodeView, u8) -> Seq<u8>,
    after: Seq<u8>,
    r: Result<usize, DtbError>,
)
    requires
        emitted_at(before, pos, tree, node_device, begun, after, r),
    ensures
        after.len() == before.len(),
        forall|k: int| 0 <= k < pos && k < before.len() ==> #[trigger] after[k] == before[k],
{
}

/// A fault among the first nodes is the fault of them all.
pub proof fn lemma_devices_fault(
    nodes: Seq<NodeView>,
    n: int,
    room: int,
    node_device: spec_fn(NodeView, u8) -> Result<Option<Seq<u8>>, DtbError>,
)
    requires
        0 <= n <= nodes.len(),
        devices(nodes.take(n), room, node_device) is Err,
    ensures
        devices(nodes, room, node_device) == devices(nodes.take(n), room, node_device),
    decreases nodes.len(),
{
    if n == nodes.len() {
        assert(nodes.take(n) =~= nodes);
    } else {
        assert(nodes.drop_last().take(n) =~= nodes.take(n));
        lemma_devices_fault(nodes.drop_last(), n, room, node_device);
    }
}

/// A fault among the first nodes is the fault of the count.
pub proof fn lemma_counted_fault(nodes: Seq<NodeView>, n: int, id: Seq<char>)
    requires
        0 <= n <= nodes.len(),
        counted(nodes.take(n), id) is Err,
    ensures
        counted(nodes, id) == counted(nodes.take(n), id),
    decreases nodes.len(),
{
    if n == nodes.len() {
        assert(nodes.take(n) =~= nodes);
    } else {
        assert(nodes.drop_last().take(n) =~= nodes.take(n));
        lemma_counted_fault(nodes.drop_last(), n, id);
    }
}

/// A fault among the first nodes is the fault of the sum.
pub proof fn lemma_summed_fault(nodes: Seq<NodeView>, n: int, id: Seq<char>, unit: int)
    requires
        0 <= n <= nodes.len(),
        summed(nodes.take(n), id, unit) is Err,
    ensures
        summed(nodes, id, unit) == summed(nodes.take(n), id, unit),
    decreases nodes.len(),
{
    if n == nodes.len() {
        assert(nodes.take(n) =~= nodes);
    } else {
        assert(nodes.drop_last().take(n) =~= nodes.take(n));
        lemma_summed_fault(nodes.drop_last(), n, id, unit);
    }
}

/// A sum that can be addressed is the count, at `unit` bytes each.
pub proof fn lemma_summed(nodes: Seq<NodeView>, id: Seq<char>, unit: int)
    requires
        unit >= 0,
        counted(nodes, id) is Ok,
        counted(nodes, id)->Ok_0 * unit <= usize::MAX,
    ensures
        summed(nodes, id, unit) == Ok::<int, DtbError>(counted(nodes, id)->Ok_0 * unit),
    decreases nodes.len(),
{
    if nodes.len() > 0 {
        let n = counted(nodes.drop_last(), id)->Ok_0;
        lemma_counted_bound(nodes.drop_last(), id);
        assert((n + 1) * unit == n * unit + unit) by (nonlinear_arith);
        lemma_summed(nodes.drop_last(), id, unit);
    } else {
        assert(0 * unit == 0) by (nonlinear_arith);
    }
}

/// No more nodes are counted than there are.
pub proof fn lemma_counted_bound(nodes: Seq<NodeView>, id: Seq<char>)
    requires
        counted(nodes, id) is Ok,
    ensures
        0 <= counted(nodes, id)->Ok_0 <= nodes.len(),
    decreases nodes.len(),
{
    if nodes.len() > 0 {
        lemma_counted_bound(nodes.drop_last(), id);
    }
}

/// Where every compatible node gets a device of `unit` bytes, and no other node
/// gets one, the devices are as many as the compatible nodes and take up exactly
/// `unit` bytes each.
pub proof fn lemma_devices_size(
    nodes: Seq<NodeView>,
    room: int,
    node_device: spec_fn(NodeView, u8) -> Result<Option<Seq<u8>>, DtbError>,
    id: Seq<char>,
    unit: int,
)
    requires
        devices(nodes, room, node_device) is Ok,
        forall|node: NodeView, index: u8|
            (#[trigger] node_device(node, index)) matches Ok(d) ==> {
                &&& crate::dtb::compatible_with(node, id) == Ok::<bool, DtbError>(d is Some)
                &&& d is Some ==> d->0.len() == unit
            },
    ensures
        counted(nodes, id) == Ok::<int, DtbError>(devices(nodes, room, node_device)->Ok_0.count),
        devices(nodes, room, node_device)->Ok_0.data.len() == devices(
            nodes,
            room,
            node_device,
        )->Ok_0.count * unit,
        0 <= devices(nodes, room, node_device)->Ok_0.count <= 255,
        devices(nodes, room, node_device)->Ok_0.data.len() <= room || devices(
            nodes,
            room,
            node_device,
        )->Ok_0.count == 0,
    decreases nodes.len(),
{
    if nodes.len() > 0 {
        lemma_devices_size(nodes.drop_last(), room, node_device, id, unit);
        let t = devices(nodes.drop_last(), room, node_device)->Ok_0;
        assert((t.count + 1) * unit == t.count * unit + unit) by (nonlinear_arith);
        let d = node_device(nodes.last(), t.count as u8);
        assert(d is Ok);
    } else {
        assert(0 * unit == 0) by (nonlinear_arith);
    }
}

/// Where the first nodes give devices and one more gives a fault, that is the first
/// fault, and what was written of its device is what it leaves behind.
pub proof fn lemma_left_at_fault(
    before: Seq<u8>,
    pos: int,
    nodes: Seq<NodeView>,
    k: int,
    node_device: spec_fn(NodeView, u8) -> Result<Option<Seq<u8>>, DtbError>,
    begun: spec_fn(NodeView, u8) -> Seq<u8>,
    middle: Seq<u8>,
    after: Seq<u8>,
)
    requires
        0 <= k < nodes.len(),
        devices(nodes.take(k), before.len() - pos, node_device) is Ok,
        devices(nodes.take(k + 1), before.len() - pos, node_device) is Err,
        middle == crate::aml::overlaid(
            before,
            pos,
            devices(nodes.take(k), before.len() - pos, node_device)->Ok_0.data,
        ),
        crate::aml::wrote_part(
            middle,
            pos + devices(nodes.take(k), before.len() - pos, node_device)->Ok_0.data.len(),
            begun(
                nodes[k],
                devices(nodes.take(k), before.len() - pos, node_device)->Ok_0.count as u8,
            ),
            after,
        ),
    ensures
        left_at_fault(before, pos, nodes, node_device, begun, after),
        devices(nodes, before.len() - pos, node_device) == devices(
            nodes.take(k + 1),
            before.len() - pos,
            node_device,
        ),
{
    let room = before.len() - pos;
    let t = devices(nodes.take(k), room, node_device)->Ok_0;
    let next = begun(nodes[k], t.count as u8);
    lemma_devices_fault(nodes, k + 1, room, node_device);
    lemma_faultless(nodes, k, room, node_device);
    let n = choose|n: int|
        0 <= n <= next.len() && after == crate::aml::overlaid(
            middle,
            pos + t.data.len(),
            #[trigger] next.take(n),
        );
    assert(after =~= crate::aml::overlaid(before, pos, t.data + next.take(n)));
}

/// The nodes in front of the first fault are those in front of the first that gives
/// one.
proof fn lemma_faultless(
    nodes: Seq<NodeView>,
    k: int,
    room: int,
    node_device: spec_fn(NodeView, u8) -> Result<Option<Seq<u8>>, DtbError>,
)
    requires
        0 <= k < nodes.len(),
        devices(nodes.take(k), room, node_device) is Ok,
        devices(nodes.take(k + 1), room, node_device) is Err,
    ensures
        faultless(nodes, room, node_device) == k,
    decreases nodes.len(),
{
    lemma_devices_fault(nodes, k + 1, room, node_device);
    assert(nodes.drop_last().take(k) =~= nodes.take(k));
    if k + 1 == nodes.len() {
        assert(nodes.drop_last() =~= nodes.take(k));
        assert(faultless(nodes.drop_last(), room, node_device) == k);
    } else {
        assert(nodes.drop_last().take(k + 1) =~= nodes.take(k + 1));
        lemma_faultless(nodes.drop_last(), k, room, node_device);
    }
}

/// Nothing written is a first part of anything.
pub proof fn lemma_wrote_nothing(slot: Seq<u8>, pos: int, data: Seq<u8>)
    ensures
        crate::aml::wrote_part(slot, pos, data, slot),
{
    assert(slot =~= crate::aml::overlaid(slot, pos, data.take(0)));
}

/// All of the data is a first part of it.
pub proof fn lemma_wrote_all(before: Seq<u8>, pos: int, data: Seq<u8>, after: Seq<u8>)
    requires
        after == crate::aml::overlaid(before, pos, data),
    ensures
        crate::aml::wrote_part(before, pos, data, after),
{
    assert(data.take(data.len() as int) =~= data);
}

/// Without nodes nothing is emitted; where the nodes cannot be listed that is the fault.
pub proof fn emission_begins_empty(
    room: int,
    node_device: spec_fn(NodeView, u8) -> Result<Option<Seq<u8>>, DtbError>,
    why: DtbError,
)
    ensures
        ({
            let none = tree_devices(Ok(seq![]), room, node_device);
            &&& none is Ok
            &&& none->Ok_0.data.len() == 0
            &&& none->Ok_0.count == 0
        }),
        tree_devices(Err(why), room, node_device) == Err::<Emitted, DtbError>(why),
{
}

/// One more node adds its device behind the others, under the next index, if it asks for
/// one. It is the fault where its device cannot be made, does not fit in the room or has
/// no index left behind it, and an earlier fault stays the fault.
pub proof fn one_more_node_adds_its_device(
    nodes: Seq<NodeView>,
    node: NodeView,
    room: int,
    node_device: spec_fn(NodeView, u8) -> Result<Option<Seq<u8>>, DtbError>,
)
    ensures
        ({
            let after = tree_devices(Ok(nodes.push(node)), room, node_device);
            match tree_devices(Ok(nodes), room, node_device) {
                Err(why) => after == Err::<Emitted, DtbError>(why),
                Ok(t) => match node_device(node, t.count as u8) {
                    Err(why) => after == Err::<Emitted, DtbError>(why),
                    Ok(None) => after == Ok::<Emitted, DtbError>(t),
                    Ok(Some(device)) => if t.data.len() + device.len() <= room && t.count < 255 {
                        &&& after is Ok
                        &&& after->Ok_0.data == t.data + device
                        &&& after->Ok_0.count == t.count + 1
                    } else {
                        after == Err::<Emitted, DtbError>(DtbError::Internal)
                    },
                },
            }
        }),
{
    assert(nodes.push(node).drop_last() =~= nodes);
}

/// One more node counts for one where it is compatible with the id and for none where it
/// is not; its own fault, behind no other, is the fault.
pub proof fn one_more_node_is_counted(nodes: Seq<NodeView>, node: NodeView, id: Seq<char>)
    ensures
        tree_counted(Ok(seq![]), id) == Ok::<int, DtbError>(0),
        match tree_counted(Ok(nodes), id) {
            Err(why) => tree_counted(Ok(nodes.push(node)), id) == Err::<int, DtbError>(why),
            Ok(n) => match node.compatible {
                Err(why) => tree_counted(Ok(nodes.push(node)), id) == Err::<int, DtbError>(why),
                Ok(ids) => {
                    &&& tree_counted(Ok(nodes.push(node)), id) is Ok
                    &&& tree_counted(Ok(nodes.push(node)), id)->Ok_0 == n + if ids.contains(id) {
                        1int
                    } else {
                        0
                    }
                },
            },
        },
{
    assert(nodes.push(node).drop_last() =~= nodes);
}

/// Where the nodes cannot be listed, that is the fault of the count.
pub proof fn unlisted_nodes_are_not_counted(why: DtbError, id: Seq<char>)
    ensures
        tree_counted(Err(why), id) == Err::<int, DtbError>(why),
{
}

/// One more node costs `unit` bytes where it is compatible with the id and none where it
/// is not; its own fault, or a sum that cannot be addressed, behind no other fault, is
/// the fault.
pub proof fn one_more_node_costs_its_unit(
    nodes: Seq<NodeView>,
    node: NodeView,
    id: Seq<char>,
    unit: int,
)
    ensures
        summed(seq![], id, unit) == Ok::<int, DtbError>(0),
        match summed(nodes, id, unit) {
            Err(why) => summed(nodes.push(node), id, unit) == Err::<int, DtbError>(why),
            Ok(n) => match node.compatible {
                Err(why) => summed(nodes.push(node), id, unit) == Err::<int, DtbError>(why),
                Ok(ids) => if !ids.contains(id) {
                    summed(nodes.push(node), id, unit) == Ok::<int, DtbError>(n)
                } else if n + unit <= usize::MAX {
                    summed(nodes.push(node), id, unit) == Ok::<int, DtbError>(n + unit)
                } else {
                    summed(nodes.push(node), id, unit) == Err::<int, DtbError>(DtbError::Internal)
                },
            },
        },
{
    assert(nodes.push(node).drop_last() =~= nodes);
}

/// What has been emitted without a fault stands in the slot, byte for byte, up to the
/// position that is given.
pub proof fn emitted_devices_stand_in_the_slot(
    before: Seq<u8>,
    pos: int,
    tree: Result<Seq<NodeView>, DtbError>,
    node_device: spec_fn(NodeView, u8) -> Result<Option<Seq<u8>>, DtbError>,
    begun: spec_fn(NodeView, u8) -> Seq<u8>,
    after: Seq<u8>,
    r: Result<usize, DtbError>,
)
    requires
        0 <= pos,
        emitted_at(before, pos, tree, node_device, begun, after, r),
    ensures
        match tree_devices(tree, before.len() - pos, node_device) {
            Err(why) => r == Err::<usize, DtbError>(why),
            Ok(t) => {
                &&& r is Ok
                &&& r->Ok_0 == pos + t.data.len()
                &&& after.len() == before.len()
                &&& forall|k: int|
                    0 <= k < before.len() ==> #[trigger] after[k] == if pos <= k < pos
                        + t.data.len() {
                        t.data[k - pos]
                    } else {
                        before[k]
                    }
            },
        },
{
}

/// A fault at a node leaves the devices of the nodes before it in the slot; behind them
/// stands a first part of what could be begun of the next one, and behind that nothing has
/// changed. Where the nodes cannot be listed nothing has changed.
pub proof fn fault_keeps_finished_devices(
    before: Seq<u8>,
    pos: int,
    nodes: Seq<NodeView>,
    k: int,
    node_device: spec_fn(NodeView, u8) -> Result<Option<Seq<u8>>, DtbError>,
    begun: spec_fn(NodeView, u8) -> Seq<u8>,
    after: Seq<u8>,
    r: Result<usize, DtbError>,
)
    requires
        0 <= pos,
        0 <= k < nodes.len(),
        emitted_at(before, pos, Ok(nodes), node_device, begun, after, r),
        tree_devices(Ok(nodes.take(k)), before.len() - pos, node_device) is Ok,
        tree_devices(Ok(nodes.take(k + 1)), before.len() - pos, node_device) is Err,
    ensures
        ({
            let t = tree_devices(Ok(nodes.take(k)), before.len() - pos, node_device)->Ok_0;
            let next = begun(nodes[k], t.count as u8);
            let end = pos + t.data.len();
            &&& after.len() == before.len()
            &&& forall|i: int|
                0 <= i < before.len() && pos <= i < end ==> #[trigger] after[i] == t.data[i - pos]
            &&& forall|i: int|
                0 <= i < before.len() && (i < pos || end + next.len() <= i) ==> #[trigger] after[i]
                    == before[i]
            &&& exists|n: int|
                0 <= n <= next.len() && #[trigger] next.take(n).len() == n && forall|i: int|
                    0 <= i < before.len() && end <= i < end + next.len() ==> #[trigger] after[i]
                        == if i < end + n {
                        next[i - end]
                    } else {
                        before[i]
                    }
        }),
{
    let room = before.len() - pos;
    let t = devices(nodes.take(k), room, node_device)->Ok_0;
    let next = begun(nodes[k], t.count as u8);
    let end = pos + t.data.len();
    lemma_devices_fault(nodes, k + 1, room, node_device);
    lemma_faultless(nodes, k, room, node_device);
    let n = choose|n: int|
        0 <= n <= next.len() && after == crate::aml::overlaid(
            before,
            pos,
            t.data + #[trigger] next.take(n),
        );
    let data = t.data + next.take(n);
    assert forall|i: int| 0 <= i < before.len() && end <= i < end + next.len() implies #[trigger] after[i]
        == if i < end + n {
        next[i - end]
    } else {
        before[i]
    } by {
        if i < end + n {
            assert(data[i - pos] == next.take(n)[i - end]);
        }
    }
    assert(next.take(n).len() == n);
}

/// A tree whose nodes cannot be listed leaves the slot as it is.
pub proof fn unlisted_nodes_leave_the_slot(
    before: Seq<u8>,
    pos: int,
    why: DtbError,
    node_device: spec_fn(NodeView, u8) -> Result<Option<Seq<u8>>, DtbError>,
    begun: spec_fn(NodeView, u8) -> Seq<u8>,
    after: Seq<u8>,
    r: Result<usize, DtbError>,
)
    requires
        emitted_at(before, pos, Err(why), node_device, begun, after, r),
    ensures
        r == Err::<usize, DtbError>(why),
        after == before,
{
}

} // verus!
