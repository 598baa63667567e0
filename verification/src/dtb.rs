//! The device tree nodes that the ACPI emitters read, as plain values.
use vstd::prelude::*;

use crate::text::{chars_of, same_text};

verus! {

/// What a device tree node is read for.
#[derive(Debug, Clone, Copy, PartialEq, Eq, Structural)]
pub enum Site {
    PciHost,
    VirtioMmio,
}

/// Errors from reading a device tree and emitting tables for it.
#[derive(Debug, Clone, Copy, PartialEq, Eq)]
pub enum DtbError {
    /// A table does not fit, or a number in it does not.
    Internal,
    /// A property is missing or cannot be decoded.
    MalformedProperty { site: Site, property: &'static str },
}

/// When an interrupt line is asserted.
#[derive(Debug, Clone, Copy, PartialEq, Eq, Structural)]
pub enum Sense {
    EdgeRising,
    EdgeFalling,
    LevelHigh,
    LevelLow,
}

/// A node: the outcome of decoding each of the properties that are read.
#[derive(Debug)]
pub struct DtbNode {
    /// The strings of `compatible`, none where the node has no such property.
    pub compatible: Result<Vec<String>, DtbError>,
    /// The windows of `reg`, as `(base, size)`.
    pub reg: Result<Vec<(u64, u64)>, DtbError>,
    /// The line of `interrupts`, and its sense.
    pub interrupts: Result<(u32, Sense), DtbError>,
}

/// A tree: the outcome of listing the root's children.
#[derive(Debug)]
pub struct DtbTree {
    pub children: Result<Vec<DtbNode>, DtbError>,
}

/// What a [`DtbNode`] holds.
pub struct NodeView {
    pub compatible: Result<Seq<Seq<char>>, DtbError>,
    pub reg: Result<Seq<(u64, u64)>, DtbError>,
    pub interrupts: Result<(u32, Sense), DtbError>,
}

/// The characters of each string.
pub open spec fn strings_view(s: Seq<String>) -> Seq<Seq<char>> {
    s.map_values(|x: String| x@)
}

impl View for DtbNode {
    type V = NodeView;

    open spec fn view(&self) -> NodeView {
        NodeView {
            compatible: match self.compatible {
                Ok(v) => Ok(strings_view(v@)),
                Err(e) => Err(e),
            },
            reg: match self.reg {
                Ok(v) => Ok(v@),
                Err(e) => Err(e),
            },
            interrupts: self.interrupts,
        }
    }
}

/// What each of the nodes holds.
pub open spec fn nodes_view(s: Seq<DtbNode>) -> Seq<NodeView> {
    s.map_values(|x: DtbNode| x@)
}

impl View for DtbTree {
    type V = Result<Seq<NodeView>, DtbError>;

    open spec fn view(&self) -> Result<Seq<NodeView>, DtbError> {
        match self.children {
            Ok(v) => Ok(nodes_view(v@)),
            Err(e) => Err(e),
        }
    }
}

/// Whether the node is compatible with `id`.
pub open spec fn compatible_with(node: NodeView, id: Seq<char>) -> Result<bool, DtbError> {
    match node.compatible {
        Ok(ids) => Ok(ids.contains(id)),
        Err(e) => Err(e),
    }
}

/// The first window of the node.
pub open spec fn first_window(node: NodeView) -> Result<Option<(u64, u64)>, DtbError> {
    match node.reg {
        Ok(windows) => Ok(
            if windows.len() > 0 {
                Some(windows[0])
            } else {
                None
            },
        ),
        Err(e) => Err(e),
    }
}

/// Whether the window ends within the address space and is not empty.
pub open spec fn is_window(base: u64, size: u64) -> bool {
    size > 0 && base + size - 1 <= u64::MAX
}

impl DtbNode {
    /// Whether the node is compatible with `id`.
    pub fn has_compatible(&self, id: &str) -> (r: Result<bool, DtbError>)
        ensures
            r == compatible_with(self@, id@),
    {
        match &self.compatible {
            Ok(ids) => {
                let ghost views = strings_view(ids@);
                let mut i: usize = 0;
                while i < ids.len()
                    invariant
                        i <= ids@.len(),
                        views == strings_view(ids@),
                        compatible_with(self@, id@) == Ok::<bool, DtbError>(views.contains(id@)),
                        forall|j: int| 0 <= j < i ==> #[trigger] views[j] != id@,
                    decreases ids@.len() - i,
                {
                    let chars: Vec<char> = chars_of(ids[i].as_str());
                    assert(views[i as int] == ids@[i as int]@);
                    if same_text(chars.as_slice(), id) {
                        assert(views.contains(id@));
                        return Ok(true);
                    }
                    i = i + 1;
                }
                assert(!views.contains(id@));
                Ok(false)
            },
            Err(e) => Err(*e),
        }
    }

    /// The first window of the node.
    pub fn first_reg(&self) -> (r: Result<Option<(u64, u64)>, DtbError>)
        ensures
            r == first_window(self@),
    {
        match &self.reg {
            Ok(windows) => {
                if windows.len() > 0 {
                    Ok(Some(windows[0]))
                } else {
                    Ok(None)
                }
            },
            Err(e) => Err(*e),
        }
    }

    /// The interrupt line of the node, and its sense.
    pub fn first_interrupt(&self) -> (r: Result<(u32, Sense), DtbError>)
        ensures
            r == self@.interrupts,
    {
        self.interrupts
    }
}

/// A node is compatible with an id exactly where one of its strings is the id; where they
/// cannot be decoded that is the fault.
pub proof fn compatibility_is_by_any_string(node: NodeView, id: Seq<char>)
    ensures
        match node.compatible {
            Ok(ids) => {
                &&& compatible_with(node, id) is Ok
                &&& compatible_with(node, id)->Ok_0 <==> exists|i: int|
                    0 <= i < ids.len() && #[trigger] ids[i] == id
            },
            Err(why) => compatible_with(node, id) == Err::<bool, DtbError>(why),
        },
{
}

/// The window of a node is the first that it lists, if it lists any; where they cannot be
/// decoded that is the fault.
pub proof fn window_is_the_first_listed(node: NodeView)
    ensures
        match node.reg {
            Ok(windows) => {
                &&& first_window(node) is Ok
                &&& first_window(node)->Ok_0 is Some <==> windows.len() > 0
                &&& windows.len() > 0 ==> first_window(node)->Ok_0->0 == windows[0]
            },
            Err(why) => first_window(node) == Err::<Option<(u64, u64)>, DtbError>(why),
        },
{
}

/// A window is one that has a last byte, at an address of 64 bits.
pub proof fn windows_have_a_last_byte(base: u64, size: u64)
    ensures
        is_window(base, size) <==> exists|last: u64|
            base <= last && #[trigger] (last - base) == size - 1,
{
    if is_window(base, size) {
        let last = (base + size - 1) as u64;
        assert(last - base == size - 1);
    }
}

/// Nodes and trees are seen as they are, each part in its place.
pub proof fn nodes_are_seen_as_they_are(node: DtbNode, tree: DtbTree)
    ensures
        match node.compatible {
            Ok(ids) => {
                &&& node@.compatible is Ok
                &&& node@.compatible->Ok_0.len() == ids@.len()
                &&& forall|i: int|
                    0 <= i < ids@.len() ==> #[trigger] node@.compatible->Ok_0[i] == ids@[i]@
            },
            Err(why) => node@.compatible == Err::<Seq<Seq<char>>, DtbError>(why),
        },
        match node.reg {
            Ok(windows) => node@.reg == Ok::<Seq<(u64, u64)>, DtbError>(windows@),
            Err(why) => node@.reg == Err::<Seq<(u64, u64)>, DtbError>(why),
        },
        node@.interrupts == node.interrupts,
        match tree.children {
            Ok(children) => {
                &&& tree@ is Ok
                &&& tree@->Ok_0.len() == children@.len()
                &&& forall|i: int|
                    0 <= i < children@.len() ==> #[trigger] tree@->Ok_0[i] == children@[i]@
            },
            Err(why) => tree@ == Err::<Seq<NodeView>, DtbError>(why),
        },
{
}

} // verus!
