//! The arena that owns the nodes: a slot map, which hands out a key for
//! each record put in and never hands out the key of a live record twice.

use crate::style::Style;
use crate::tree::cache::Cache;
use crate::tree::{Layout, NodeId};
use slotmap::{DefaultKey, Key, KeyData, SlotMap};
use vstd::prelude::*;

verus! {

/// What the tree keeps for a node besides its place in the tree.
pub struct NodeData {
    /// What the node's style declares.
    pub style: Style,
    /// The layout as computed.
    pub unrounded_layout: Layout,
    /// The layout after rounding.
    pub final_layout: Layout,
    /// Whether a measure function sizes the node.
    pub needs_measure: bool,
    /// What the node remembers of earlier runs.
    pub cache: Cache,
}

/// A node's record in the arena.
pub struct NodeSlot {
    /// Style, layouts and cache.
    pub data: NodeData,
    /// The children, in order.
    pub children: Vec<NodeId>,
    /// The parent, if the node has one.
    pub parent: Option<NodeId>,
}

/// A node's record as contracts speak of it.
pub struct NodeView {
    /// Style, layouts and cache.
    pub data: NodeData,
    /// The children, in order.
    pub children: Seq<NodeId>,
    /// The parent, if the node has one.
    pub parent: Option<NodeId>,
}

/// The arena.
#[verifier::external_body]
pub struct NodeSlots {
    inner: SlotMap<DefaultKey, NodeSlot>,
}

/// The most records that the arena is ever asked to hold.
pub const MAX_NODES: usize = 0xffff_fffe;

/// The most records that the arena is asked to make room for in advance.
pub const MAX_CAPACITY: usize = 0xffff;

/// The records in the arena, by the 64-bit form of their keys.
pub uninterp spec fn slot_contents(slots: NodeSlots) -> Map<u64, NodeSlot>;

/// The key that a 64-bit number stands for. A key is an index in the low 32
/// bits and a version in the high 32, and the version of a key that is in
/// use is odd: the slot map reads every number as the key with that bit set.
pub open spec fn key_of(id: u64) -> u64 {
    id | 0x1_0000_0000u64
}

impl NodeData {
    /// Whether this is what a new node with the given style starts with:
    /// zeroed layouts and nothing remembered.
    pub open spec fn is_new(self, style: Style, needs_measure: bool) -> bool {
        &&& self.style == style
        &&& self.unrounded_layout == Layout::zeroed(0)
        &&& self.final_layout == Layout::zeroed(0)
        &&& self.needs_measure == needs_measure
        &&& self.cache.empty()
    }

    /// What a new node with the given style starts with.
    pub fn new(style: Style) -> (data: NodeData)
        ensures
            data.is_new(style, false),
    {
        NodeData {
            style,
            unrounded_layout: Layout::new(),
            final_layout: Layout::new(),
            needs_measure: false,
            cache: Cache::new(),
        }
    }

    /// This record with nothing remembered.
    pub open spec fn forgetful(self, after: NodeData) -> bool {
        &&& after.style == self.style
        &&& after.unrounded_layout == self.unrounded_layout
        &&& after.final_layout == self.final_layout
        &&& after.needs_measure == self.needs_measure
        &&& after.cache.empty()
    }

    /// Forgets what earlier runs have produced, so that the next run computes anew.
    pub fn mark_dirty(&mut self)
        ensures
            old(self).forgetful(*final(self)),
    {
        self.cache.clear();
    }
}

impl View for NodeSlot {
    type V = NodeView;

    open spec fn view(&self) -> NodeView {
        NodeView { data: self.data, children: self.children@, parent: self.parent }
    }
}

/// An empty arena with room for `capacity` records.
///
/// Calls `SlotMap::with_capacity`, which allocates `capacity + 1` slots and
/// puts no record in.
#[verifier::external_body]
pub(crate) fn slots_with_capacity(capacity: usize) -> (slots: NodeSlots)
    requires
        capacity <= MAX_CAPACITY,
    ensures
        slot_contents(slots).dom().finite(),
        slot_contents(slots).dom().len() == 0,
{
    NodeSlots { inner: SlotMap::with_capacity(capacity) }
}

/// Puts a record in and returns its key.
///
/// Calls `SlotMap::insert`, which stores the value in a vacant slot, or in a
/// new one if none is vacant, and returns that slot's key with an odd
/// version; no live record has that key. It panics once the slots number
/// `u32::MAX`, which the bound on the number of records excludes.
#[verifier::external_body]
pub(crate) fn slots_insert(slots: &mut NodeSlots, value: NodeSlot) -> (id: u64)
    requires
        slot_contents(*old(slots)).dom().len() < MAX_NODES,
    ensures
        key_of(id) == id,
        !slot_contents(*old(slots)).dom().contains(id),
        slot_contents(*final(slots)) == slot_contents(*old(slots)).insert(id, value),
        slot_contents(*final(slots)).dom().finite(),
{
    slots.inner.insert(value).data().as_ffi()
}

/// Takes the record with the given key out, if there is one.
///
/// Calls `SlotMap::remove`, which returns the value if the key is live and
/// vacates its slot, and returns `None` and changes nothing otherwise.
#[verifier::external_body]
pub(crate) fn slots_remove(slots: &mut NodeSlots, id: u64) -> (removed: Option<NodeSlot>)
    ensures
        removed == (if slot_contents(*old(slots)).dom().contains(key_of(id)) {
            Some(slot_contents(*old(slots))[key_of(id)])
        } else {
            None
        }),
        slot_contents(*final(slots)) == slot_contents(*old(slots)).remove(key_of(id)),
{
    slots.inner.remove(KeyData::from_ffi(id).into())
}

/// The record with the given key, if there is one.
///
/// Calls `SlotMap::get`, which returns the value if the key is live.
#[verifier::external_body]
pub(crate) fn slots_get(slots: &NodeSlots, id: u64) -> (slot: Option<&NodeSlot>)
    ensures
        slot == (if slot_contents(*slots).dom().contains(key_of(id)) {
            Some(&slot_contents(*slots)[key_of(id)])
        } else {
            None
        }),
{
    slots.inner.get(KeyData::from_ffi(id).into())
}

/// The record with the given key, to be changed in place, if there is one.
///
/// Calls `SlotMap::get_mut`, which returns the value if the key is live and
/// touches no other record.
#[verifier::external_body]
pub(crate) fn slots_get_mut(slots: &mut NodeSlots, id: u64) -> (slot: Option<&mut NodeSlot>)
    ensures
        match slot {
            Some(record) => slot_contents(*old(slots)).dom().contains(key_of(id)) && *record
                == slot_contents(*old(slots))[key_of(id)] && slot_contents(*final(slots))
                == slot_contents(*old(slots)).insert(key_of(id), *final(record)),
            None => !slot_contents(*old(slots)).dom().contains(key_of(id)) && slot_contents(
                *final(slots),
            ) == slot_contents(*old(slots)),
        },
{
    slots.inner.get_mut(KeyData::from_ffi(id).into())
}

/// Takes every record out.
///
/// Calls `SlotMap::clear`, which drains the map.
#[verifier::external_body]
pub(crate) fn slots_clear(slots: &mut NodeSlots)
    ensures
        slot_contents(*final(slots)).dom().finite(),
        slot_contents(*final(slots)).dom().len() == 0,
{
    slots.inner.clear()
}

/// The number of records.
///
/// Calls `SlotMap::len`, which counts the live keys.
#[verifier::external_body]
pub(crate) fn slots_len(slots: &NodeSlots) -> (n: usize)
    ensures
        n == slot_contents(*slots).dom().len(),
{
    slots.inner.len()
}

} // verus!
