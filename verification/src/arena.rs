use vstd::prelude::*;

use slotmap::{DefaultKey, Key, KeyData, SlotMap};

use crate::geometry::Orientation;
use crate::protocol::WindowId;

verus! {

/// What a node of the layout tree holds: one window, or a division of its
/// area between two children. Children and parents are named by node handles.
pub enum NodeKind {
    Leaf { window: WindowId },
    Split { orientation: Orientation, ratio: u32, first: u64, second: u64 },
}

pub struct Node {
    pub parent: Option<u64>,
    pub kind: NodeKind,
}

/// The arena that stores the nodes of a layout tree: a slot map whose keys
/// the tree names by their handles (`KeyData::as_ffi`).
#[verifier::external_body]
pub struct NodeArena {
    slots: SlotMap<DefaultKey, Node>,
}

/// The nodes that the arena's slot map holds, each under the handle of its key.
pub uninterp spec fn arena_nodes(m: NodeArena) -> Map<u64, Node>;

/// `SlotMap::new`: an empty slot map.
#[verifier::external_body]
pub(crate) fn arena_new() -> (fresh: NodeArena)
    ensures
        arena_nodes(fresh) =~= Map::empty(),
{
    NodeArena { slots: SlotMap::new() }
}

/// `SlotMap::insert`: stores `node` under a key that no node of the map holds
/// and returns that key's handle. Which key (a fresh slot or a freed one with
/// a new version) is left unsaid. It panics only when the map holds
/// `u32::MAX - 1` nodes, which `requires` leaves out.
#[verifier::external_body]
pub(crate) fn arena_insert(m: &mut NodeArena, node: Node) -> (k: u64)
    requires
        arena_nodes(*old(m)).dom().finite(),
        arena_nodes(*old(m)).len() < u32::MAX - 1,
    ensures
        !arena_nodes(*old(m)).dom().contains(k),
        arena_nodes(*final(m)) == arena_nodes(*old(m)).insert(k, node),
{
    m.slots.insert(node).data().as_ffi()
}

/// `SlotMap::remove`: takes out the node under the handle `k`.
#[verifier::external_body]
pub(crate) fn arena_remove(m: &mut NodeArena, k: u64) -> (r: Option<Node>)
    requires
        arena_nodes(*old(m)).dom().contains(k),
    ensures
        r == Some(arena_nodes(*old(m))[k]),
        arena_nodes(*final(m)) == arena_nodes(*old(m)).remove(k),
{
    m.slots.remove(DefaultKey::from(KeyData::from_ffi(k)))
}

/// `Index::index` of a slot map: the node under the handle `k`.
#[verifier::external_body]
pub(crate) fn arena_node(m: &NodeArena, k: u64) -> (r: &Node)
    requires
        arena_nodes(*m).dom().contains(k),
    ensures
        *r == arena_nodes(*m)[k],
{
    &m.slots[DefaultKey::from(KeyData::from_ffi(k))]
}

/// `IndexMut::index_mut` of a slot map: the node under the handle `k`, to
/// change in place.
#[verifier::external_body]
pub(crate) fn arena_node_mut(m: &mut NodeArena, k: u64) -> (r: &mut Node)
    requires
        arena_nodes(*old(m)).dom().contains(k),
    ensures
        *r == arena_nodes(*old(m))[k],
        arena_nodes(*final(m)) == arena_nodes(*old(m)).insert(k, *final(r)),
{
    &mut m.slots[DefaultKey::from(KeyData::from_ffi(k))]
}

/// `SlotMap::len`: how many nodes the map holds.
#[verifier::external_body]
pub(crate) fn arena_len(m: &NodeArena) -> (r: usize)
    requires
        arena_nodes(*m).dom().finite(),
    ensures
        r == arena_nodes(*m).len(),
{
    m.slots.len()
}

} // verus!
