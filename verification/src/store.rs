//! The slot maps that hold the nodes and their states.
//!
//! The maps come from the `slotmap` crate. Nothing in this file is proved:
//! each function states what the crate's source shows of the one call it
//! makes, over the entries that a map holds. A handle and a key of the crate
//! are the same 64 bits (`slotmap::KeyData::as_ffi`, `from_ffi`); every
//! function here turns the one into the other and back.

use vstd::prelude::*;
use crate::keys::{in_slot_order, NodeId};
use crate::node::{ButtonResponse, ButtonState, Color, Node, NodeResponse, NodeState};

verus! {

/// The primary map: a `slotmap::SlotMap` from `slotmap::DefaultKey` to `Node`.
#[verifier::external_body]
pub struct NodeSlots {
    slots: slotmap::SlotMap<slotmap::DefaultKey, Node>,
}

/// A `slotmap::SecondaryMap` from `slotmap::DefaultKey` to `NodeState`.
#[verifier::external_body]
pub struct StateSlots {
    slots: slotmap::SecondaryMap<slotmap::DefaultKey, NodeState>,
}

/// A `slotmap::SecondaryMap` from `slotmap::DefaultKey` to `ButtonState`.
#[verifier::external_body]
pub struct ButtonSlots {
    slots: slotmap::SecondaryMap<slotmap::DefaultKey, ButtonState>,
}

/// A `slotmap::SlotMap` from `slotmap::DefaultKey` to `NodeResponse`.
#[verifier::external_body]
pub struct NodeResponseSlots {
    slots: slotmap::SlotMap<slotmap::DefaultKey, NodeResponse>,
}

/// A `slotmap::SlotMap` from `slotmap::DefaultKey` to `ButtonResponse`.
#[verifier::external_body]
pub struct ButtonResponseSlots {
    slots: slotmap::SlotMap<slotmap::DefaultKey, ButtonResponse>,
}

/// The nodes that a primary map holds, by their keys.
pub uninterp spec fn node_entries(s: NodeSlots) -> Map<NodeId, Node>;

/// The node states that a secondary map holds, by their keys.
pub uninterp spec fn state_entries(s: StateSlots) -> Map<NodeId, NodeState>;

/// The button states that a secondary map holds, by their keys.
pub uninterp spec fn button_entries(s: ButtonSlots) -> Map<NodeId, ButtonState>;

/// The requests of nodes that a slot map holds, by their keys.
pub uninterp spec fn node_response_entries(s: NodeResponseSlots) -> Map<NodeId, NodeResponse>;

/// The requests of fold buttons that a slot map holds, by their keys.
pub uninterp spec fn button_response_entries(s: ButtonResponseSlots) -> Map<NodeId, ButtonResponse>;

/// The most entries that a primary map holds: one for each of its slots but
/// the first, of which there are at most `u32::MAX`.
pub open spec fn capacity() -> nat {
    0xffff_fffe
}

/// `slotmap::SlotMap::new`: a map without entries.
#[verifier::external_body]
pub(crate) fn node_slots_new() -> (out: NodeSlots)
    ensures
        node_entries(out) == (Map::<NodeId, Node>::empty()),
{
    NodeSlots { slots: slotmap::SlotMap::new() }
}

/// `slotmap::SlotMap::len`: the number of entries.
#[verifier::external_body]
pub(crate) fn node_slots_len(s: &NodeSlots) -> (out: usize)
    requires
        node_entries(*s).dom().finite(),
    ensures
        out == node_entries(*s).dom().len(),
{
    s.slots.len()
}

/// `slotmap::SlotMap::insert_with_key`, with a closure that builds the node
/// around the key it is given. The map takes a vacant slot or appends one, so
/// the key is new, no entry shares its slot, and the slot is not the one of
/// the null key. All other entries stay. The call panics when no slot is
/// vacant and none can be appended; as no slot is ever detached here, that
/// is when the map holds `capacity()` entries.
#[verifier::external_body]
pub(crate) fn node_slots_insert(s: &mut NodeSlots, father: Option<NodeId>, color: Color, text: String) -> (id: NodeId)
    requires
        node_entries(*old(s)).dom().finite(),
        node_entries(*old(s)).dom().len() < capacity(),
    ensures
        !node_entries(*old(s)).dom().contains(id),
        forall|k: NodeId| node_entries(*old(s)).dom().contains(k) ==> k.slot() != id.slot(),
        !id.null(),
        node_entries(*final(s)) == node_entries(*old(s)).insert(
            id,
            Node { node_id: id, node_color: color, node_text: text, father_id: father },
        ),
{
    let key = s.slots.insert_with_key(
        move |k| Node::new(NodeId { raw: slotmap::Key::data(&k).as_ffi() }, father, color, text),
    );
    NodeId { raw: slotmap::Key::data(&key).as_ffi() }
}

/// `slotmap::SlotMap::get`: the node under the key, if the map holds one.
#[verifier::external_body]
pub(crate) fn node_slots_get(s: &NodeSlots, id: NodeId) -> (out: Option<&Node>)
    ensures
        out == (if node_entries(*s).dom().contains(id) {
            Some(&node_entries(*s)[id])
        } else {
            None
        }),
{
    s.slots.get(slotmap::KeyData::from_ffi(id.raw).into())
}

/// `slotmap::SlotMap::get_mut`: the node under the key, if the map holds one,
/// to be changed in place. No other entry changes.
#[verifier::external_body]
pub(crate) fn node_slots_get_mut(s: &mut NodeSlots, id: NodeId) -> (out: Option<&mut Node>)
    ensures
        match out {
            Some(node) => node_entries(*old(s)).dom().contains(id)
                && *node == node_entries(*old(s))[id]
                && node_entries(*final(s)) == node_entries(*old(s)).insert(id, *final(node)),
            None => !node_entries(*old(s)).dom().contains(id)
                && node_entries(*final(s)) == node_entries(*old(s)),
        },
{
    s.slots.get_mut(slotmap::KeyData::from_ffi(id.raw).into())
}

/// `slotmap::SlotMap::remove`: takes the node under the key out of the map
/// and returns it, if the map holds one.
#[verifier::external_body]
pub(crate) fn node_slots_remove(s: &mut NodeSlots, id: NodeId) -> (out: Option<Node>)
    ensures
        node_entries(*final(s)) == node_entries(*old(s)).remove(id),
        out == (if node_entries(*old(s)).dom().contains(id) {
            Some(node_entries(*old(s))[id])
        } else {
            None
        }),
{
    s.slots.remove(slotmap::KeyData::from_ffi(id.raw).into())
}

/// `slotmap::SlotMap::keys`, collected: every key of the map once, in the
/// order of the slots.
#[verifier::external_body]
pub(crate) fn node_slots_keys(s: &NodeSlots) -> (out: Vec<NodeId>)
    ensures
        forall|i: int| 0 <= i < out@.len() ==> node_entries(*s).dom().contains(#[trigger] out@[i]),
        forall|k: NodeId| node_entries(*s).dom().contains(k) ==> out@.contains(k),
        in_slot_order(out@),
{
    s.slots.keys().map(|k| NodeId { raw: slotmap::Key::data(&k).as_ffi() }).collect()
}

/// `slotmap::SecondaryMap::new`: a map without entries.
#[verifier::external_body]
pub(crate) fn state_slots_new() -> (out: StateSlots)
    ensures
        state_entries(out) == (Map::<NodeId, NodeState>::empty()),
{
    StateSlots { slots: slotmap::SecondaryMap::new() }
}

/// `slotmap::SecondaryMap::len`: the number of entries.
#[verifier::external_body]
pub(crate) fn state_slots_len(s: &StateSlots) -> (out: usize)
    requires
        state_entries(*s).dom().finite(),
    ensures
        out == state_entries(*s).dom().len(),
{
    s.slots.len()
}

/// `slotmap::SecondaryMap::insert` of a key that is not null and whose slot
/// no other key of the map uses: the value is stored under the key, and the
/// value that was there before is returned.
#[verifier::external_body]
pub(crate) fn state_slots_insert(s: &mut StateSlots, id: NodeId, state: NodeState) -> (out: Option<NodeState>)
    requires
        !id.null(),
        forall|k: NodeId| state_entries(*old(s)).dom().contains(k) && k.slot() == id.slot() ==> k == id,
    ensures
        state_entries(*final(s)) == state_entries(*old(s)).insert(id, state),
        out == (if state_entries(*old(s)).dom().contains(id) {
            Some(state_entries(*old(s))[id])
        } else {
            None
        }),
{
    s.slots.insert(slotmap::KeyData::from_ffi(id.raw).into(), state)
}

/// `slotmap::SecondaryMap::get`: the value under the key, if the map holds one.
#[verifier::external_body]
pub(crate) fn state_slots_get(s: &StateSlots, id: NodeId) -> (out: Option<NodeState>)
    ensures
        out == (if state_entries(*s).dom().contains(id) {
            Some(state_entries(*s)[id])
        } else {
            None
        }),
{
    s.slots.get(slotmap::KeyData::from_ffi(id.raw).into()).copied()
}

/// `slotmap::SecondaryMap::remove`: takes the value under the key out of the
/// map and returns it, if the map holds one.
#[verifier::external_body]
pub(crate) fn state_slots_remove(s: &mut StateSlots, id: NodeId) -> (out: Option<NodeState>)
    ensures
        state_entries(*final(s)) == state_entries(*old(s)).remove(id),
        out == (if state_entries(*old(s)).dom().contains(id) {
            Some(state_entries(*old(s))[id])
        } else {
            None
        }),
{
    s.slots.remove(slotmap::KeyData::from_ffi(id.raw).into())
}

/// `slotmap::SecondaryMap::new`: a map without entries.
#[verifier::external_body]
pub(crate) fn button_slots_new() -> (out: ButtonSlots)
    ensures
        button_entries(out) == (Map::<NodeId, ButtonState>::empty()),
{
    ButtonSlots { slots: slotmap::SecondaryMap::new() }
}

/// `slotmap::SecondaryMap::insert` of a key that is not null and whose slot
/// no other key of the map uses: the value is stored under the key, and the
/// value that was there before is returned.
#[verifier::external_body]
pub(crate) fn button_slots_insert(s: &mut ButtonSlots, id: NodeId, state: ButtonState) -> (out: Option<ButtonState>)
    requires
        !id.null(),
        forall|k: NodeId| button_entries(*old(s)).dom().contains(k) && k.slot() == id.slot() ==> k == id,
    ensures
        button_entries(*final(s)) == button_entries(*old(s)).insert(id, state),
        out == (if button_entries(*old(s)).dom().contains(id) {
            Some(button_entries(*old(s))[id])
        } else {
            None
        }),
{
    s.slots.insert(slotmap::KeyData::from_ffi(id.raw).into(), state)
}

/// `slotmap::SecondaryMap::get`: the value under the key, if the map holds one.
#[verifier::external_body]
pub(crate) fn button_slots_get(s: &ButtonSlots, id: NodeId) -> (out: Option<ButtonState>)
    ensures
        out == (if button_entries(*s).dom().contains(id) {
            Some(button_entries(*s)[id])
        } else {
            None
        }),
{
    s.slots.get(slotmap::KeyData::from_ffi(id.raw).into()).copied()
}

/// `slotmap::SecondaryMap::remove`: takes the value under the key out of the
/// map and returns it, if the map holds one.
#[verifier::external_body]
pub(crate) fn button_slots_remove(s: &mut ButtonSlots, id: NodeId) -> (out: Option<ButtonState>)
    ensures
        button_entries(*final(s)) == button_entries(*old(s)).remove(id),
        out == (if button_entries(*old(s)).dom().contains(id) {
            Some(button_entries(*old(s))[id])
        } else {
            None
        }),
{
    s.slots.remove(slotmap::KeyData::from_ffi(id.raw).into())
}

/// `slotmap::SlotMap::new`: a map without entries.
#[verifier::external_body]
pub(crate) fn node_response_slots_new() -> (out: NodeResponseSlots)
    ensures
        node_response_entries(out) == (Map::<NodeId, NodeResponse>::empty()),
{
    NodeResponseSlots { slots: slotmap::SlotMap::new() }
}

/// `slotmap::SlotMap::len`: the number of entries.
#[verifier::external_body]
pub(crate) fn node_response_slots_len(s: &NodeResponseSlots) -> (out: usize)
    requires
        node_response_entries(*s).dom().finite(),
    ensures
        out == node_response_entries(*s).dom().len(),
{
    s.slots.len()
}

/// `slotmap::SlotMap::insert`: the map takes a vacant slot or appends one and
/// stores the value there, so the key is new and no entry shares its slot.
/// All other entries stay. The call panics when no slot is vacant and none
/// can be appended; as no slot is ever detached here, that is when the map
/// holds `capacity()` entries.
#[verifier::external_body]
pub(crate) fn node_response_slots_insert(s: &mut NodeResponseSlots, response: NodeResponse) -> (id: NodeId)
    requires
        node_response_entries(*old(s)).dom().finite(),
        node_response_entries(*old(s)).dom().len() < capacity(),
    ensures
        !node_response_entries(*old(s)).dom().contains(id),
        forall|k: NodeId| node_response_entries(*old(s)).dom().contains(k) ==> k.slot() != id.slot(),
        node_response_entries(*final(s)) == node_response_entries(*old(s)).insert(id, response),
{
    NodeId { raw: slotmap::Key::data(&s.slots.insert(response)).as_ffi() }
}

/// `slotmap::SlotMap::iter`, collected: every entry of the map once, key
/// and value, in the order of the slots.
#[verifier::external_body]
pub(crate) fn node_response_slots_list(s: &NodeResponseSlots) -> (out: Vec<(NodeId, NodeResponse)>)
    ensures
        forall|i: int|
            0 <= i < out@.len() ==> node_response_entries(*s).dom().contains((#[trigger] out@[i]).0)
                && node_response_entries(*s)[out@[i].0] == out@[i].1,
        forall|k: NodeId|
            node_response_entries(*s).dom().contains(k) ==> exists|i: int|
                0 <= i < out@.len() && (#[trigger] out@[i]).0 == k,
        forall|i: int, j: int| 0 <= i < j < out@.len() ==> out@[i].0.slot() < out@[j].0.slot(),
{
    s.slots.iter().map(|(k, v)| (NodeId { raw: slotmap::Key::data(&k).as_ffi() }, *v)).collect()
}

/// `slotmap::SlotMap::new`: a map without entries.
#[verifier::external_body]
pub(crate) fn button_response_slots_new() -> (out: ButtonResponseSlots)
    ensures
        button_response_entries(out) == (Map::<NodeId, ButtonResponse>::empty()),
{
    ButtonResponseSlots { slots: slotmap::SlotMap::new() }
}

/// `slotmap::SlotMap::len`: the number of entries.
#[verifier::external_body]
pub(crate) fn button_response_slots_len(s: &ButtonResponseSlots) -> (out: usize)
    requires
        button_response_entries(*s).dom().finite(),
    ensures
        out == button_response_entries(*s).dom().len(),
{
    s.slots.len()
}

/// `slotmap::SlotMap::insert`: the map takes a vacant slot or appends one and
/// stores the value there, so the key is new and no entry shares its slot.
/// All other entries stay. The call panics when no slot is vacant and none
/// can be appended; as no slot is ever detached here, that is when the map
/// holds `capacity()` entries.
#[verifier::external_body]
pub(crate) fn button_response_slots_insert(s: &mut ButtonResponseSlots, response: ButtonResponse) -> (id: NodeId)
    requires
        button_response_entries(*old(s)).dom().finite(),
        button_response_entries(*old(s)).dom().len() < capacity(),
    ensures
        !button_response_entries(*old(s)).dom().contains(id),
        forall|k: NodeId| button_response_entries(*old(s)).dom().contains(k) ==> k.slot() != id.slot(),
        button_response_entries(*final(s)) == button_response_entries(*old(s)).insert(id, response),
{
    NodeId { raw: slotmap::Key::data(&s.slots.insert(response)).as_ffi() }
}

/// `slotmap::SlotMap::iter`, collected: every entry of the map once, key
/// and value, in the order of the slots.
#[verifier::external_body]
pub(crate) fn button_response_slots_list(s: &ButtonResponseSlots) -> (out: Vec<(NodeId, ButtonResponse)>)
    ensures
        forall|i: int|
            0 <= i < out@.len() ==> button_response_entries(*s).dom().contains((#[trigger] out@[i]).0)
                && button_response_entries(*s)[out@[i].0] == out@[i].1,
        forall|k: NodeId|
            button_response_entries(*s).dom().contains(k) ==> exists|i: int|
                0 <= i < out@.len() && (#[trigger] out@[i]).0 == k,
        forall|i: int, j: int| 0 <= i < j < out@.len() ==> out@[i].0.slot() < out@[j].0.slot(),
{
    s.slots.iter().map(|(k, v)| (NodeId { raw: slotmap::Key::data(&k).as_ffi() }, *v)).collect()
}

} // verus!
