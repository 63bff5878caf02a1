//! Handles by which the nodes of a graph are named.

use vstd::prelude::*;

verus! {

/// Handle of a node: the key under which a slot map stores it, in the key's
/// 64-bit form. The low 32 bits are the index of the slot, the high 32 bits
/// the version of the slot at the time the key was handed out.
#[derive(Clone, Copy, Debug, PartialEq, Eq, Structural, Hash)]
pub struct NodeId {
    pub(crate) raw: u64,
}

impl NodeId {
    /// The version of a live key is odd, so its lowest version bit is set.
    #[verifier::type_invariant]
    pub closed spec fn canonical(self) -> bool {
        self.raw & 0x1_0000_0000 != 0
    }

    /// Index of the slot that the handle refers to.
    pub closed spec fn slot(self) -> int {
        (self.raw % 0x1_0000_0000) as int
    }

    /// The handle that never names a node.
    pub closed spec fn null_id() -> NodeId {
        NodeId { raw: 0x1_ffff_ffff }
    }

    /// A handle is null when it refers to the slot index that no map ever uses.
    pub open spec fn null(self) -> bool {
        self.slot() == 0xffff_ffff
    }

    /// The 64 bits of the handle.
    pub closed spec fn bits(self) -> u64 {
        self.raw
    }

    /// The handle as text: `node_` and then the key as the slot map prints it.
    pub fn to_text(&self) -> (text: String)
        ensures
            text@ == "node_"@ + key_debug_text(self.bits()),
    {
        let key = key_debug(*self);
        "node_".to_owned().concat(key.as_str())
    }

    /// Tells whether the handle is a null handle.
    pub fn is_null(&self) -> (b: bool)
        ensures
            b == self.null(),
    {
        self.raw % 0x1_0000_0000 == 0xffff_ffff
    }
}

/// No two handles of a set refer to the same slot.
pub open spec fn distinct_slots(ids: Set<NodeId>) -> bool {
    forall|a: NodeId, b: NodeId| ids.contains(a) && ids.contains(b) && a.slot() == b.slot() ==> a == b
}

/// No two handles of a set refer to the same slot, and none is null.
pub open spec fn one_handle_per_slot(ids: Set<NodeId>) -> bool {
    &&& forall|k: NodeId| ids.contains(k) ==> !k.null()
    &&& distinct_slots(ids)
}

/// A sequence of handles in the order of their slots.
pub open spec fn in_slot_order(ids: Seq<NodeId>) -> bool {
    forall|i: int, j: int| 0 <= i < j < ids.len() ==> ids[i].slot() < ids[j].slot()
}

/// The handles of a set in the order of their slots.
pub open spec fn slot_ordered(ids: Set<NodeId>) -> Seq<NodeId> {
    choose|s: Seq<NodeId>| in_slot_order(s) && forall|k: NodeId| s.contains(k) <==> ids.contains(k)
}

/// The values of a map in the order of the slots of their handles.
pub open spec fn values_in_slot_order<V>(entries: Map<NodeId, V>) -> Seq<V> {
    Seq::new(slot_ordered(entries.dom()).len(), |i: int| entries[slot_ordered(entries.dom())[i]])
}

/// Two sequences in the order of their slots that have the same members are
/// the same sequence.
pub proof fn lemma_slot_order_is_unique(a: Seq<NodeId>, b: Seq<NodeId>)
    requires
        in_slot_order(a),
        in_slot_order(b),
        forall|k: NodeId| a.contains(k) <==> b.contains(k),
    ensures
        a == b,
    decreases a.len(),
{
    if a.len() == 0 {
        if b.len() > 0 {
            assert(b.contains(b[0]));
        }
        assert(a =~= b);
    } else {
        assert(a.contains(a.last()));
        assert(b.contains(a.last()));
        let j = choose|j: int| 0 <= j < b.len() && b[j] == a.last();
        assert(b.contains(b.last()));
        assert(a.contains(b.last()));
        let i = choose|i: int| 0 <= i < a.len() && a[i] == b.last();
        assert(j == b.len() - 1) by {
            if j < b.len() - 1 {
                assert(b[j].slot() < b[b.len() - 1].slot());
                if i < a.len() - 1 {
                    assert(a[i].slot() < a[a.len() - 1].slot());
                }
            }
        }
        assert forall|k: NodeId| a.drop_last().contains(k) <==> b.drop_last().contains(k) by {
            if a.drop_last().contains(k) {
                let p = choose|p: int| 0 <= p < a.drop_last().len() && a.drop_last()[p] == k;
                assert(a[p] == k);
                assert(a[p].slot() < a[a.len() - 1].slot());
                assert(a.contains(k));
                let q = choose|q: int| 0 <= q < b.len() && b[q] == k;
                assert(b.drop_last()[q] == k);
            }
            if b.drop_last().contains(k) {
                let q = choose|q: int| 0 <= q < b.drop_last().len() && b.drop_last()[q] == k;
                assert(b[q] == k);
                assert(b[q].slot() < b[b.len() - 1].slot());
                assert(b.contains(k));
                let p = choose|p: int| 0 <= p < a.len() && a[p] == k;
                assert(a.drop_last()[p] == k);
            }
        }
        lemma_slot_order_is_unique(a.drop_last(), b.drop_last());
        assert(a =~= a.drop_last().push(a.last()));
        assert(b =~= b.drop_last().push(b.last()));
    }
}

/// A sequence in the order of its slots whose members are those of a set is
/// the set in the order of its slots.
pub proof fn lemma_slot_ordered(ids: Set<NodeId>, s: Seq<NodeId>)
    requires
        in_slot_order(s),
        forall|k: NodeId| s.contains(k) <==> ids.contains(k),
    ensures
        s == slot_ordered(ids),
{
    let chosen = slot_ordered(ids);
    assert(in_slot_order(chosen) && forall|k: NodeId| chosen.contains(k) <==> ids.contains(k));
    lemma_slot_order_is_unique(s, chosen);
}

/// The place of `x` among the handles of `s`, which are in the order of
/// their slots: behind the last handle whose slot comes before the slot of `x`.
pub open spec fn place(s: Seq<NodeId>, x: NodeId) -> int
    decreases s.len(),
{
    if s.len() == 0 || s.last().slot() < x.slot() {
        s.len() as int
    } else {
        place(s.drop_last(), x)
    }
}

/// A handle put at its place among handles in the order of their slots
/// leaves them in that order.
pub proof fn lemma_place_keeps_order(s: Seq<NodeId>, x: NodeId)
    requires
        in_slot_order(s),
        forall|i: int| 0 <= i < s.len() ==> (#[trigger] s[i]).slot() != x.slot(),
    ensures
        0 <= place(s, x) <= s.len(),
        forall|i: int| 0 <= i < place(s, x) ==> (#[trigger] s[i]).slot() < x.slot(),
        forall|i: int| place(s, x) <= i < s.len() ==> (#[trigger] s[i]).slot() > x.slot(),
        in_slot_order(s.insert(place(s, x), x)),
        forall|k: NodeId| #[trigger] s.insert(place(s, x), x).contains(k) <==> s.contains(k) || k == x,
    decreases s.len(),
{
    let at = place(s, x);
    if s.len() == 0 || s.last().slot() < x.slot() {
    } else {
        lemma_place_keeps_order(s.drop_last(), x);
        assert forall|i: int| at <= i < s.len() implies (#[trigger] s[i]).slot() > x.slot() by {
            if i < s.len() - 1 {
                assert(s.drop_last()[i] == s[i]);
            }
        }
        assert forall|i: int| 0 <= i < at implies (#[trigger] s[i]).slot() < x.slot() by {
            assert(s.drop_last()[i] == s[i]);
        }
    }
    let t = s.insert(at, x);
    assert forall|k: NodeId| #[trigger] t.contains(k) <==> s.contains(k) || k == x by {
        if t.contains(k) {
            let i = choose|i: int| 0 <= i < t.len() && t[i] == k;
            if i < at {
                assert(s[i] == k);
            } else if i > at {
                assert(s[i - 1] == k);
            }
        }
        if s.contains(k) {
            let i = choose|i: int| 0 <= i < s.len() && s[i] == k;
            if i < at {
                assert(t[i] == k);
            } else {
                assert(t[i + 1] == k);
            }
        }
        if k == x {
            assert(t[at] == k);
        }
    }
}

/// A finite set of handles on different slots can be put in the order of
/// the slots.
pub proof fn lemma_slot_ordered_covers(ids: Set<NodeId>)
    requires
        ids.finite(),
        distinct_slots(ids),
    ensures
        in_slot_order(slot_ordered(ids)),
        forall|k: NodeId| slot_ordered(ids).contains(k) <==> ids.contains(k),
    decreases ids.len(),
{
    if ids.len() == 0 {
        lemma_slot_ordered(ids, Seq::<NodeId>::empty());
    } else {
        let x = ids.choose();
        let rest = ids.remove(x);
        lemma_slot_ordered_covers(rest);
        let s = slot_ordered(rest);
        assert forall|i: int| 0 <= i < s.len() implies (#[trigger] s[i]).slot() != x.slot() by {
            assert(s.contains(s[i]));
        }
        lemma_place_keeps_order(s, x);
        lemma_slot_ordered(ids, s.insert(place(s, x), x));
    }
}

/// One more entry in a map takes its place among the values in the order
/// of the slots, and the other values keep theirs.
pub proof fn lemma_value_takes_its_place<V>(entries: Map<NodeId, V>, id: NodeId, value: V)
    requires
        entries.dom().finite(),
        distinct_slots(entries.dom()),
        forall|k: NodeId| entries.dom().contains(k) ==> k.slot() != id.slot(),
    ensures
        0 <= place(slot_ordered(entries.dom()), id) <= values_in_slot_order(entries).len(),
        values_in_slot_order(entries.insert(id, value)) == values_in_slot_order(entries).insert(
            place(slot_ordered(entries.dom()), id),
            value,
        ),
{
    let keys = slot_ordered(entries.dom());
    lemma_slot_ordered_covers(entries.dom());
    assert forall|i: int| 0 <= i < keys.len() implies (#[trigger] keys[i]).slot() != id.slot() by {
        assert(keys.contains(keys[i]));
    }
    lemma_place_keeps_order(keys, id);
    let at = place(keys, id);
    let grown = keys.insert(at, id);
    lemma_slot_ordered(entries.insert(id, value).dom(), grown);
    assert forall|i: int| 0 <= i < keys.len() implies entries.dom().contains(#[trigger] keys[i]) by {
        assert(keys.contains(keys[i]));
    }
    assert(values_in_slot_order(entries.insert(id, value)) =~= values_in_slot_order(entries).insert(at, value));
}

/// The text that `slotmap::KeyData` prints for the key of the given 64 bits
/// when it is formatted for debugging.
pub uninterp spec fn key_debug_text(bits: u64) -> Seq<char>;

/// `core::fmt::Debug` of `slotmap::KeyData`, through `format!`: the text of
/// the key that `slotmap::KeyData::from_ffi` makes of the handle's bits.
#[verifier::external_body]
fn key_debug(id: NodeId) -> (text: String)
    ensures
        text@ == key_debug_text(id.raw),
{
    format!("{:?}", slotmap::KeyData::from_ffi(id.raw))
}

/// `slotmap::Key::null` on `slotmap::DefaultKey`, in the key's 64-bit form
/// (`slotmap::KeyData::as_ffi`). The null key has slot index `u32::MAX` and
/// version 1.
#[verifier::external_body]
fn null_key() -> (id: NodeId)
    ensures
        id == NodeId::null_id(),
{
    NodeId { raw: slotmap::Key::data(&<slotmap::DefaultKey as slotmap::Key>::null()).as_ffi() }
}

impl Default for NodeId {
    /// The null handle.
    fn default() -> (id: NodeId)
        ensures
            id == NodeId::null_id(),
            id.null(),
    {
        null_key()
    }
}

} // verus!
