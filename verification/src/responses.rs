//! The requests of a frame, each kind in a slot map of its own.

use vstd::prelude::*;
use crate::keys::{
    distinct_slots, lemma_slot_ordered, lemma_value_takes_its_place, place, slot_ordered,
    values_in_slot_order, NodeId,
};
use crate::node::{ButtonResponse, NodeResponse};
use crate::store::{
    button_response_entries, button_response_slots_insert, button_response_slots_len,
    button_response_slots_list, button_response_slots_new, capacity, node_response_entries,
    node_response_slots_insert, node_response_slots_len, node_response_slots_list,
    node_response_slots_new, ButtonResponseSlots, NodeResponseSlots,
};

verus! {

/// The requests that the nodes made during a frame, in a slot map of their
/// own. They are read in the order of the slots.
pub struct NodeResponses {
    slots: NodeResponseSlots,
}

impl View for NodeResponses {
    type V = Seq<NodeResponse>;

    /// The requests in the order in which they are read.
    open spec fn view(&self) -> Seq<NodeResponse> {
        values_in_slot_order(self.entries())
    }
}

impl NodeResponses {
    /// The requests, by the keys under which the map holds them.
    pub closed spec fn entries(&self) -> Map<NodeId, NodeResponse> {
        node_response_entries(self.slots)
    }

    /// The map holds finitely many requests, each in a slot of its own.
    pub open spec fn wf(&self) -> bool {
        &&& self.entries().dom().finite()
        &&& distinct_slots(self.entries().dom())
    }

    /// No requests.
    pub fn new() -> (responses: NodeResponses)
        ensures
            responses.wf(),
            responses.entries() == (Map::<NodeId, NodeResponse>::empty()),
            responses@ == Seq::<NodeResponse>::empty(),
    {
        let responses = NodeResponses { slots: node_response_slots_new() };
        proof {
            lemma_slot_ordered(responses.entries().dom(), Seq::<NodeId>::empty());
            assert(responses@ =~= Seq::<NodeResponse>::empty());
        }
        responses
    }

    /// The number of requests.
    pub fn len(&self) -> (n: usize)
        requires
            self.wf(),
        ensures
            n == self.entries().dom().len(),
    {
        node_response_slots_len(&self.slots)
    }

    /// Tells whether the map can take one more request.
    pub fn has_room(&self) -> (b: bool)
        requires
            self.wf(),
        ensures
            b == (self.entries().dom().len() < capacity()),
    {
        node_response_slots_len(&self.slots) < 0xffff_fffe
    }

    /// Takes one more request and returns the key under which the map holds
    /// it. The map picks the slot, and with it the place of the request
    /// among the others, which stay in their order.
    pub fn insert(&mut self, response: NodeResponse) -> (id: NodeId)
        requires
            old(self).wf(),
            old(self).entries().dom().len() < capacity(),
        ensures
            final(self).wf(),
            !old(self).entries().dom().contains(id),
            forall|k: NodeId| old(self).entries().dom().contains(k) ==> k.slot() != id.slot(),
            final(self).entries() == old(self).entries().insert(id, response),
            exists|at: int| 0 <= at <= old(self)@.len() && #[trigger] old(self)@.insert(at, response) == final(self)@,
    {
        let id = node_response_slots_insert(&mut self.slots, response);
        proof {
            lemma_value_takes_its_place(old(self).entries(), id, response);
            let at = place(slot_ordered(old(self).entries().dom()), id);
            assert(old(self)@.insert(at, response) == self@);
        }
        id
    }

    /// The requests in the order in which they are read.
    pub fn to_vec(&self) -> (requests: Vec<NodeResponse>)
        ensures
            requests@ == self@,
    {
        let listed = node_response_slots_list(&self.slots);
        let mut requests: Vec<NodeResponse> = Vec::new();
        let mut at: usize = 0;
        while at < listed.len()
            invariant
                at <= listed.len(),
                requests@.len() == at,
                forall|i: int| 0 <= i < at ==> requests@[i] == listed@[i].1,
            decreases listed.len() - at,
        {
            requests.push(listed[at].1);
            at += 1;
        }
        proof {
            let keys = Seq::new(listed@.len(), |i: int| listed@[i].0);
            assert forall|k: NodeId| keys.contains(k) <==> self.entries().dom().contains(k) by {
                if keys.contains(k) {
                    let i = choose|i: int| 0 <= i < keys.len() && keys[i] == k;
                    assert(self.entries().dom().contains(listed@[i].0));
                }
                if self.entries().dom().contains(k) {
                    let i = choose|i: int| 0 <= i < listed@.len() && (#[trigger] listed@[i]).0 == k;
                    assert(keys[i] == k);
                }
            }
            lemma_slot_ordered(self.entries().dom(), keys);
            assert(requests@ =~= self@);
        }
        requests
    }
}

impl Default for NodeResponses {
    /// No requests.
    fn default() -> (responses: NodeResponses)
        ensures
            responses.wf(),
            responses.entries() == (Map::<NodeId, NodeResponse>::empty()),
            responses@ == Seq::<NodeResponse>::empty(),
    {
        NodeResponses::new()
    }
}

/// The requests that the fold buttons made during a frame, in a slot map of their
/// own. They are read in the order of the slots.
pub struct ButtonResponses {
    slots: ButtonResponseSlots,
}

impl View for ButtonResponses {
    type V = Seq<ButtonResponse>;

    /// The requests in the order in which they are read.
    open spec fn view(&self) -> Seq<ButtonResponse> {
        values_in_slot_order(self.entries())
    }
}

impl ButtonResponses {
    /// The requests, by the keys under which the map holds them.
    pub closed spec fn entries(&self) -> Map<NodeId, ButtonResponse> {
        button_response_entries(self.slots)
    }

    /// The map holds finitely many requests, each in a slot of its own.
    pub open spec fn wf(&self) -> bool {
        &&& self.entries().dom().finite()
        &&& distinct_slots(self.entries().dom())
    }

    /// No requests.
    pub fn new() -> (responses: ButtonResponses)
        ensures
            responses.wf(),
            responses.entries() == (Map::<NodeId, ButtonResponse>::empty()),
            responses@ == Seq::<ButtonResponse>::empty(),
    {
        let responses = ButtonResponses { slots: button_response_slots_new() };
        proof {
            lemma_slot_ordered(responses.entries().dom(), Seq::<NodeId>::empty());
            assert(responses@ =~= Seq::<ButtonResponse>::empty());
        }
        responses
    }

    /// The number of requests.
    pub fn len(&self) -> (n: usize)
        requires
            self.wf(),
        ensures
            n == self.entries().dom().len(),
    {
        button_response_slots_len(&self.slots)
    }

    /// Tells whether the map can take one more request.
    pub fn has_room(&self) -> (b: bool)
        requires
            self.wf(),
        ensures
            b == (self.entries().dom().len() < capacity()),
    {
        button_response_slots_len(&self.slots) < 0xffff_fffe
    }

    /// Takes one more request and returns the key under which the map holds
    /// it. The map picks the slot, and with it the place of the request
    /// among the others, which stay in their order.
    pub fn insert(&mut self, response: ButtonResponse) -> (id: NodeId)
        requires
            old(self).wf(),
            old(self).entries().dom().len() < capacity(),
        ensures
            final(self).wf(),
            !old(self).entries().dom().contains(id),
            forall|k: NodeId| old(self).entries().dom().contains(k) ==> k.slot() != id.slot(),
            final(self).entries() == old(self).entries().insert(id, response),
            exists|at: int| 0 <= at <= old(self)@.len() && #[trigger] old(self)@.insert(at, response) == final(self)@,
    {
        let id = button_response_slots_insert(&mut self.slots, response);
        proof {
            lemma_value_takes_its_place(old(self).entries(), id, response);
            let at = place(slot_ordered(old(self).entries().dom()), id);
            assert(old(self)@.insert(at, response) == self@);
        }
        id
    }

    /// The requests in the order in which they are read.
    pub fn to_vec(&self) -> (requests: Vec<ButtonResponse>)
        ensures
            requests@ == self@,
    {
        let listed = button_response_slots_list(&self.slots);
        let mut requests: Vec<ButtonResponse> = Vec::new();
        let mut at: usize = 0;
        while at < listed.len()
            invariant
                at <= listed.len(),
                requests@.len() == at,
                forall|i: int| 0 <= i < at ==> requests@[i] == listed@[i].1,
            decreases listed.len() - at,
        {
            requests.push(listed[at].1);
            at += 1;
        }
        proof {
            let keys = Seq::new(listed@.len(), |i: int| listed@[i].0);
            assert forall|k: NodeId| keys.contains(k) <==> self.entries().dom().contains(k) by {
                if keys.contains(k) {
                    let i = choose|i: int| 0 <= i < keys.len() && keys[i] == k;
                    assert(self.entries().dom().contains(listed@[i].0));
                }
                if self.entries().dom().contains(k) {
                    let i = choose|i: int| 0 <= i < listed@.len() && (#[trigger] listed@[i]).0 == k;
                    assert(keys[i] == k);
                }
            }
            lemma_slot_ordered(self.entries().dom(), keys);
            assert(requests@ =~= self@);
        }
        requests
    }
}

impl Default for ButtonResponses {
    /// No requests.
    fn default() -> (responses: ButtonResponses)
        ensures
            responses.wf(),
            responses.entries() == (Map::<NodeId, ButtonResponse>::empty()),
            responses@ == Seq::<ButtonResponse>::empty(),
    {
        ButtonResponses::new()
    }
}

} // verus!
