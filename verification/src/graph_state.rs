//! The visual state of every node and the state of every fold button, each
//! kept under the handle of its node.

use vstd::prelude::*;
use crate::keys::{one_handle_per_slot, NodeId};
use crate::node::{ButtonState, NodeState};
use crate::node_graph::NodeGraph;
use crate::store::{
    button_entries, button_slots_get, button_slots_insert, button_slots_new, button_slots_remove,
    state_entries, state_slots_get, state_slots_insert, state_slots_len, state_slots_new,
    state_slots_remove, ButtonSlots, StateSlots,
};

verus! {

/// The states that go with a graph: one node state and one button state for
/// every node.
pub struct GraphState {
    node_state: StateSlots,
    graph_button_state: ButtonSlots,
}

impl GraphState {
    /// The state of every node.
    pub closed spec fn node_states(&self) -> Map<NodeId, NodeState> {
        state_entries(self.node_state)
    }

    /// The state of every fold button.
    pub closed spec fn button_states(&self) -> Map<NodeId, ButtonState> {
        button_entries(self.graph_button_state)
    }

    /// The two maps describe the same finite set of nodes.
    pub open spec fn wf(&self) -> bool {
        &&& self.node_states().dom().finite()
        &&& self.button_states().dom() == self.node_states().dom()
        &&& one_handle_per_slot(self.node_states().dom())
    }

    /// The states are those of the nodes of `graph`, and of no others.
    pub open spec fn tracks(&self, graph: &NodeGraph) -> bool {
        &&& self.wf()
        &&& self.node_states().dom() == graph@.dom()
    }

    /// States for a graph without nodes.
    pub fn new() -> (states: GraphState)
        ensures
            states.wf(),
            states.node_states() == (Map::<NodeId, NodeState>::empty()),
            states.button_states() == (Map::<NodeId, ButtonState>::empty()),
    {
        let states = GraphState { node_state: state_slots_new(), graph_button_state: button_slots_new() };
        assert(states.button_states().dom() =~= states.node_states().dom());
        states
    }

    /// The number of nodes whose states are kept.
    pub fn len(&self) -> (n: usize)
        requires
            self.wf(),
        ensures
            n == self.node_states().dom().len(),
    {
        state_slots_len(&self.node_state)
    }

    /// The state of node `id`, if its state is kept.
    pub fn node_state(&self, id: NodeId) -> (state: Option<NodeState>)
        ensures
            state == (if self.node_states().dom().contains(id) {
                Some(self.node_states()[id])
            } else {
                None
            }),
    {
        state_slots_get(&self.node_state, id)
    }

    /// The state of the fold button of node `id`, if its state is kept.
    pub fn button_state(&self, id: NodeId) -> (state: Option<ButtonState>)
        ensures
            state == (if self.button_states().dom().contains(id) {
                Some(self.button_states()[id])
            } else {
                None
            }),
    {
        button_slots_get(&self.graph_button_state, id)
    }

    /// Puts node `id`, whose state is kept, into `state`.
    pub fn set_node_state(&mut self, id: NodeId, state: NodeState)
        requires
            old(self).wf(),
            old(self).node_states().dom().contains(id),
        ensures
            final(self).wf(),
            final(self).node_states() == old(self).node_states().insert(id, state),
            final(self).button_states() == old(self).button_states(),
    {
        state_slots_insert(&mut self.node_state, id, state);
        assert(self.node_states().dom() =~= old(self).node_states().dom());
    }

    /// Puts the fold button of node `id`, whose state is kept, into `state`.
    pub fn set_button_state(&mut self, id: NodeId, state: ButtonState)
        requires
            old(self).wf(),
            old(self).button_states().dom().contains(id),
        ensures
            final(self).wf(),
            final(self).node_states() == old(self).node_states(),
            final(self).button_states() == old(self).button_states().insert(id, state),
    {
        button_slots_insert(&mut self.graph_button_state, id, state);
        assert(self.button_states().dom() =~= old(self).button_states().dom());
    }

    /// Starts to keep the states of a node that was just added under the
    /// handle `id`: the node is unselected and its button unfolded.
    pub fn insert(&mut self, id: NodeId)
        requires
            old(self).wf(),
            !id.null(),
            forall|k: NodeId| old(self).node_states().dom().contains(k) ==> k.slot() != id.slot(),
        ensures
            final(self).wf(),
            final(self).node_states() == old(self).node_states().insert(id, NodeState::UnSelected),
            final(self).button_states() == old(self).button_states().insert(id, ButtonState::UnFold),
    {
        state_slots_insert(&mut self.node_state, id, NodeState::UnSelected);
        button_slots_insert(&mut self.graph_button_state, id, ButtonState::UnFold);
        assert(self.button_states().dom() =~= self.node_states().dom());
    }

    /// Drops the states of node `id`, if they are kept.
    pub fn remove(&mut self, id: NodeId)
        requires
            old(self).wf(),
        ensures
            final(self).wf(),
            final(self).node_states() == old(self).node_states().remove(id),
            final(self).button_states() == old(self).button_states().remove(id),
    {
        state_slots_remove(&mut self.node_state, id);
        button_slots_remove(&mut self.graph_button_state, id);
        assert(self.button_states().dom() =~= self.node_states().dom());
    }

    /// Tells whether the states are those of the nodes of `graph`.
    pub fn tracks_graph(&self, graph: &NodeGraph) -> (b: bool)
        requires
            self.wf(),
            graph.wf(),
        ensures
            b == self.tracks(graph),
    {
        if self.len() != graph.len() {
            return false;
        }
        let ids = graph.node_ids();
        let mut at: usize = 0;
        while at < ids.len()
            invariant
                at <= ids.len(),
                forall|k: NodeId| ids@.contains(k) <==> graph@.dom().contains(k),
                forall|i: int| 0 <= i < at ==> self.node_states().dom().contains(#[trigger] ids@[i]),
            decreases ids.len() - at,
        {
            if self.node_state(ids[at]).is_none() {
                assert(graph@.dom().contains(ids@[at as int])) by {
                    assert(ids@.contains(ids@[at as int]));
                }
                return false;
            }
            at += 1;
        }
        proof {
            assert(graph@.dom().subset_of(self.node_states().dom())) by {
                assert forall|k: NodeId| graph@.dom().contains(k) implies self.node_states().dom().contains(k) by {
                    assert(ids@.contains(k));
                    let i = choose|i: int| 0 <= i < ids@.len() && ids@[i] == k;
                    assert(self.node_states().dom().contains(ids@[i]));
                }
            }
            vstd::set_lib::lemma_subset_equality(graph@.dom(), self.node_states().dom());
        }
        true
    }
}

impl Default for GraphState {
    /// States for a graph without nodes.
    fn default() -> (states: GraphState)
        ensures
            states.wf(),
            states.node_states() == (Map::<NodeId, NodeState>::empty()),
            states.button_states() == (Map::<NodeId, ButtonState>::empty()),
    {
        GraphState::new()
    }
}

} // verus!
