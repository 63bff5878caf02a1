//! The graph of nodes, the states that go with it, and the questions that a
//! frame asks of both.

use vstd::prelude::*;
use crate::forest::{
    acyclic, ancestor, children_in_order, descendants_in_order, father_of, fathers_present, is_child,
    is_descendant, lemma_child_is_descendant, lemma_child_of_descendant, lemma_children_in_order,
    lemma_ancestor_of_ancestor, lemma_closed_set_holds_descendants, lemma_descendant_is_present,
    lemma_distinct_members_are_few, lemma_leaf_keeps_forest, lemma_walk_up_is_short,
    lemma_same_fathers_same_shape, lemma_unseen_are_members, lemma_without_keeps_forest, unseen,
    walk, without,
};
use crate::keys::{in_slot_order, one_handle_per_slot, NodeId};
use crate::graph_state::GraphState;
use crate::node::{
    button_after, button_reaction, color_after, reaction, state_after, ButtonResponse, ButtonState,
    Color, Node, NodeInput, NodeResponse, NodeState,
};
use crate::responses::{ButtonResponses, NodeResponses};
use crate::store::{
    capacity, node_entries, node_slots_get, node_slots_get_mut, node_slots_insert, node_slots_keys,
    node_slots_len, node_slots_new, node_slots_remove, NodeSlots,
};

verus! {

/// A forest of nodes, each stored under its own handle.
pub struct NodeGraph {
    nodes: NodeSlots,
}

impl View for NodeGraph {
    type V = Map<NodeId, Node>;

    closed spec fn view(&self) -> Map<NodeId, Node> {
        node_entries(self.nodes)
    }
}

/// Tells whether `id` occurs in `ids`.
pub fn contains_id(ids: &Vec<NodeId>, id: NodeId) -> (b: bool)
    ensures
        b == ids@.contains(id),
{
    let mut at: usize = 0;
    while at < ids.len()
        invariant
            at <= ids.len(),
            forall|i: int| 0 <= i < at ==> ids@[i] != id,
        decreases ids.len() - at,
    {
        if ids[at] == id {
            return true;
        }
        at += 1;
    }
    false
}

/// The members of a sequence with one more item at its end are the item and
/// the members of the sequence.
pub proof fn lemma_members_after_push<T>(items: Seq<T>, last: T)
    ensures
        forall|x: T| #[trigger] items.push(last).contains(x) <==> items.contains(x) || x == last,
{
    assert forall|x: T| #[trigger] items.push(last).contains(x) <==> items.contains(x) || x == last by {
        if items.contains(x) {
            let i = choose|i: int| 0 <= i < items.len() && items[i] == x;
            assert(items.push(last)[i] == x);
        }
        if x == last {
            assert(items.push(last)[items.len() as int] == x);
        }
    }
}

/// Handles in the order of their slots are all different.
pub proof fn lemma_slot_order_is_strict(ids: Seq<NodeId>)
    requires
        in_slot_order(ids),
    ensures
        ids.no_duplicates(),
{
}

/// Node `k` is drawn: it is a node, and the button of every node that it
/// hangs below is unfolded.
pub open spec fn shown(nodes: Map<NodeId, Node>, buttons: Map<NodeId, ButtonState>, k: NodeId) -> bool {
    &&& nodes.dom().contains(k)
    &&& forall|n: nat|
        n >= 1 ==> match #[trigger] ancestor(nodes, k, n) {
            Some(f) => buttons.dom().contains(f) && buttons[f] == ButtonState::UnFold,
            None => true,
        }
}

/// Some node hangs directly below `f`.
pub open spec fn has_children(nodes: Map<NodeId, Node>, f: NodeId) -> bool {
    exists|k: NodeId| is_child(nodes, f, k)
}

/// A curve leads from node `k` to its father: the node has one and is not
/// invisible.
pub open spec fn linked(nodes: Map<NodeId, Node>, states: Map<NodeId, NodeState>, k: NodeId) -> bool {
    &&& nodes.dom().contains(k)
    &&& states.dom().contains(k)
    &&& states[k] != NodeState::Invisible
    &&& nodes[k].father_id is Some
}

/// What the nodes and the fold buttons ask of the graph after a frame.
pub struct GraphResponse {
    pub nodes_response: NodeResponses,
    pub buttons_response: ButtonResponses,
}

impl GraphResponse {
    /// Both maps of requests hold finitely many.
    pub open spec fn wf(&self) -> bool {
        &&& self.nodes_response.wf()
        &&& self.buttons_response.wf()
    }
}

impl Default for GraphResponse {
    /// No requests.
    fn default() -> (response: GraphResponse)
        ensures
            response.wf(),
            response.nodes_response@ == Seq::<NodeResponse>::empty(),
            response.buttons_response@ == Seq::<ButtonResponse>::empty(),
    {
        GraphResponse { nodes_response: NodeResponses::new(), buttons_response: ButtonResponses::new() }
    }
}

impl NodeGraph {
    /// The graph is a finite forest in which every node knows its own handle.
    pub open spec fn wf(&self) -> bool {
        &&& self@.dom().finite()
        &&& one_handle_per_slot(self@.dom())
        &&& forall|k: NodeId| #[trigger] self@.dom().contains(k) ==> self@[k].node_id == k
        &&& fathers_present(self@)
        &&& acyclic(self@)
    }

    /// The graph without nodes.
    pub fn new() -> (graph: NodeGraph)
        ensures
            graph.wf(),
            graph@ == (Map::<NodeId, Node>::empty()),
    {
        NodeGraph { nodes: node_slots_new() }
    }

    /// The number of nodes.
    pub fn len(&self) -> (n: usize)
        requires
            self.wf(),
        ensures
            n == self@.dom().len(),
    {
        node_slots_len(&self.nodes)
    }

    /// Tells whether the graph can take `more` nodes.
    pub fn has_room(&self, more: usize) -> (b: bool)
        requires
            self.wf(),
        ensures
            b == (self@.dom().len() + more <= capacity()),
    {
        let len = node_slots_len(&self.nodes);
        more <= 0xffff_fffe && len <= 0xffff_fffe - more
    }

    /// Tells whether `id` names a node of the graph.
    pub fn contains(&self, id: NodeId) -> (b: bool)
        ensures
            b == self@.dom().contains(id),
    {
        node_slots_get(&self.nodes, id).is_some()
    }

    /// The node that `id` names, if it names one.
    pub fn node(&self, id: NodeId) -> (node: Option<&Node>)
        ensures
            node == (if self@.dom().contains(id) {
                Some(&self@[id])
            } else {
                None
            }),
    {
        node_slots_get(&self.nodes, id)
    }

    /// The handles of all nodes, in the order of their slots.
    pub fn node_ids(&self) -> (ids: Vec<NodeId>)
        ensures
            in_slot_order(ids@),
            forall|k: NodeId| ids@.contains(k) <==> self@.dom().contains(k),
    {
        node_slots_keys(&self.nodes)
    }

    /// What `insert` leaves of the graph `before`: the node `id` is new, its
    /// slot was free, and every other node is as it was.
    pub open spec fn grown_from(&self, before: &NodeGraph, id: NodeId, father: Option<NodeId>) -> bool {
        &&& !before@.dom().contains(id)
        &&& !id.null()
        &&& forall|k: NodeId| before@.dom().contains(k) ==> k.slot() != id.slot()
        &&& self@.dom().contains(id)
        &&& self@[id].fresh(id, father)
        &&& self@.remove(id) == before@
    }

    fn insert(&mut self, father: Option<NodeId>) -> (id: NodeId)
        requires
            old(self).wf(),
            old(self)@.dom().len() < capacity(),
            father matches Some(f) ==> old(self)@.dom().contains(f),
        ensures
            final(self).wf(),
            final(self).grown_from(old(self), id, father),
    {
        let id = node_slots_insert(&mut self.nodes, father, Color { r: 150, g: 150, b: 250 }, "text".to_owned());
        proof {
            lemma_leaf_keeps_forest(old(self)@, id, self@[id]);
            assert(self@.remove(id) == old(self)@);
        }
        id
    }

    /// Adds a root: a fresh node that hangs below no other. The caller places it.
    pub fn add_node_with_position(&mut self) -> (id: NodeId)
        requires
            old(self).wf(),
            old(self)@.dom().len() < capacity(),
        ensures
            final(self).wf(),
            final(self).grown_from(old(self), id, None),
    {
        self.insert(None)
    }

    /// Adds a fresh node below the node `father_node_id`.
    pub fn add_node_with_father_node(&mut self, father_node_id: NodeId) -> (id: NodeId)
        requires
            old(self).wf(),
            old(self)@.dom().len() < capacity(),
            old(self)@.dom().contains(father_node_id),
        ensures
            final(self).wf(),
            final(self).grown_from(old(self), id, Some(father_node_id)),
    {
        self.insert(Some(father_node_id))
    }

    /// The children of `father_node_id`, in the order of their slots.
    pub fn query_next_children_nodes(&self, father_node_id: NodeId) -> (children: Vec<NodeId>)
        ensures
            children@ == children_in_order(self@, father_node_id),
            in_slot_order(children@),
            forall|k: NodeId| children@.contains(k) <==> is_child(self@, father_node_id, k),
    {
        let keys = node_slots_keys(&self.nodes);
        let mut nodes_children: Vec<NodeId> = Vec::new();
        let mut at: usize = 0;
        while at < keys.len()
            invariant
                at <= keys.len(),
                in_slot_order(keys@),
                forall|i: int| 0 <= i < keys@.len() ==> self@.dom().contains(#[trigger] keys@[i]),
                in_slot_order(nodes_children@),
                forall|i: int|
                    0 <= i < nodes_children@.len() ==> exists|p: int|
                        0 <= p < at && keys@[p] == #[trigger] nodes_children@[i],
                forall|i: int|
                    0 <= i < nodes_children@.len() ==> is_child(self@, father_node_id, #[trigger] nodes_children@[i]),
                forall|p: int|
                    0 <= p < at && is_child(self@, father_node_id, #[trigger] keys@[p])
                        ==> nodes_children@.contains(keys@[p]),
            decreases keys.len() - at,
        {
            let key = keys[at];
            let is_child_of_father = match node_slots_get(&self.nodes, key).unwrap().father_id {
                Some(node_father) => node_father == father_node_id,
                None => false,
            };
            if is_child_of_father {
                let ghost before = nodes_children@;
                nodes_children.push(key);
                assert forall|p: int|
                    0 <= p < at + 1 && is_child(self@, father_node_id, #[trigger] keys@[p])
                    implies nodes_children@.contains(keys@[p]) by {
                    if p < at {
                        let i = choose|i: int| 0 <= i < before.len() && before[i] == keys@[p];
                        assert(nodes_children@[i] == keys@[p]);
                    } else {
                        assert(nodes_children@[before.len() as int] == keys@[p]);
                    }
                }
            }
            at += 1;
        }
        proof {
            assert forall|k: NodeId| is_child(self@, father_node_id, k) implies nodes_children@.contains(k) by {
                assert(keys@.contains(k));
                let p = choose|p: int| 0 <= p < keys@.len() && keys@[p] == k;
                assert(is_child(self@, father_node_id, keys@[p]));
            }
            lemma_children_in_order(self@, father_node_id, nodes_children@);
        }
        nodes_children
    }

    /// All nodes that hang below `father_node_id`, each once, in the order
    /// in which the walk finds them: first the children of the node, then,
    /// for the node found last whose children were not looked at yet, those
    /// of its children that were not found before, and so on. No node is
    /// looked at twice, so the walk ends whether or not the graph is a forest.
    pub fn query_all_children_nodes(&self, father_node_id: NodeId) -> (all: Vec<NodeId>)
        requires
            self@.dom().finite(),
        ensures
            all@ == descendants_in_order(self@, father_node_id),
            all@.no_duplicates(),
            all@.len() <= self@.dom().len(),
            forall|k: NodeId| all@.contains(k) <==> is_descendant(self@, father_node_id, k),
    {
        let mut nodes_all_children = self.query_next_children_nodes(father_node_id);
        let mut stack = nodes_all_children.clone();
        let ghost first = nodes_all_children@;
        let ghost mut steps: nat = 0;
        proof {
            lemma_slot_order_is_strict(first);
            assert(stack@ =~= first);
            assert forall|i: int| 0 <= i < first.len() implies is_descendant(
                self@,
                father_node_id,
                #[trigger] first[i],
            ) by {
                assert(first.contains(first[i]));
                lemma_child_is_descendant(self@, father_node_id, first[i]);
            }
            self.lemma_descendants_are_few(father_node_id, first);
        }
        while stack.len() > 0
            invariant
                self@.dom().finite(),
                nodes_all_children@.no_duplicates(),
                nodes_all_children@.len() <= self@.dom().len(),
                nodes_all_children@.len() == stack@.len() + steps,
                walk(self@, nodes_all_children@, stack@, (self@.dom().len() - steps) as nat) == descendants_in_order(
                    self@,
                    father_node_id,
                ),
                forall|i: int|
                    0 <= i < nodes_all_children@.len() ==> is_descendant(
                        self@,
                        father_node_id,
                        #[trigger] nodes_all_children@[i],
                    ),
                forall|i: int| 0 <= i < stack@.len() ==> nodes_all_children@.contains(#[trigger] stack@[i]),
                forall|c: NodeId| is_child(self@, father_node_id, c) ==> nodes_all_children@.contains(c),
                forall|d: NodeId, c: NodeId|
                    nodes_all_children@.contains(d) && !stack@.contains(d) && #[trigger] is_child(self@, d, c)
                        ==> nodes_all_children@.contains(c),
            decreases 2 * (self@.dom().len() - nodes_all_children@.len()) + stack@.len(),
        {
            let ghost stack_before = stack@;
            let ghost found_before = nodes_all_children@;
            let child_node_id = stack.pop().unwrap();
            proof {
                assert(found_before.contains(stack_before[stack_before.len() - 1]));
                assert forall|i: int| 0 <= i < stack_before.len() - 1 implies stack@.contains(
                    #[trigger] stack_before[i],
                ) by {
                    assert(stack@[i] == stack_before[i]);
                }
                assert(stack@ =~= stack_before.drop_last());
            }
            let child_descendants = self.query_next_children_nodes(child_node_id);
            let mut at: usize = 0;
            while at < child_descendants.len()
                invariant
                    self@.dom().finite(),
                    at <= child_descendants.len(),
                    stack_before.len() > 0,
                    child_node_id == stack_before[stack_before.len() - 1],
                    is_descendant(self@, father_node_id, child_node_id),
                    forall|k: NodeId| child_descendants@.contains(k) <==> is_child(self@, child_node_id, k),
                    nodes_all_children@.no_duplicates(),
                    nodes_all_children@ == found_before + unseen(
                        child_descendants@.take(at as int),
                        found_before,
                    ),
                    stack@ == stack_before.drop_last() + unseen(child_descendants@.take(at as int), found_before),
                    in_slot_order(child_descendants@),
                    forall|i: int|
                        0 <= i < nodes_all_children@.len() ==> is_descendant(
                            self@,
                            father_node_id,
                            #[trigger] nodes_all_children@[i],
                        ),
                    forall|i: int| 0 <= i < stack@.len() ==> nodes_all_children@.contains(#[trigger] stack@[i]),
                    forall|i: int| 0 <= i < stack_before.len() - 1 ==> stack@.contains(#[trigger] stack_before[i]),
                    found_before.len() <= nodes_all_children@.len(),
                    forall|i: int|
                        found_before.len() <= i < nodes_all_children@.len() ==> stack@.contains(
                            #[trigger] nodes_all_children@[i],
                        ),
                    forall|c: NodeId| is_child(self@, father_node_id, c) ==> nodes_all_children@.contains(c),
                    forall|d: NodeId, c: NodeId|
                        found_before.contains(d) && !stack_before.contains(d) && #[trigger] is_child(self@, d, c)
                            ==> nodes_all_children@.contains(c),
                    forall|p: int| 0 <= p < at ==> nodes_all_children@.contains(#[trigger] child_descendants@[p]),
                decreases child_descendants.len() - at,
            {
                let id = child_descendants[at];
                if !contains_id(&nodes_all_children, id) {
                    let ghost found = nodes_all_children@;
                    let ghost pending = stack@;
                    nodes_all_children.push(id);
                    stack.push(id);
                    proof {
                        assert(child_descendants@.contains(id));
                        lemma_child_of_descendant(self@, father_node_id, child_node_id, id);
                        lemma_members_after_push(found, id);
                        lemma_members_after_push(pending, id);
                        assert forall|i: int| found_before.len() <= i < nodes_all_children@.len() implies stack@.contains(
                            #[trigger] nodes_all_children@[i],
                        ) by {
                            if i < found.len() {
                                assert(pending.contains(found[i]));
                            }
                        }
                    }
                }
                proof {
                    let seen = child_descendants@.take(at as int);
                    assert(child_descendants@.take(at + 1).drop_last() =~= seen);
                    if found_before.contains(id) {
                        let i = choose|i: int| 0 <= i < found_before.len() && found_before[i] == id;
                        assert(nodes_all_children@[i] == id);
                    } else {
                        lemma_unseen_are_members(seen, found_before);
                        assert(!seen.contains(id)) by {
                            if seen.contains(id) {
                                let p = choose|p: int| 0 <= p < seen.len() && seen[p] == id;
                                assert(child_descendants@[p].slot() < child_descendants@[at as int].slot());
                            }
                        }
                        assert(!(found_before + unseen(seen, found_before)).contains(id)) by {
                            if (found_before + unseen(seen, found_before)).contains(id) {
                                let i = choose|i: int|
                                    0 <= i < (found_before + unseen(seen, found_before)).len() && (found_before
                                        + unseen(seen, found_before))[i] == id;
                                if i < found_before.len() {
                                    assert(found_before[i] == id);
                                } else {
                                    assert(unseen(seen, found_before)[i - found_before.len()] == id);
                                    assert(unseen(seen, found_before).contains(id));
                                }
                            }
                        }
                        assert(nodes_all_children@ =~= found_before + unseen(
                            child_descendants@.take(at + 1),
                            found_before,
                        ));
                        assert(stack@ =~= stack_before.drop_last() + unseen(
                            child_descendants@.take(at + 1),
                            found_before,
                        ));
                    }
                }
                at += 1;
            }
            proof {
                self.lemma_descendants_are_few(father_node_id, nodes_all_children@);
                assert(child_descendants@.take(child_descendants@.len() as int) =~= child_descendants@);
                steps = steps + 1;
                assert forall|d: NodeId, c: NodeId|
                    nodes_all_children@.contains(d) && !stack@.contains(d) && #[trigger] is_child(
                        self@,
                        d,
                        c,
                    ) implies nodes_all_children@.contains(c) by {
                    if d == child_node_id {
                        assert(child_descendants@.contains(c));
                        let p = choose|p: int| 0 <= p < child_descendants@.len() && child_descendants@[p] == c;
                        assert(nodes_all_children@.contains(child_descendants@[p]));
                    } else if found_before.contains(d) {
                        if stack_before.contains(d) {
                            let i = choose|i: int| 0 <= i < stack_before.len() && stack_before[i] == d;
                            assert(stack@.contains(stack_before[i]));
                        }
                        assert(found_before.contains(c) ==> nodes_all_children@.contains(c)) by {
                            if found_before.contains(c) {
                                let j = choose|j: int| 0 <= j < found_before.len() && found_before[j] == c;
                                assert(nodes_all_children@[j] == c);
                            }
                        }
                    } else {
                        let i = choose|i: int| 0 <= i < nodes_all_children@.len() && nodes_all_children@[i] == d;
                        if i < found_before.len() {
                            assert(found_before[i] == d);
                        }
                    }
                }
            }
        }
        proof {
            assert forall|k: NodeId| is_descendant(self@, father_node_id, k) implies nodes_all_children@.contains(
                k,
            ) by {
                assert(forall|d: NodeId| !stack@.contains(d));
                lemma_closed_set_holds_descendants(self@, father_node_id, nodes_all_children@.to_set(), k);
            }
        }
        nodes_all_children
    }

    /// Gives node `id` the caption `text`, if `id` names a node.
    pub fn set_text(&mut self, id: NodeId, text: String)
        requires
            old(self).wf(),
        ensures
            final(self).wf(),
            final(self)@ == (if old(self)@.dom().contains(id) {
                old(self)@.insert(id, Node { node_text: text, ..old(self)@[id] })
            } else {
                old(self)@
            }),
    {
        match node_slots_get_mut(&mut self.nodes, id) {
            Some(node) => {
                node.node_text = text;
            },
            None => {},
        }
        proof {
            assert(self@.dom() =~= old(self)@.dom());
            self.lemma_repainted_is_forest(old(self));
        }
    }

    /// Takes node `id` out of the graph, if it names a node. The children of
    /// the node become roots.
    pub fn delete_node(&mut self, node_id: NodeId)
        requires
            old(self).wf(),
        ensures
            final(self).wf(),
            final(self)@ == without(old(self)@, set![node_id]),
    {
        let children = self.query_next_children_nodes(node_id);
        let mut at: usize = 0;
        while at < children.len()
            invariant
                at <= children.len(),
                forall|k: NodeId| children@.contains(k) <==> is_child(old(self)@, node_id, k),
                self@.dom() == old(self)@.dom(),
                forall|k: NodeId|
                    #[trigger] self@.dom().contains(k) ==> self@[k] == (if children@.take(at as int).contains(k) {
                        Node { father_id: None, ..old(self)@[k] }
                    } else {
                        old(self)@[k]
                    }),
            decreases children.len() - at,
        {
            let child = children[at];
            let ghost before = self@;
            assert(children@.contains(child));
            let node = node_slots_get_mut(&mut self.nodes, child).unwrap();
            node.father_id = None;
            proof {
                assert(children@.take(at + 1) =~= children@.take(at as int).push(child));
                lemma_members_after_push(children@.take(at as int), child);
                assert(self@.dom() =~= before.dom());
            }
            at += 1;
        }
        node_slots_remove(&mut self.nodes, node_id);
        proof {
            assert(children@.take(children@.len() as int) =~= children@);
            assert(self@ =~= without(old(self)@, set![node_id]));
            lemma_without_keeps_forest(old(self)@, set![node_id]);
        }
    }

    /// Tells whether node `id` is drawn: a root always is, another node when
    /// no node that it hangs below is folded.
    pub fn should_draw(&self, graph_state: &GraphState, id: NodeId) -> (b: bool)
        requires
            self.wf(),
        ensures
            b == shown(self@, graph_state.button_states(), id),
    {
        if node_slots_get(&self.nodes, id).is_none() {
            return false;
        }
        let mut current = id;
        let ghost mut steps: nat = 0;
        loop
            invariant
                self.wf(),
                self@.dom().contains(id),
                self@.dom().contains(current),
                ancestor(self@, id, steps) == Some(current),
                forall|n: nat|
                    1 <= n <= steps ==> match #[trigger] ancestor(self@, id, n) {
                        Some(f) => graph_state.button_states().dom().contains(f) && graph_state.button_states()[f]
                            == ButtonState::UnFold,
                        None => true,
                    },
            decreases self@.dom().len() - steps,
        {
            match node_slots_get(&self.nodes, current).unwrap().father_id {
                None => {
                    proof {
                        assert forall|n: nat| n > steps implies ancestor(self@, id, n) is None by {
                            lemma_ancestor_of_ancestor(self@, id, steps, (n - steps) as nat);
                        }
                    }
                    return true;
                },
                Some(father_id) => {
                    proof {
                        lemma_ancestor_of_ancestor(self@, id, steps, 1);
                        assert(ancestor(self@, father_id, 0) == Some(father_id));
                        assert(ancestor(self@, id, steps + 1) == Some(father_id));
                        lemma_walk_up_is_short(self@, id, steps + 1);
                    }
                    match graph_state.button_state(father_id) {
                        Some(ButtonState::UnFold) => {},
                        _ => {
                            return false;
                        },
                    }
                    current = father_id;
                    proof {
                        steps = steps + 1;
                    }
                },
            }
        }
    }

    /// One frame of node `id`: recolours the node for the state it is in,
    /// moves its state on and returns what the node asks for.
    pub fn draw_node(&mut self, graph_state: &mut GraphState, id: NodeId, input: NodeInput) -> (response:
        NodeResponse)
        requires
            old(self).wf(),
            old(graph_state).tracks(old(self)),
            old(self)@.dom().contains(id),
        ensures
            final(self).wf(),
            final(graph_state).tracks(final(self)),
            response == reaction(id, old(graph_state).node_states()[id], input),
            final(self)@ == old(self)@.insert(
                id,
                Node {
                    node_color: color_after(old(graph_state).node_states()[id], old(self)@[id].node_color),
                    ..old(self)@[id]
                },
            ),
            final(graph_state).node_states() == old(graph_state).node_states().insert(
                id,
                state_after(old(graph_state).node_states()[id], input),
            ),
            final(graph_state).button_states() == old(graph_state).button_states(),
    {
        let mut node_state = graph_state.node_state(id).unwrap();
        let node = node_slots_get_mut(&mut self.nodes, id).unwrap();
        let response = node.draw(&mut node_state, input);
        graph_state.set_node_state(id, node_state);
        proof {
            assert(self@.dom() =~= old(self)@.dom());
            self.lemma_repainted_is_forest(old(self));
            assert(graph_state.node_states().dom() =~= old(graph_state).node_states().dom());
        }
        response
    }

    /// One frame of the fold button of node `id`: a click toggles the button
    /// and is reported.
    pub fn draw_button(&mut self, graph_state: &mut GraphState, id: NodeId, clicked: bool) -> (response:
        ButtonResponse)
        requires
            old(self).wf(),
            old(graph_state).tracks(old(self)),
            old(self)@.dom().contains(id),
        ensures
            final(self).wf(),
            final(graph_state).tracks(final(self)),
            response == button_reaction(id, old(graph_state).button_states()[id], clicked),
            final(self)@ == old(self)@,
            final(graph_state).node_states() == old(graph_state).node_states(),
            final(graph_state).button_states() == old(graph_state).button_states().insert(
                id,
                button_after(old(graph_state).button_states()[id], clicked),
            ),
    {
        let mut button_state = graph_state.button_state(id).unwrap();
        let node = node_slots_get_mut(&mut self.nodes, id).unwrap();
        let response = node.draw_button(&mut button_state, clicked);
        graph_state.set_button_state(id, button_state);
        proof {
            assert(self@ =~= old(self)@);
            assert(graph_state.button_states().dom() =~= old(graph_state).button_states().dom());
        }
        response
    }

    /// The nodes that have children, each once: the nodes that carry a fold
    /// button.
    pub fn nodes_have_children(&self) -> (fathers: Vec<NodeId>)
        ensures
            fathers@.no_duplicates(),
            forall|f: NodeId| fathers@.contains(f) <==> has_children(self@, f),
    {
        let keys = node_slots_keys(&self.nodes);
        let mut fathers: Vec<NodeId> = Vec::new();
        let mut at: usize = 0;
        while at < keys.len()
            invariant
                at <= keys.len(),
                forall|i: int| 0 <= i < keys@.len() ==> self@.dom().contains(#[trigger] keys@[i]),
                fathers@.no_duplicates(),
                forall|f: NodeId| #[trigger] fathers@.contains(f) ==> has_children(self@, f),
                forall|p: int|
                    0 <= p < at ==> match father_of(self@, #[trigger] keys@[p]) {
                        Some(f) => fathers@.contains(f),
                        None => true,
                    },
            decreases keys.len() - at,
        {
            let key = keys[at];
            match node_slots_get(&self.nodes, key).unwrap().father_id {
                Some(f) => {
                    if !contains_id(&fathers, f) {
                        proof {
                            lemma_members_after_push(fathers@, f);
                            assert(is_child(self@, f, key));
                        }
                        fathers.push(f);
                    }
                },
                None => {},
            }
            at += 1;
        }
        proof {
            assert forall|f: NodeId| has_children(self@, f) implies fathers@.contains(f) by {
                let k = choose|k: NodeId| is_child(self@, f, k);
                assert(keys@.contains(k));
                let p = choose|p: int| 0 <= p < keys@.len() && keys@[p] == k;
                assert(father_of(self@, keys@[p]) == Some(f));
            }
        }
        fathers
    }

    /// The curves of a frame: for every node that is not invisible and hangs
    /// below a father, the node and its father, in the order of the nodes'
    /// slots.
    pub fn draw_curve_line(&self, graph_state: &GraphState) -> (curves: Vec<(NodeId, NodeId)>)
        requires
            self.wf(),
            graph_state.tracks(self),
        ensures
            forall|i: int|
                0 <= i < curves@.len() ==> linked(self@, graph_state.node_states(), (#[trigger] curves@[i]).0)
                    && self@[curves@[i].0].father_id == Some(curves@[i].1),
            forall|i: int, j: int| 0 <= i < j < curves@.len() ==> curves@[i].0.slot() < curves@[j].0.slot(),
            forall|k: NodeId|
                linked(self@, graph_state.node_states(), k) ==> exists|i: int|
                    0 <= i < curves@.len() && (#[trigger] curves@[i]).0 == k,
    {
        let keys = node_slots_keys(&self.nodes);
        let mut curves: Vec<(NodeId, NodeId)> = Vec::new();
        let mut at: usize = 0;
        while at < keys.len()
            invariant
                at <= keys.len(),
                self.wf(),
                graph_state.tracks(self),
                in_slot_order(keys@),
                forall|i: int| 0 <= i < keys@.len() ==> self@.dom().contains(#[trigger] keys@[i]),
                forall|i: int|
                    0 <= i < curves@.len() ==> linked(
                        self@,
                        graph_state.node_states(),
                        (#[trigger] curves@[i]).0,
                    ) && self@[curves@[i].0].father_id == Some(curves@[i].1),
                forall|i: int|
                    0 <= i < curves@.len() ==> exists|p: int| 0 <= p < at && keys@[p] == (#[trigger] curves@[i]).0,
                forall|i: int, j: int| 0 <= i < j < curves@.len() ==> curves@[i].0.slot() < curves@[j].0.slot(),
                forall|p: int|
                    0 <= p < at && linked(self@, graph_state.node_states(), #[trigger] keys@[p]) ==> exists|i: int|
                        0 <= i < curves@.len() && (#[trigger] curves@[i]).0 == keys@[p],
            decreases keys.len() - at,
        {
            let key = keys[at];
            if graph_state.node_state(key).unwrap() != NodeState::Invisible {
                match node_slots_get(&self.nodes, key).unwrap().father_id {
                    Some(f) => {
                        let ghost before = curves@;
                        curves.push((key, f));
                        proof {
                            assert forall|p: int|
                                0 <= p < at + 1 && linked(
                                    self@,
                                    graph_state.node_states(),
                                    #[trigger] keys@[p],
                                ) implies exists|i: int|
                                0 <= i < curves@.len() && (#[trigger] curves@[i]).0 == keys@[p] by {
                                if p < at {
                                    let i = choose|i: int| 0 <= i < before.len() && (#[trigger] before[i]).0 == keys@[p];
                                    assert(curves@[i].0 == keys@[p]);
                                } else {
                                    assert(curves@[before.len() as int].0 == keys@[p]);
                                }
                            }
                        }
                    },
                    None => {},
                }
            }
            at += 1;
        }
        proof {
            assert forall|k: NodeId| linked(self@, graph_state.node_states(), k) implies exists|i: int|
                0 <= i < curves@.len() && (#[trigger] curves@[i]).0 == k by {
                assert(keys@.contains(k));
                let p = choose|p: int| 0 <= p < keys@.len() && keys@[p] == k;
                assert(linked(self@, graph_state.node_states(), keys@[p]));
            }
        }
        curves
    }

    proof fn lemma_repainted_is_forest(&self, before: &NodeGraph)
        requires
            before.wf(),
            self@.dom() == before@.dom(),
            forall|k: NodeId|
                #[trigger] self@.dom().contains(k) ==> self@[k].node_id == before@[k].node_id && self@[k].father_id
                    == before@[k].father_id,
        ensures
            self.wf(),
            forall|root: NodeId, k: NodeId| is_descendant(self@, root, k) == is_descendant(before@, root, k),
    {
        assert forall|x: NodeId| father_of(self@, x) == father_of(before@, x) by {
            if self@.dom().contains(x) {
                assert(self@[x].father_id == before@[x].father_id);
            }
        }
        lemma_same_fathers_same_shape(self@, before@);
    }

    proof fn lemma_descendants_are_few(&self, root: NodeId, found: Seq<NodeId>)
        requires
            self@.dom().finite(),
            found.no_duplicates(),
            forall|i: int| 0 <= i < found.len() ==> is_descendant(self@, root, #[trigger] found[i]),
        ensures
            found.len() <= self@.dom().len(),
    {
        assert forall|i: int| 0 <= i < found.len() implies self@.dom().contains(#[trigger] found[i]) by {
            lemma_descendant_is_present(self@, root, found[i]);
        }
        lemma_distinct_members_are_few(found, self@.dom());
    }
}

impl Default for NodeGraph {
    /// The graph without nodes.
    fn default() -> (graph: NodeGraph)
        ensures
            graph.wf(),
            graph@ == (Map::<NodeId, Node>::empty()),
    {
        NodeGraph::new()
    }
}

} // verus!
