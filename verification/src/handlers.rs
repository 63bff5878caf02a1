//! What becomes of the graph and its states once the requests of a frame
//! are carried out.

use vstd::prelude::*;
use crate::forest::{is_descendant, lemma_descendant_is_present, lemma_without_twice, without};
use crate::graph_state::GraphState;
use crate::keys::NodeId;
use crate::node::{ButtonResponse, ButtonState, Node, NodeResponse, NodeState};
use crate::node_graph::{contains_id, lemma_members_after_push, GraphResponse, NodeGraph};
use crate::responses::{ButtonResponses, NodeResponses};
use crate::store::capacity;

verus! {

/// The node that a request is about and that has to be there for the request
/// to be carried out. A request to delete may name a node that is gone.
pub open spec fn subject(response: NodeResponse) -> Option<NodeId> {
    match response {
        NodeResponse::AddNode(id) => Some(id),
        NodeResponse::Selected(id) => Some(id),
        NodeResponse::UnSelected(id) => Some(id),
        NodeResponse::EditNode(id) => Some(id),
        NodeResponse::InvisibleNode(id) => Some(id),
        NodeResponse::VisibleNode(id) => Some(id),
        NodeResponse::DeleteNode(_) => None,
        NodeResponse::Nothing => None,
    }
}

/// The state that a request puts a node into, if it puts one into any.
pub open spec fn assigned(response: NodeResponse) -> Option<(NodeId, NodeState)> {
    match response {
        NodeResponse::EditNode(id) => Some((id, NodeState::Editing)),
        NodeResponse::Selected(id) => Some((id, NodeState::Selected)),
        NodeResponse::UnSelected(id) => Some((id, NodeState::UnSelected)),
        NodeResponse::InvisibleNode(id) => Some((id, NodeState::Invisible)),
        NodeResponse::VisibleNode(id) => Some((id, NodeState::Visible)),
        _ => None,
    }
}

/// The node states after the requests were carried out one after the other.
pub open spec fn states_after(states: Map<NodeId, NodeState>, responses: Seq<NodeResponse>) -> Map<
    NodeId,
    NodeState,
>
    decreases responses.len(),
{
    if responses.len() == 0 {
        states
    } else {
        let before = states_after(states, responses.drop_last());
        match assigned(responses.last()) {
            Some((id, state)) => before.insert(id, state),
            None => before,
        }
    }
}

/// The nodes below which the requests ask for a new node, in the order of
/// the requests.
pub open spec fn added_fathers(responses: Seq<NodeResponse>) -> Seq<NodeId>
    decreases responses.len(),
{
    if responses.len() == 0 {
        Seq::empty()
    } else {
        let before = added_fathers(responses.drop_last());
        match responses.last() {
            NodeResponse::AddNode(id) => before.push(id),
            _ => before,
        }
    }
}

/// The nodes that the requests ask to delete, in the order of the requests.
pub open spec fn removed(responses: Seq<NodeResponse>) -> Seq<NodeId>
    decreases responses.len(),
{
    if responses.len() == 0 {
        Seq::empty()
    } else {
        let before = removed(responses.drop_last());
        match responses.last() {
            NodeResponse::DeleteNode(id) => before.push(id),
            _ => before,
        }
    }
}

/// `after` is `before` with one fresh node for each of `fathers`, hung below
/// it and stored under the handle at the same place of `ids`.
pub open spec fn extended(
    before: Map<NodeId, Node>,
    after: Map<NodeId, Node>,
    fathers: Seq<NodeId>,
    ids: Seq<NodeId>,
) -> bool {
    &&& ids.len() == fathers.len()
    &&& ids.no_duplicates()
    &&& forall|i: int| 0 <= i < ids.len() ==> !before.dom().contains(#[trigger] ids[i])
    &&& forall|k: NodeId| #[trigger] after.dom().contains(k) <==> before.dom().contains(k) || ids.contains(k)
    &&& forall|k: NodeId| #[trigger] before.dom().contains(k) ==> after[k] == before[k]
    &&& forall|i: int| 0 <= i < ids.len() ==> (#[trigger] after[ids[i]]).fresh(ids[i], Some(fathers[i]))
}

/// The map `entries` with the value `value` under each of `ids`.
pub open spec fn with_all<V>(entries: Map<NodeId, V>, ids: Seq<NodeId>, value: V) -> Map<NodeId, V> {
    Map::new(
        |k: NodeId| entries.dom().contains(k) || ids.contains(k),
        |k: NodeId| if ids.contains(k) {
            value
        } else {
            entries[k]
        },
    )
}

/// The node states after the node requests of a frame, where `ids` are the
/// handles of the nodes that were added.
pub open spec fn node_states_handled(
    states: Map<NodeId, NodeState>,
    responses: Seq<NodeResponse>,
    ids: Seq<NodeId>,
) -> Map<NodeId, NodeState> {
    with_all(states_after(states, responses), ids, NodeState::UnSelected).remove_keys(
        removed(responses).to_set(),
    )
}

/// The button states after the node requests of a frame, where `ids` are the
/// handles of the nodes that were added.
pub open spec fn button_states_handled(
    buttons: Map<NodeId, ButtonState>,
    responses: Seq<NodeResponse>,
    ids: Seq<NodeId>,
) -> Map<NodeId, ButtonState> {
    with_all(buttons, ids, ButtonState::UnFold).remove_keys(removed(responses).to_set())
}

/// The graph `after` the node requests of a frame were carried out on the
/// graph `before`: first the new nodes came, under the handles `ids`, then
/// the deleted nodes left.
pub open spec fn nodes_handled(
    before: Map<NodeId, Node>,
    after: Map<NodeId, Node>,
    responses: Seq<NodeResponse>,
    ids: Seq<NodeId>,
) -> bool {
    exists|grown: Map<NodeId, Node>| #[trigger]
        extended(before, grown, added_fathers(responses), ids) && after == without(
            grown,
            removed(responses).to_set(),
        )
}

/// The node whose fold button a request is about.
pub open spec fn button_subject(response: ButtonResponse) -> Option<NodeId> {
    match response {
        ButtonResponse::FoldNode(id) => Some(id),
        ButtonResponse::UnfoldNode(id) => Some(id),
        ButtonResponse::Nothing => None,
    }
}

/// The node states once every node that hangs below `root` is in `state`.
pub open spec fn cascaded(
    nodes: Map<NodeId, Node>,
    states: Map<NodeId, NodeState>,
    root: NodeId,
    state: NodeState,
) -> Map<NodeId, NodeState> {
    Map::new(
        |k: NodeId| states.dom().contains(k),
        |k: NodeId| if is_descendant(nodes, root, k) {
            state
        } else {
            states[k]
        },
    )
}

/// The node states after the requests of the fold buttons were carried out
/// one after the other: folding a node makes all that hangs below it
/// invisible, unfolding it makes all of it visible.
pub open spec fn states_folded(
    nodes: Map<NodeId, Node>,
    states: Map<NodeId, NodeState>,
    responses: Seq<ButtonResponse>,
) -> Map<NodeId, NodeState>
    decreases responses.len(),
{
    if responses.len() == 0 {
        states
    } else {
        let before = states_folded(nodes, states, responses.drop_last());
        match responses.last() {
            ButtonResponse::FoldNode(id) => cascaded(nodes, before, id, NodeState::Invisible),
            ButtonResponse::UnfoldNode(id) => cascaded(nodes, before, id, NodeState::Visible),
            ButtonResponse::Nothing => before,
        }
    }
}

/// The button states after the requests of the fold buttons were carried
/// out one after the other.
pub open spec fn buttons_folded(buttons: Map<NodeId, ButtonState>, responses: Seq<ButtonResponse>) -> Map<
    NodeId,
    ButtonState,
>
    decreases responses.len(),
{
    if responses.len() == 0 {
        buttons
    } else {
        let before = buttons_folded(buttons, responses.drop_last());
        match responses.last() {
            ButtonResponse::FoldNode(id) => before.insert(id, ButtonState::Fold),
            ButtonResponse::UnfoldNode(id) => before.insert(id, ButtonState::UnFold),
            ButtonResponse::Nothing => before,
        }
    }
}

/// The requests of the nodes can be carried out on the graph: each names a
/// node of the graph where it has to, and the graph has room for the nodes
/// asked for.
pub open spec fn node_requests_fit(nodes: Map<NodeId, Node>, responses: Seq<NodeResponse>) -> bool {
    &&& forall|i: int|
        0 <= i < responses.len() ==> match subject(#[trigger] responses[i]) {
            Some(id) => nodes.dom().contains(id),
            None => true,
        }
    &&& nodes.dom().len() + added_fathers(responses).len() <= capacity()
}

/// The requests of the fold buttons can be carried out on the graph: each
/// names a node of the graph, if it names one.
pub open spec fn button_requests_fit(nodes: Map<NodeId, Node>, responses: Seq<ButtonResponse>) -> bool {
    forall|i: int|
        0 <= i < responses.len() ==> match button_subject(#[trigger] responses[i]) {
            Some(id) => nodes.dom().contains(id),
            None => true,
        }
}

/// The requests of a frame can be carried out on the graph: those of the
/// nodes can, and those of the buttons name nodes of the graph that none of
/// the nodes asks to delete.
pub open spec fn requests_fit(
    nodes: Map<NodeId, Node>,
    node_responses: Seq<NodeResponse>,
    button_responses: Seq<ButtonResponse>,
) -> bool {
    &&& node_requests_fit(nodes, node_responses)
    &&& button_requests_fit(nodes, button_responses)
    &&& forall|i: int|
        0 <= i < button_responses.len() ==> match button_subject(#[trigger] button_responses[i]) {
            Some(id) => !removed(node_responses).contains(id),
            None => true,
        }
}

/// Unfolding a node that was just folded shows all that hangs below it,
/// whatever state it was in before.
pub proof fn lemma_fold_then_unfold(nodes: Map<NodeId, Node>, states: Map<NodeId, NodeState>, id: NodeId)
    ensures
        states_folded(nodes, states, seq![ButtonResponse::FoldNode(id), ButtonResponse::UnfoldNode(id)])
            == cascaded(nodes, states, id, NodeState::Visible),
{
    let both = seq![ButtonResponse::FoldNode(id), ButtonResponse::UnfoldNode(id)];
    let first = seq![ButtonResponse::FoldNode(id)];
    assert(both.drop_last() =~= first);
    assert(first.drop_last() =~= Seq::<ButtonResponse>::empty());
    assert(states_folded(nodes, states, first.drop_last()) == states);
    assert(first.last() == ButtonResponse::FoldNode(id));
    assert(states_folded(nodes, states, first) == cascaded(nodes, states, id, NodeState::Invisible));
    assert(both.last() == ButtonResponse::UnfoldNode(id));
    assert(cascaded(nodes, cascaded(nodes, states, id, NodeState::Invisible), id, NodeState::Visible)
        =~= cascaded(nodes, states, id, NodeState::Visible));
}

/// The nodes below which the requests ask for a new node, in the order of
/// the requests: the fathers of the nodes that `handle_node_responses` adds.
pub fn fathers_to_add(nodes_response: &NodeResponses) -> (fathers: Vec<NodeId>)
    ensures
        fathers@ == added_fathers(nodes_response@),
{
    let requests = nodes_response.to_vec();
    let mut fathers: Vec<NodeId> = Vec::new();
    let mut at: usize = 0;
    while at < requests.len()
        invariant
            at <= requests.len(),
            fathers@ == added_fathers(requests@.take(at as int)),
        decreases requests.len() - at,
    {
        proof {
            assert(requests@.take(at + 1).drop_last() =~= requests@.take(at as int));
        }
        match requests[at] {
            NodeResponse::AddNode(id) => {
                fathers.push(id);
            },
            _ => {},
        }
        at += 1;
    }
    proof {
        assert(requests@.take(requests@.len() as int) =~= requests@);
    }
    fathers
}

/// Carries out the requests of the nodes: puts nodes into the states asked
/// for, then adds a node below each node that asked for one, then deletes
/// the nodes that asked for it. Returns the handles of the new nodes, in the
/// order of the requests.
pub fn handle_node_responses(
    node_graph: &mut NodeGraph,
    graph_state: &mut GraphState,
    nodes_response: &NodeResponses,
) -> (result: Result<Vec<NodeId>, String>)
    requires
        old(node_graph).wf(),
        old(graph_state).tracks(old(node_graph)),
        node_requests_fit(old(node_graph)@, nodes_response@),
    ensures
        final(node_graph).wf(),
        final(graph_state).tracks(final(node_graph)),
        result matches Ok(ids) && nodes_handled(old(node_graph)@, final(node_graph)@, nodes_response@, ids@)
            && final(graph_state).node_states() == node_states_handled(
            old(graph_state).node_states(),
            nodes_response@,
            ids@,
        ) && final(graph_state).button_states() == button_states_handled(
            old(graph_state).button_states(),
            nodes_response@,
            ids@,
        ),
{
    let requests = nodes_response.to_vec();
    let mut nodes_to_remove: Vec<NodeId> = Vec::new();
    let mut nodes_to_add: Vec<NodeId> = Vec::new();
    let mut at: usize = 0;
    while at < requests.len()
        invariant
            at <= requests.len(),
            *node_graph == *old(node_graph),
            graph_state.tracks(node_graph),
            node_requests_fit(node_graph@, requests@),
            graph_state.node_states() == states_after(
                old(graph_state).node_states(),
                requests@.take(at as int),
            ),
            graph_state.button_states() == old(graph_state).button_states(),
            nodes_to_add@ == added_fathers(requests@.take(at as int)),
            nodes_to_remove@ == removed(requests@.take(at as int)),
            forall|i: int| 0 <= i < nodes_to_add@.len() ==> node_graph@.dom().contains(#[trigger] nodes_to_add@[i]),
        decreases requests.len() - at,
    {
        proof {
            assert(requests@.take(at + 1).drop_last() =~= requests@.take(at as int));
            assert(subject(requests@[at as int]) matches Some(id) ==> node_graph@.dom().contains(id));
        }
        match requests[at] {
            NodeResponse::EditNode(id) => {
                graph_state.set_node_state(id, NodeState::Editing);
            },
            NodeResponse::AddNode(id) => {
                nodes_to_add.push(id);
            },
            NodeResponse::Selected(id) => {
                graph_state.set_node_state(id, NodeState::Selected);
            },
            NodeResponse::UnSelected(id) => {
                graph_state.set_node_state(id, NodeState::UnSelected);
            },
            NodeResponse::InvisibleNode(id) => {
                graph_state.set_node_state(id, NodeState::Invisible);
            },
            NodeResponse::VisibleNode(id) => {
                graph_state.set_node_state(id, NodeState::Visible);
            },
            NodeResponse::DeleteNode(id) => {
                nodes_to_remove.push(id);
            },
            NodeResponse::Nothing => {},
        }
        at += 1;
    }
    let ghost assigned_states = graph_state.node_states();
    proof {
        assert(requests@.take(requests@.len() as int) =~= requests@);
    }

    let mut ids: Vec<NodeId> = Vec::new();
    let mut at: usize = 0;
    while at < nodes_to_add.len()
        invariant
            at <= nodes_to_add.len(),
            old(node_graph).wf(),
            node_graph.wf(),
            graph_state.tracks(node_graph),
            forall|i: int| 0 <= i < nodes_to_add@.len() ==> old(node_graph)@.dom().contains(#[trigger] nodes_to_add@[i]),
            old(node_graph)@.dom().len() + nodes_to_add@.len() <= capacity(),
            node_graph@.dom().len() == old(node_graph)@.dom().len() + at,
            extended(old(node_graph)@, node_graph@, nodes_to_add@.take(at as int), ids@),
            graph_state.node_states() == with_all(assigned_states, ids@, NodeState::UnSelected),
            graph_state.button_states() == with_all(old(graph_state).button_states(), ids@, ButtonState::UnFold),
            assigned_states.dom() == old(node_graph)@.dom(),
            old(graph_state).button_states().dom() == old(node_graph)@.dom(),
        decreases nodes_to_add.len() - at,
    {
        let father = nodes_to_add[at];
        let ghost graph_before = node_graph@;
        let ghost ids_before = ids@;
        let new_node = node_graph.add_node_with_father_node(father);
        graph_state.insert(new_node);
        ids.push(new_node);
        proof {
            lemma_members_after_push(ids_before, new_node);
            assert(nodes_to_add@.take(at + 1) =~= nodes_to_add@.take(at as int).push(father));
            assert(node_graph@.dom() =~= graph_before.dom().insert(new_node));
            assert forall|k: NodeId| #[trigger] old(node_graph)@.dom().contains(k) implies node_graph@[k] == old(
                node_graph,
            )@[k] by {
                assert(node_graph@.remove(new_node)[k] == graph_before[k]);
            }
            assert forall|i: int| 0 <= i < ids@.len() implies (#[trigger] node_graph@[ids@[i]]).fresh(
                ids@[i],
                Some(nodes_to_add@.take(at + 1)[i]),
            ) by {
                if i < ids_before.len() {
                    assert(ids_before.contains(ids_before[i]));
                    assert(node_graph@.remove(new_node)[ids_before[i]] == graph_before[ids_before[i]]);
                }
            }
            assert(graph_state.node_states() =~= with_all(assigned_states, ids@, NodeState::UnSelected));
            assert(graph_state.button_states() =~= with_all(
                old(graph_state).button_states(),
                ids@,
                ButtonState::UnFold,
            ));
        }
        at += 1;
    }
    let ghost grown = node_graph@;
    let ghost grown_states = graph_state.node_states();
    let ghost grown_buttons = graph_state.button_states();
    proof {
        assert(nodes_to_add@.take(nodes_to_add@.len() as int) =~= nodes_to_add@);
        assert(node_graph@ =~= without(grown, Set::<NodeId>::empty()));
        assert(grown_states =~= grown_states.remove_keys(Set::<NodeId>::empty()));
        assert(grown_buttons =~= grown_buttons.remove_keys(Set::<NodeId>::empty()));
        assert(nodes_to_remove@.take(0).to_set() =~= Set::<NodeId>::empty());
    }

    let mut at: usize = 0;
    while at < nodes_to_remove.len()
        invariant
            at <= nodes_to_remove.len(),
            node_graph.wf(),
            graph_state.tracks(node_graph),
            node_graph@ == without(grown, nodes_to_remove@.take(at as int).to_set()),
            graph_state.node_states() == grown_states.remove_keys(nodes_to_remove@.take(at as int).to_set()),
            graph_state.button_states() == grown_buttons.remove_keys(nodes_to_remove@.take(at as int).to_set()),
        decreases nodes_to_remove.len() - at,
    {
        let id = nodes_to_remove[at];
        let ghost gone = nodes_to_remove@.take(at as int).to_set();
        node_graph.delete_node(id);
        graph_state.remove(id);
        proof {
            assert(nodes_to_remove@.take(at + 1) =~= nodes_to_remove@.take(at as int).push(id));
            lemma_members_after_push(nodes_to_remove@.take(at as int), id);
            assert(nodes_to_remove@.take(at + 1).to_set() =~= gone.union(set![id]));
            lemma_without_twice(grown, gone, set![id]);
            assert(graph_state.node_states() =~= grown_states.remove_keys(gone.union(set![id])));
            assert(graph_state.button_states() =~= grown_buttons.remove_keys(gone.union(set![id])));
            assert(graph_state.node_states().dom() =~= node_graph@.dom());
        }
        at += 1;
    }
    proof {
        assert(nodes_to_remove@.take(nodes_to_remove@.len() as int) =~= nodes_to_remove@);
        assert(extended(old(node_graph)@, grown, added_fathers(requests@), ids@));
    }
    Ok(ids)
}

/// Puts every node that hangs below `root` into `state`.
fn cascade(node_graph: &NodeGraph, graph_state: &mut GraphState, root: NodeId, state: NodeState)
    requires
        node_graph.wf(),
        old(graph_state).tracks(node_graph),
    ensures
        final(graph_state).tracks(node_graph),
        final(graph_state).node_states() == cascaded(node_graph@, old(graph_state).node_states(), root, state),
        final(graph_state).button_states() == old(graph_state).button_states(),
{
    let children = node_graph.query_all_children_nodes(root);
    let mut at: usize = 0;
    while at < children.len()
        invariant
            at <= children.len(),
            node_graph.wf(),
            graph_state.tracks(node_graph),
            forall|k: NodeId| children@.contains(k) <==> is_descendant(node_graph@, root, k),
            graph_state.button_states() == old(graph_state).button_states(),
            graph_state.node_states().dom() == old(graph_state).node_states().dom(),
            forall|k: NodeId| #[trigger]
                graph_state.node_states().dom().contains(k) ==> graph_state.node_states()[k] == (if children@.take(
                    at as int,
                ).contains(k) {
                    state
                } else {
                    old(graph_state).node_states()[k]
                }),
        decreases children.len() - at,
    {
        let child_id = children[at];
        proof {
            assert(children@.contains(child_id));
            lemma_descendant_is_present(node_graph@, root, child_id);
            assert(children@.take(at + 1) =~= children@.take(at as int).push(child_id));
            lemma_members_after_push(children@.take(at as int), child_id);
        }
        graph_state.set_node_state(child_id, state);
        proof {
            assert(graph_state.node_states().dom() =~= old(graph_state).node_states().dom());
        }
        at += 1;
    }
    proof {
        assert(children@.take(children@.len() as int) =~= children@);
        assert(graph_state.node_states() =~= cascaded(node_graph@, old(graph_state).node_states(), root, state));
    }
}

/// Carries out the requests of the fold buttons, one after the other: the
/// button takes the state asked for, and all that hangs below its node
/// becomes invisible or visible.
pub fn handle_button_responses(
    node_graph: &NodeGraph,
    graph_state: &mut GraphState,
    buttons_response: &ButtonResponses,
) -> (result: Result<(), String>)
    requires
        node_graph.wf(),
        old(graph_state).tracks(node_graph),
        button_requests_fit(node_graph@, buttons_response@),
    ensures
        result is Ok,
        final(graph_state).tracks(node_graph),
        final(graph_state).node_states() == states_folded(
            node_graph@,
            old(graph_state).node_states(),
            buttons_response@,
        ),
        final(graph_state).button_states() == buttons_folded(old(graph_state).button_states(), buttons_response@),
{
    let requests = buttons_response.to_vec();
    let mut at: usize = 0;
    while at < requests.len()
        invariant
            at <= requests.len(),
            node_graph.wf(),
            graph_state.tracks(node_graph),
            button_requests_fit(node_graph@, requests@),
            graph_state.node_states() == states_folded(
                node_graph@,
                old(graph_state).node_states(),
                requests@.take(at as int),
            ),
            graph_state.button_states() == buttons_folded(
                old(graph_state).button_states(),
                requests@.take(at as int),
            ),
        decreases requests.len() - at,
    {
        proof {
            assert(requests@.take(at + 1).drop_last() =~= requests@.take(at as int));
            assert(button_subject(requests@[at as int]) matches Some(id) ==> node_graph@.dom().contains(id));
        }
        match requests[at] {
            ButtonResponse::FoldNode(father_id) => {
                graph_state.set_button_state(father_id, ButtonState::Fold);
                cascade(node_graph, graph_state, father_id, NodeState::Invisible);
            },
            ButtonResponse::UnfoldNode(father_id) => {
                graph_state.set_button_state(father_id, ButtonState::UnFold);
                cascade(node_graph, graph_state, father_id, NodeState::Visible);
            },
            ButtonResponse::Nothing => {},
        }
        at += 1;
    }
    proof {
        assert(requests@.take(requests@.len() as int) =~= requests@);
    }
    Ok(())
}

/// Tells whether the requests of a frame can be carried out on the graph.
pub fn can_handle(node_graph: &NodeGraph, graph_response: &GraphResponse) -> (b: bool)
    requires
        node_graph.wf(),
    ensures
        b == requests_fit(node_graph@, graph_response.nodes_response@, graph_response.buttons_response@),
{
    let node_requests = graph_response.nodes_response.to_vec();
    let button_requests = graph_response.buttons_response.to_vec();
    let mut adds: usize = 0;
    let mut gone: Vec<NodeId> = Vec::new();
    let mut at: usize = 0;
    while at < node_requests.len()
        invariant
            at <= node_requests.len(),
            node_requests@ == graph_response.nodes_response@,
            adds <= at,
            adds == added_fathers(node_requests@.take(at as int)).len(),
            gone@ == removed(node_requests@.take(at as int)),
            forall|i: int|
                0 <= i < at ==> match subject(#[trigger] node_requests@[i]) {
                    Some(id) => node_graph@.dom().contains(id),
                    None => true,
                },
        decreases node_requests.len() - at,
    {
        proof {
            assert(node_requests@.take(at + 1).drop_last() =~= node_requests@.take(at as int));
        }
        let known = match node_requests[at] {
            NodeResponse::AddNode(id) => {
                adds += 1;
                node_graph.contains(id)
            },
            NodeResponse::Selected(id) => node_graph.contains(id),
            NodeResponse::UnSelected(id) => node_graph.contains(id),
            NodeResponse::EditNode(id) => node_graph.contains(id),
            NodeResponse::InvisibleNode(id) => node_graph.contains(id),
            NodeResponse::VisibleNode(id) => node_graph.contains(id),
            NodeResponse::DeleteNode(id) => {
                gone.push(id);
                true
            },
            NodeResponse::Nothing => true,
        };
        if !known {
            proof {
                let id = subject(node_requests@[at as int])->Some_0;
                assert(!node_graph@.dom().contains(id));
                if node_requests_fit(node_graph@, node_requests@) {
                    assert(subject(node_requests@[at as int]) is Some);
                }
            }
            return false;
        }
        at += 1;
    }
    proof {
        assert(node_requests@.take(node_requests@.len() as int) =~= node_requests@);
    }
    if !node_graph.has_room(adds) {
        return false;
    }
    let mut at: usize = 0;
    while at < button_requests.len()
        invariant
            at <= button_requests.len(),
            node_requests@ == graph_response.nodes_response@,
            button_requests@ == graph_response.buttons_response@,
            gone@ == removed(node_requests@),
            forall|i: int|
                0 <= i < at ==> match button_subject(#[trigger] button_requests@[i]) {
                    Some(id) => node_graph@.dom().contains(id) && !removed(node_requests@).contains(id),
                    None => true,
                },
        decreases button_requests.len() - at,
    {
        let fits = match button_requests[at] {
            ButtonResponse::FoldNode(id) => node_graph.contains(id) && !contains_id(&gone, id),
            ButtonResponse::UnfoldNode(id) => node_graph.contains(id) && !contains_id(&gone, id),
            ButtonResponse::Nothing => true,
        };
        if !fits {
            proof {
                let id = button_subject(button_requests@[at as int])->Some_0;
                assert(!node_graph@.dom().contains(id) || removed(node_requests@).contains(id));
                if requests_fit(node_graph@, node_requests@, button_requests@) {
                    assert(button_subject(button_requests@[at as int]) is Some);
                }
            }
            return false;
        }
        at += 1;
    }
    true
}

/// Carries out what the nodes and the fold buttons asked for during a
/// frame: first the requests of the nodes, then those of the buttons.
/// Returns the handles of the nodes that were added.
pub fn handle_graph_response(
    node_graph: &mut NodeGraph,
    graph_state: &mut GraphState,
    graph_response: GraphResponse,
) -> (result: Result<Vec<NodeId>, String>)
    requires
        old(node_graph).wf(),
        old(graph_state).tracks(old(node_graph)),
        requests_fit(old(node_graph)@, graph_response.nodes_response@, graph_response.buttons_response@),
    ensures
        final(node_graph).wf(),
        final(graph_state).tracks(final(node_graph)),
        result matches Ok(ids) && nodes_handled(
            old(node_graph)@,
            final(node_graph)@,
            graph_response.nodes_response@,
            ids@,
        ) && final(graph_state).node_states() == states_folded(
            final(node_graph)@,
            node_states_handled(old(graph_state).node_states(), graph_response.nodes_response@, ids@),
            graph_response.buttons_response@,
        ) && final(graph_state).button_states() == buttons_folded(
            button_states_handled(old(graph_state).button_states(), graph_response.nodes_response@, ids@),
            graph_response.buttons_response@,
        ),
{
    let ids = handle_node_responses(node_graph, graph_state, &graph_response.nodes_response)?;
    proof {
        let grown = choose|grown: Map<NodeId, Node>| #[trigger]
            extended(old(node_graph)@, grown, added_fathers(graph_response.nodes_response@), ids@)
                && node_graph@ == without(grown, removed(graph_response.nodes_response@).to_set());
        assert forall|i: int| 0 <= i < graph_response.buttons_response@.len() implies match button_subject(
            #[trigger] graph_response.buttons_response@[i],
        ) {
            Some(id) => node_graph@.dom().contains(id),
            None => true,
        } by {
            match button_subject(graph_response.buttons_response@[i]) {
                Some(id) => {
                    assert(grown.dom().contains(id));
                },
                None => {},
            }
        }
    }
    handle_button_responses(node_graph, graph_state, &graph_response.buttons_response)?;
    Ok(ids)
}

} // verus!
