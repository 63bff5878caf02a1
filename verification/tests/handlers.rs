use node_canvas::graph_state::GraphState;
use node_canvas::handlers::{
    can_handle, fathers_to_add, handle_button_responses, handle_graph_response,
    handle_node_responses,
};
use node_canvas::keys::NodeId;
use node_canvas::node::{ButtonResponse, ButtonState, Color, NodeResponse, NodeState};
use node_canvas::node_graph::{GraphResponse, NodeGraph};
use node_canvas::responses::{ButtonResponses, NodeResponses};

/// root
/// ├── a
/// │   ├── a1
/// │   └── a2
/// │       └── a21
/// └── b
struct Tree {
    graph: NodeGraph,
    states: GraphState,
    root: NodeId,
    a: NodeId,
    b: NodeId,
    a1: NodeId,
    a2: NodeId,
    a21: NodeId,
}

fn tree() -> Tree {
    let mut graph = NodeGraph::new();
    let mut states = GraphState::new();
    let root = graph.add_node_with_position();
    let a = graph.add_node_with_father_node(root);
    let b = graph.add_node_with_father_node(root);
    let a1 = graph.add_node_with_father_node(a);
    let a2 = graph.add_node_with_father_node(a);
    let a21 = graph.add_node_with_father_node(a2);
    for id in [root, a, b, a1, a2, a21] {
        states.insert(id);
    }
    Tree { graph, states, root, a, b, a1, a2, a21 }
}

fn node_requests(list: Vec<NodeResponse>) -> NodeResponses {
    let mut requests = NodeResponses::new();
    for request in list {
        requests.insert(request);
    }
    requests
}

fn button_requests(list: Vec<ButtonResponse>) -> ButtonResponses {
    let mut requests = ButtonResponses::new();
    for request in list {
        requests.insert(request);
    }
    requests
}

fn frame(nodes: Vec<NodeResponse>, buttons: Vec<ButtonResponse>) -> GraphResponse {
    GraphResponse { nodes_response: node_requests(nodes), buttons_response: button_requests(buttons) }
}

fn node_states(t: &Tree) -> Vec<Option<NodeState>> {
    [t.root, t.a, t.b, t.a1, t.a2, t.a21].iter().map(|id| t.states.node_state(*id)).collect()
}

fn button_states(t: &Tree) -> Vec<Option<ButtonState>> {
    [t.root, t.a, t.b, t.a1, t.a2, t.a21].iter().map(|id| t.states.button_state(*id)).collect()
}

#[test]
fn no_requests_change_nothing() {
    let mut t = tree();
    let ids = handle_node_responses(&mut t.graph, &mut t.states, &NodeResponses::new()).unwrap();
    assert!(ids.is_empty());
    assert_eq!(handle_button_responses(&t.graph, &mut t.states, &ButtonResponses::new()), Ok(()));
    assert_eq!(t.graph.len(), 6);
    assert_eq!(node_states(&t), vec![Some(NodeState::UnSelected); 6]);
    assert_eq!(button_states(&t), vec![Some(ButtonState::UnFold); 6]);
}

#[test]
fn requests_put_nodes_into_the_states_asked_for() {
    let mut t = tree();
    let requests = vec![
        NodeResponse::EditNode(t.root),
        NodeResponse::Selected(t.a),
        NodeResponse::UnSelected(t.b),
        NodeResponse::InvisibleNode(t.a1),
        NodeResponse::VisibleNode(t.a2),
        NodeResponse::Nothing,
    ];
    let ids = handle_node_responses(&mut t.graph, &mut t.states, &node_requests(requests)).unwrap();
    assert!(ids.is_empty());
    assert_eq!(
        node_states(&t),
        vec![
            Some(NodeState::Editing),
            Some(NodeState::Selected),
            Some(NodeState::UnSelected),
            Some(NodeState::Invisible),
            Some(NodeState::Visible),
            Some(NodeState::UnSelected),
        ]
    );
    assert_eq!(button_states(&t), vec![Some(ButtonState::UnFold); 6]);
    assert_eq!(t.graph.len(), 6);
}

#[test]
fn later_request_for_the_same_node_wins() {
    let mut t = tree();
    let requests = vec![
        NodeResponse::Selected(t.a),
        NodeResponse::EditNode(t.a),
        NodeResponse::InvisibleNode(t.b),
        NodeResponse::Selected(t.b),
    ];
    handle_node_responses(&mut t.graph, &mut t.states, &node_requests(requests)).unwrap();
    assert_eq!(t.states.node_state(t.a), Some(NodeState::Editing));
    assert_eq!(t.states.node_state(t.b), Some(NodeState::Selected));
}

#[test]
fn request_for_a_child_adds_an_unselected_node_below() {
    let mut t = tree();
    let requests = vec![NodeResponse::AddNode(t.b), NodeResponse::Selected(t.b), NodeResponse::AddNode(t.a21)];
    let ids = handle_node_responses(&mut t.graph, &mut t.states, &node_requests(requests)).unwrap();
    assert_eq!(ids.len(), 2);
    assert_ne!(ids[0], ids[1]);
    assert_eq!(t.graph.len(), 8);
    assert_eq!(t.states.len(), 8);
    assert!(t.states.tracks_graph(&t.graph));
    let fathers = [t.b, t.a21];
    for (id, father) in ids.iter().zip(fathers) {
        let node = t.graph.node(*id).unwrap();
        assert_eq!(node.node_id, *id);
        assert_eq!(node.father_id, Some(father));
        assert_eq!(node.node_text, "text");
        assert_eq!(node.node_color, Color { r: 150, g: 150, b: 250 });
        assert_eq!(t.states.node_state(*id), Some(NodeState::UnSelected));
        assert_eq!(t.states.button_state(*id), Some(ButtonState::UnFold));
    }
    assert_eq!(t.states.node_state(t.b), Some(NodeState::Selected));
    assert_eq!(t.graph.query_next_children_nodes(t.b), vec![ids[0]]);
    assert_eq!(t.graph.query_next_children_nodes(t.a21), vec![ids[1]]);
}

#[test]
fn request_to_delete_takes_node_and_states_away() {
    let mut t = tree();
    let requests = vec![NodeResponse::DeleteNode(t.a), NodeResponse::Selected(t.a)];
    let ids = handle_node_responses(&mut t.graph, &mut t.states, &node_requests(requests)).unwrap();
    assert!(ids.is_empty());
    assert!(!t.graph.contains(t.a));
    assert_eq!(t.states.node_state(t.a), None);
    assert_eq!(t.states.button_state(t.a), None);
    assert_eq!(t.graph.len(), 5);
    assert_eq!(t.states.len(), 5);
    assert!(t.states.tracks_graph(&t.graph));
    assert_eq!(t.graph.node(t.a1).unwrap().father_id, None);
    assert_eq!(t.graph.node(t.a2).unwrap().father_id, None);
    assert_eq!(t.graph.node(t.a21).unwrap().father_id, Some(t.a2));
    assert_eq!(t.graph.node(t.b).unwrap().father_id, Some(t.root));
}

#[test]
fn node_added_below_a_node_that_is_deleted_becomes_a_root() {
    let mut t = tree();
    let requests = vec![NodeResponse::DeleteNode(t.b), NodeResponse::AddNode(t.b)];
    let ids = handle_node_responses(&mut t.graph, &mut t.states, &node_requests(requests)).unwrap();
    assert_eq!(ids.len(), 1);
    assert!(!t.graph.contains(t.b));
    assert_eq!(t.graph.node(ids[0]).unwrap().father_id, None);
    assert_eq!(t.states.node_state(ids[0]), Some(NodeState::UnSelected));
    assert_eq!(t.graph.len(), 6);
    assert!(t.states.tracks_graph(&t.graph));
}

#[test]
fn deleting_twice_or_what_is_gone_is_harmless() {
    let mut t = tree();
    let requests = vec![
        NodeResponse::DeleteNode(t.a1),
        NodeResponse::DeleteNode(t.a1),
        NodeResponse::DeleteNode(NodeId::default()),
    ];
    handle_node_responses(&mut t.graph, &mut t.states, &node_requests(requests)).unwrap();
    assert_eq!(t.graph.len(), 5);
    assert!(t.states.tracks_graph(&t.graph));
    assert_eq!(t.graph.query_next_children_nodes(t.a), vec![t.a2]);
}

#[test]
fn folding_hides_all_that_hangs_below() {
    let mut t = tree();
    let requests = vec![ButtonResponse::FoldNode(t.a)];
    assert_eq!(handle_button_responses(&t.graph, &mut t.states, &button_requests(requests)), Ok(()));
    assert_eq!(
        node_states(&t),
        vec![
            Some(NodeState::UnSelected),
            Some(NodeState::UnSelected),
            Some(NodeState::UnSelected),
            Some(NodeState::Invisible),
            Some(NodeState::Invisible),
            Some(NodeState::Invisible),
        ]
    );
    assert_eq!(
        button_states(&t),
        vec![
            Some(ButtonState::UnFold),
            Some(ButtonState::Fold),
            Some(ButtonState::UnFold),
            Some(ButtonState::UnFold),
            Some(ButtonState::UnFold),
            Some(ButtonState::UnFold),
        ]
    );
}

#[test]
fn unfolding_shows_all_that_hangs_below() {
    let mut t = tree();
    handle_button_responses(&t.graph, &mut t.states, &button_requests(vec![ButtonResponse::FoldNode(t.root)])).unwrap();
    assert_eq!(t.states.node_state(t.b), Some(NodeState::Invisible));
    assert_eq!(t.states.node_state(t.a21), Some(NodeState::Invisible));
    assert_eq!(t.states.node_state(t.root), Some(NodeState::UnSelected));
    handle_button_responses(&t.graph, &mut t.states, &button_requests(vec![ButtonResponse::UnfoldNode(t.a)])).unwrap();
    assert_eq!(
        node_states(&t),
        vec![
            Some(NodeState::UnSelected),
            Some(NodeState::Invisible),
            Some(NodeState::Invisible),
            Some(NodeState::Visible),
            Some(NodeState::Visible),
            Some(NodeState::Visible),
        ]
    );
    assert_eq!(t.states.button_state(t.root), Some(ButtonState::Fold));
    assert_eq!(t.states.button_state(t.a), Some(ButtonState::UnFold));
}

#[test]
fn button_requests_are_carried_out_in_order() {
    let mut t = tree();
    let requests = vec![
        ButtonResponse::FoldNode(t.a),
        ButtonResponse::Nothing,
        ButtonResponse::UnfoldNode(t.a2),
        ButtonResponse::FoldNode(t.b),
    ];
    handle_button_responses(&t.graph, &mut t.states, &button_requests(requests)).unwrap();
    assert_eq!(t.states.node_state(t.a1), Some(NodeState::Invisible));
    assert_eq!(t.states.node_state(t.a2), Some(NodeState::Invisible));
    assert_eq!(t.states.node_state(t.a21), Some(NodeState::Visible));
    assert_eq!(t.states.button_state(t.a), Some(ButtonState::Fold));
    assert_eq!(t.states.button_state(t.a2), Some(ButtonState::UnFold));
    assert_eq!(t.states.button_state(t.b), Some(ButtonState::Fold));
}

#[test]
fn folding_a_leaf_only_turns_its_button() {
    let mut t = tree();
    handle_button_responses(&t.graph, &mut t.states, &button_requests(vec![ButtonResponse::FoldNode(t.a21)])).unwrap();
    assert_eq!(node_states(&t), vec![Some(NodeState::UnSelected); 6]);
    assert_eq!(t.states.button_state(t.a21), Some(ButtonState::Fold));
}

#[test]
fn frame_requests_of_nodes_come_before_those_of_buttons() {
    let mut t = tree();
    let response = frame(
        vec![NodeResponse::AddNode(t.a2), NodeResponse::Selected(t.a1), NodeResponse::DeleteNode(t.b)],
        vec![ButtonResponse::FoldNode(t.a)],
    );
    let ids = handle_graph_response(&mut t.graph, &mut t.states, response).unwrap();
    assert_eq!(ids.len(), 1);
    assert_eq!(t.graph.node(ids[0]).unwrap().father_id, Some(t.a2));
    assert!(!t.graph.contains(t.b));
    assert_eq!(t.states.node_state(t.b), None);
    assert_eq!(t.states.node_state(t.a1), Some(NodeState::Invisible));
    assert_eq!(t.states.node_state(t.a2), Some(NodeState::Invisible));
    assert_eq!(t.states.node_state(t.a21), Some(NodeState::Invisible));
    assert_eq!(t.states.node_state(ids[0]), Some(NodeState::Invisible));
    assert_eq!(t.states.node_state(t.a), Some(NodeState::UnSelected));
    assert_eq!(t.states.node_state(t.root), Some(NodeState::UnSelected));
    assert_eq!(t.states.button_state(t.a), Some(ButtonState::Fold));
    assert_eq!(t.states.button_state(ids[0]), Some(ButtonState::UnFold));
    assert_eq!(t.graph.len(), 6);
    assert!(t.states.tracks_graph(&t.graph));
}

#[test]
fn frame_without_requests_changes_nothing() {
    let mut t = tree();
    let ids = handle_graph_response(&mut t.graph, &mut t.states, GraphResponse::default()).unwrap();
    assert!(ids.is_empty());
    assert_eq!(t.graph.len(), 6);
    assert_eq!(node_states(&t), vec![Some(NodeState::UnSelected); 6]);
}

#[test]
fn fold_after_delete_does_not_reach_the_orphans() {
    let mut t = tree();
    let response = frame(vec![NodeResponse::DeleteNode(t.a)], vec![ButtonResponse::FoldNode(t.root)]);
    handle_graph_response(&mut t.graph, &mut t.states, response).unwrap();
    assert_eq!(t.states.node_state(t.b), Some(NodeState::Invisible));
    assert_eq!(t.states.node_state(t.a1), Some(NodeState::UnSelected));
    assert_eq!(t.states.node_state(t.a2), Some(NodeState::UnSelected));
    assert_eq!(t.states.node_state(t.a21), Some(NodeState::UnSelected));
    assert_eq!(t.states.button_state(t.root), Some(ButtonState::Fold));
}

#[test]
fn fold_then_unfold_in_one_frame_shows_the_subtree() {
    let mut t = tree();
    t.states.set_node_state(t.a1, NodeState::Selected);
    let requests = vec![ButtonResponse::FoldNode(t.a), ButtonResponse::UnfoldNode(t.a)];
    handle_button_responses(&t.graph, &mut t.states, &button_requests(requests)).unwrap();
    assert_eq!(
        node_states(&t),
        vec![
            Some(NodeState::UnSelected),
            Some(NodeState::UnSelected),
            Some(NodeState::UnSelected),
            Some(NodeState::Visible),
            Some(NodeState::Visible),
            Some(NodeState::Visible),
        ]
    );
    assert_eq!(t.states.button_state(t.a), Some(ButtonState::UnFold));
}

#[test]
fn requests_about_nodes_of_the_graph_can_be_handled() {
    let t = tree();
    assert!(can_handle(&t.graph, &GraphResponse::default()));
    let response = frame(
        vec![
            NodeResponse::AddNode(t.a),
            NodeResponse::Selected(t.b),
            NodeResponse::DeleteNode(t.a1),
            NodeResponse::DeleteNode(NodeId::default()),
            NodeResponse::Nothing,
        ],
        vec![ButtonResponse::FoldNode(t.root), ButtonResponse::UnfoldNode(t.a2), ButtonResponse::Nothing],
    );
    assert!(can_handle(&t.graph, &response));
}

#[test]
fn request_about_a_missing_node_cannot_be_handled() {
    let mut t = tree();
    t.graph.delete_node(t.b);
    for request in [
        NodeResponse::AddNode(t.b),
        NodeResponse::Selected(t.b),
        NodeResponse::UnSelected(t.b),
        NodeResponse::EditNode(t.b),
        NodeResponse::InvisibleNode(t.b),
        NodeResponse::VisibleNode(t.b),
    ] {
        let response = frame(vec![request], Vec::new());
        assert!(!can_handle(&t.graph, &response));
    }
    for request in [ButtonResponse::FoldNode(t.b), ButtonResponse::UnfoldNode(t.b)] {
        let response = frame(Vec::new(), vec![request]);
        assert!(!can_handle(&t.graph, &response));
    }
    let response =
        frame(vec![NodeResponse::DeleteNode(t.b)], Vec::new());
    assert!(can_handle(&t.graph, &response));
}

#[test]
fn button_request_about_a_node_that_is_deleted_cannot_be_handled() {
    let t = tree();
    let response = frame(vec![NodeResponse::DeleteNode(t.a)], vec![ButtonResponse::FoldNode(t.a)]);
    assert!(!can_handle(&t.graph, &response));
    let response = frame(vec![NodeResponse::DeleteNode(t.a)], vec![ButtonResponse::FoldNode(t.root)]);
    assert!(can_handle(&t.graph, &response));
}

#[test]
fn fathers_to_add_are_the_subjects_of_the_requests_for_a_child() {
    let t = tree();
    let requests = vec![
        NodeResponse::Selected(t.a),
        NodeResponse::AddNode(t.b),
        NodeResponse::DeleteNode(t.a1),
        NodeResponse::AddNode(t.a),
        NodeResponse::AddNode(t.b),
        NodeResponse::Nothing,
    ];
    assert_eq!(fathers_to_add(&node_requests(requests)), vec![t.b, t.a, t.b]);
    assert!(fathers_to_add(&NodeResponses::new()).is_empty());
}

#[test]
fn requests_are_read_in_the_order_in_which_they_were_made() {
    let t = tree();
    let list = vec![
        NodeResponse::Selected(t.a),
        NodeResponse::AddNode(t.b),
        NodeResponse::Nothing,
        NodeResponse::DeleteNode(t.a1),
        NodeResponse::EditNode(t.a),
    ];
    let mut requests = NodeResponses::new();
    assert_eq!(requests.len(), 0);
    assert!(requests.has_room());
    let mut keys = Vec::new();
    for request in &list {
        keys.push(requests.insert(*request));
    }
    assert_eq!(requests.len(), 5);
    assert_eq!(requests.to_vec(), list);
    for (i, key) in keys.iter().enumerate() {
        assert!(!keys[..i].contains(key));
    }
    assert!(NodeResponses::default().to_vec().is_empty());

    let list = vec![ButtonResponse::FoldNode(t.a), ButtonResponse::Nothing, ButtonResponse::UnfoldNode(t.b)];
    let mut requests = ButtonResponses::new();
    assert!(requests.has_room());
    for request in &list {
        requests.insert(*request);
    }
    assert_eq!(requests.len(), 3);
    assert_eq!(requests.to_vec(), list);
    assert!(ButtonResponses::default().to_vec().is_empty());
}
