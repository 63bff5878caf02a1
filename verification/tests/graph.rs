use node_canvas::graph_state::GraphState;
use node_canvas::keys::NodeId;
use node_canvas::node::{
    ButtonResponse, ButtonState, Color, NodeInput, NodeResponse, NodeState,
};
use node_canvas::node_graph::{contains_id, GraphResponse, NodeGraph};

fn quiet() -> NodeInput {
    NodeInput { lost_focus: false, hovered: false, clicked: false, double_clicked: false, tab_pressed: false }
}

fn sorted(mut ids: Vec<NodeId>, order: &[NodeId]) -> Vec<NodeId> {
    ids.sort_by_key(|id| order.iter().position(|other| other == id).unwrap());
    ids
}

/// root
/// ├── a
/// │   ├── a1
/// │   └── a2
/// │       └── a21
/// └── b
/// lone
struct Family {
    graph: NodeGraph,
    states: GraphState,
    root: NodeId,
    a: NodeId,
    b: NodeId,
    a1: NodeId,
    a2: NodeId,
    a21: NodeId,
    lone: NodeId,
}

fn family() -> Family {
    let mut graph = NodeGraph::new();
    let mut states = GraphState::new();
    let root = graph.add_node_with_position();
    let a = graph.add_node_with_father_node(root);
    let b = graph.add_node_with_father_node(root);
    let a1 = graph.add_node_with_father_node(a);
    let a2 = graph.add_node_with_father_node(a);
    let a21 = graph.add_node_with_father_node(a2);
    let lone = graph.add_node_with_position();
    for id in [root, a, b, a1, a2, a21, lone] {
        states.insert(id);
    }
    Family { graph, states, root, a, b, a1, a2, a21, lone }
}

#[test]
fn new_graph_is_empty() {
    let graph = NodeGraph::new();
    assert_eq!(graph.len(), 0);
    assert!(graph.node_ids().is_empty());
    assert!(!graph.contains(NodeId::default()));
    assert!(graph.node(NodeId::default()).is_none());
    assert_eq!(NodeGraph::default().len(), 0);
}

#[test]
fn added_root_is_a_fresh_plain_node() {
    let mut graph = NodeGraph::new();
    let id = graph.add_node_with_position();
    assert!(!id.is_null());
    assert_eq!(graph.len(), 1);
    assert!(graph.contains(id));
    let node = graph.node(id).unwrap();
    assert_eq!(node.node_id, id);
    assert_eq!(node.father_id, None);
    assert_eq!(node.node_text, "text");
    assert_eq!(node.node_color, Color { r: 150, g: 150, b: 250 });
}

#[test]
fn added_child_hangs_below_its_father() {
    let mut graph = NodeGraph::new();
    let root = graph.add_node_with_position();
    let child = graph.add_node_with_father_node(root);
    assert_ne!(root, child);
    assert_eq!(graph.len(), 2);
    let node = graph.node(child).unwrap();
    assert_eq!(node.node_id, child);
    assert_eq!(node.father_id, Some(root));
    assert_eq!(node.node_text, "text");
    assert_eq!(node.node_color, Color { r: 150, g: 150, b: 250 });
    assert_eq!(graph.node(root).unwrap().father_id, None);
}

#[test]
fn handles_come_out_in_the_order_of_their_slots() {
    let f = family();
    assert_eq!(f.graph.node_ids(), vec![f.root, f.a, f.b, f.a1, f.a2, f.a21, f.lone]);
    assert_eq!(f.graph.len(), 7);
}

#[test]
fn contains_id_finds_what_is_there() {
    let f = family();
    let ids = vec![f.a, f.b];
    assert!(contains_id(&ids, f.a));
    assert!(contains_id(&ids, f.b));
    assert!(!contains_id(&ids, f.root));
    assert!(!contains_id(&Vec::new(), f.root));
}

#[test]
fn next_children_are_the_direct_children_in_slot_order() {
    let f = family();
    assert_eq!(f.graph.query_next_children_nodes(f.root), vec![f.a, f.b]);
    assert_eq!(f.graph.query_next_children_nodes(f.a), vec![f.a1, f.a2]);
    assert_eq!(f.graph.query_next_children_nodes(f.a2), vec![f.a21]);
    assert!(f.graph.query_next_children_nodes(f.b).is_empty());
    assert!(f.graph.query_next_children_nodes(f.lone).is_empty());
    assert!(f.graph.query_next_children_nodes(NodeId::default()).is_empty());
}

#[test]
fn all_children_are_the_whole_subtree() {
    let f = family();
    let order = [f.root, f.a, f.b, f.a1, f.a2, f.a21, f.lone];
    let below_root = f.graph.query_all_children_nodes(f.root);
    assert_eq!(below_root.len(), 5);
    assert_eq!(&below_root[..2], &[f.a, f.b]);
    assert_eq!(sorted(below_root, &order), vec![f.a, f.b, f.a1, f.a2, f.a21]);
    let below_a = f.graph.query_all_children_nodes(f.a);
    assert_eq!(&below_a[..2], &[f.a1, f.a2]);
    assert_eq!(sorted(below_a, &order), vec![f.a1, f.a2, f.a21]);
    assert_eq!(f.graph.query_all_children_nodes(f.a2), vec![f.a21]);
    assert!(f.graph.query_all_children_nodes(f.a21).is_empty());
    assert!(f.graph.query_all_children_nodes(f.lone).is_empty());
    assert!(f.graph.query_all_children_nodes(NodeId::default()).is_empty());
}

#[test]
fn all_children_come_in_the_order_of_the_walk() {
    let f = family();
    assert_eq!(f.graph.query_all_children_nodes(f.root), vec![f.a, f.b, f.a1, f.a2, f.a21]);
}

#[test]
fn set_text_changes_the_caption_only() {
    let mut f = family();
    f.graph.set_text(f.a, String::from("renamed"));
    let node = f.graph.node(f.a).unwrap();
    assert_eq!(node.node_text, "renamed");
    assert_eq!(node.father_id, Some(f.root));
    assert_eq!(node.node_id, f.a);
    assert_eq!(f.graph.node(f.b).unwrap().node_text, "text");
    assert_eq!(f.graph.len(), 7);
}

#[test]
fn set_text_on_a_missing_node_changes_nothing() {
    let mut f = family();
    f.graph.set_text(NodeId::default(), String::from("renamed"));
    assert_eq!(f.graph.len(), 7);
    for id in f.graph.node_ids() {
        assert_eq!(f.graph.node(id).unwrap().node_text, "text");
    }
}

#[test]
fn deleted_node_leaves_and_its_children_become_roots() {
    let mut f = family();
    f.graph.delete_node(f.a);
    assert!(!f.graph.contains(f.a));
    assert_eq!(f.graph.len(), 6);
    assert_eq!(f.graph.node_ids(), vec![f.root, f.b, f.a1, f.a2, f.a21, f.lone]);
    assert_eq!(f.graph.node(f.a1).unwrap().father_id, None);
    assert_eq!(f.graph.node(f.a2).unwrap().father_id, None);
    assert_eq!(f.graph.node(f.a21).unwrap().father_id, Some(f.a2));
    assert_eq!(f.graph.node(f.b).unwrap().father_id, Some(f.root));
    assert_eq!(f.graph.query_all_children_nodes(f.root), vec![f.b]);
    assert!(f.graph.query_next_children_nodes(f.a).is_empty());
}

#[test]
fn deleting_a_missing_node_changes_nothing() {
    let mut f = family();
    f.graph.delete_node(f.a);
    f.graph.delete_node(f.a);
    f.graph.delete_node(NodeId::default());
    assert_eq!(f.graph.len(), 6);
}

#[test]
fn freed_slot_is_used_again_under_a_new_handle() {
    let mut f = family();
    f.graph.delete_node(f.b);
    let again = f.graph.add_node_with_father_node(f.root);
    assert_ne!(again, f.b);
    assert!(!f.graph.contains(f.b));
    assert!(f.graph.contains(again));
    assert_eq!(f.graph.node_ids(), vec![f.root, f.a, again, f.a1, f.a2, f.a21, f.lone]);
    assert_eq!(f.graph.query_next_children_nodes(f.root), vec![f.a, again]);
}

#[test]
fn roots_are_drawn_and_folding_hides_all_that_hangs_below() {
    let mut f = family();
    assert!(f.graph.should_draw(&f.states, f.root));
    assert!(f.graph.should_draw(&f.states, f.lone));
    assert!(f.graph.should_draw(&f.states, f.a));
    assert!(f.graph.should_draw(&f.states, f.a21));
    f.states.set_button_state(f.a, ButtonState::Fold);
    assert!(f.graph.should_draw(&f.states, f.a));
    assert!(!f.graph.should_draw(&f.states, f.a1));
    assert!(!f.graph.should_draw(&f.states, f.a2));
    assert!(!f.graph.should_draw(&f.states, f.a21));
    assert!(f.graph.should_draw(&f.states, f.b));
    assert!(f.graph.should_draw(&f.states, f.root));
    assert!(f.graph.should_draw(&f.states, f.lone));
    assert!(!f.graph.should_draw(&f.states, NodeId::default()));
}

#[test]
fn node_below_an_unfolded_node_below_a_folded_node_is_not_drawn() {
    let mut graph = NodeGraph::new();
    let mut states = GraphState::new();
    let a = graph.add_node_with_position();
    let b = graph.add_node_with_father_node(a);
    let c = graph.add_node_with_father_node(b);
    for id in [a, b, c] {
        states.insert(id);
    }
    states.set_button_state(a, ButtonState::Fold);
    assert_eq!(states.button_state(b), Some(ButtonState::UnFold));
    assert!(graph.should_draw(&states, a));
    assert!(!graph.should_draw(&states, b));
    assert!(!graph.should_draw(&states, c));
    states.set_button_state(a, ButtonState::UnFold);
    states.set_button_state(b, ButtonState::Fold);
    assert!(graph.should_draw(&states, a));
    assert!(graph.should_draw(&states, b));
    assert!(!graph.should_draw(&states, c));
    states.set_button_state(b, ButtonState::UnFold);
    states.set_button_state(c, ButtonState::Fold);
    assert!(graph.should_draw(&states, c));
}

#[test]
fn child_without_a_button_state_for_its_father_is_not_drawn() {
    let mut f = family();
    f.states.remove(f.a);
    assert!(!f.graph.should_draw(&f.states, f.a1));
    assert!(!f.graph.should_draw(&f.states, f.a21));
    assert!(f.graph.should_draw(&f.states, f.a));
}

#[test]
fn nodes_with_children_are_listed_once() {
    let f = family();
    let order = [f.root, f.a, f.b, f.a1, f.a2, f.a21, f.lone];
    assert_eq!(sorted(f.graph.nodes_have_children(), &order), vec![f.root, f.a, f.a2]);
    assert!(NodeGraph::new().nodes_have_children().is_empty());
}

#[test]
fn curves_lead_from_shown_children_to_their_fathers() {
    let mut f = family();
    assert_eq!(
        f.graph.draw_curve_line(&f.states),
        vec![(f.a, f.root), (f.b, f.root), (f.a1, f.a), (f.a2, f.a), (f.a21, f.a2)]
    );
    f.states.set_node_state(f.a1, NodeState::Invisible);
    f.states.set_node_state(f.b, NodeState::Invisible);
    f.states.set_node_state(f.root, NodeState::Invisible);
    f.states.set_node_state(f.a2, NodeState::Visible);
    assert_eq!(f.graph.draw_curve_line(&f.states), vec![(f.a, f.root), (f.a2, f.a), (f.a21, f.a2)]);
}

#[test]
fn drawing_a_node_moves_its_state_and_colour() {
    let mut f = family();
    let response = f.graph.draw_node(&mut f.states, f.a, NodeInput { hovered: true, ..quiet() });
    assert_eq!(response, NodeResponse::Nothing);
    assert_eq!(f.states.node_state(f.a), Some(NodeState::Hover));
    let response = f.graph.draw_node(&mut f.states, f.a, NodeInput { clicked: true, ..quiet() });
    assert_eq!(response, NodeResponse::Selected(f.a));
    assert_eq!(f.states.node_state(f.a), Some(NodeState::Hover));
    assert_eq!(f.graph.node(f.a).unwrap().node_color, Color { r: 200, g: 150, b: 250 });
    assert_eq!(f.graph.node(f.a).unwrap().father_id, Some(f.root));
    assert_eq!(f.states.node_state(f.b), Some(NodeState::UnSelected));
    assert_eq!(f.graph.node(f.b).unwrap().node_color, Color { r: 150, g: 150, b: 250 });
    assert_eq!(f.states.button_state(f.a), Some(ButtonState::UnFold));
}

#[test]
fn drawing_a_selected_node_with_tab_asks_for_a_child() {
    let mut f = family();
    f.states.set_node_state(f.b, NodeState::Selected);
    let response = f.graph.draw_node(&mut f.states, f.b, NodeInput { tab_pressed: true, ..quiet() });
    assert_eq!(response, NodeResponse::AddNode(f.b));
    assert_eq!(f.graph.node(f.b).unwrap().node_color, Color { r: 250, g: 0, b: 0 });
    assert_eq!(f.states.node_state(f.b), Some(NodeState::Selected));
}

#[test]
fn drawing_a_button_toggles_it() {
    let mut f = family();
    let response = f.graph.draw_button(&mut f.states, f.a, true);
    assert_eq!(response, ButtonResponse::FoldNode(f.a));
    assert_eq!(f.states.button_state(f.a), Some(ButtonState::Fold));
    let response = f.graph.draw_button(&mut f.states, f.a, false);
    assert_eq!(response, ButtonResponse::Nothing);
    assert_eq!(f.states.button_state(f.a), Some(ButtonState::Fold));
    let response = f.graph.draw_button(&mut f.states, f.a, true);
    assert_eq!(response, ButtonResponse::UnfoldNode(f.a));
    assert_eq!(f.states.button_state(f.a), Some(ButtonState::UnFold));
    assert_eq!(f.states.button_state(f.root), Some(ButtonState::UnFold));
    assert_eq!(f.states.node_state(f.a), Some(NodeState::UnSelected));
    assert_eq!(f.graph.len(), 7);
}

#[test]
fn default_response_is_empty() {
    let response = GraphResponse::default();
    assert_eq!(response.nodes_response.len(), 0);
    assert_eq!(response.buttons_response.len(), 0);
    assert!(response.nodes_response.to_vec().is_empty());
    assert!(response.buttons_response.to_vec().is_empty());
}

#[test]
fn graph_has_room_up_to_its_last_slot() {
    let f = family();
    assert!(f.graph.has_room(0));
    assert!(f.graph.has_room(1));
    assert!(f.graph.has_room(0xffff_fffe - 7));
    assert!(!f.graph.has_room(0xffff_fffe - 6));
    assert!(!f.graph.has_room(0xffff_fffe));
    assert!(!f.graph.has_room(usize::MAX));
    assert!(NodeGraph::new().has_room(0xffff_fffe));
    assert!(!NodeGraph::new().has_room(0xffff_ffff));
}

#[test]
fn handle_reads_as_the_slot_map_prints_its_key() {
    let mut graph = NodeGraph::new();
    let first = graph.add_node_with_position();
    let second = graph.add_node_with_position();
    assert_eq!(first.to_text(), "node_1v1");
    assert_eq!(second.to_text(), "node_2v1");
    assert_eq!(NodeId::default().to_text(), "node_null");
    graph.delete_node(first);
    let again = graph.add_node_with_position();
    assert_eq!(again.to_text(), "node_1v3");
}

#[test]
fn walk_looks_below_the_node_found_last_first() {
    let mut graph = NodeGraph::new();
    let root = graph.add_node_with_position();
    let a = graph.add_node_with_father_node(root);
    let b = graph.add_node_with_father_node(root);
    let a1 = graph.add_node_with_father_node(a);
    let b1 = graph.add_node_with_father_node(b);
    let b2 = graph.add_node_with_father_node(b);
    let a11 = graph.add_node_with_father_node(a1);
    let b11 = graph.add_node_with_father_node(b1);
    assert_eq!(graph.query_all_children_nodes(root), vec![a, b, b1, b2, b11, a1, a11]);
    assert_eq!(graph.query_all_children_nodes(b), vec![b1, b2, b11]);
}
