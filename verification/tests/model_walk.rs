use std::collections::{HashMap, HashSet};

use node_canvas::graph_state::GraphState;
use node_canvas::handlers::handle_graph_response;
use node_canvas::keys::NodeId;
use node_canvas::node::{ButtonResponse, ButtonState, NodeResponse, NodeState};
use node_canvas::node_graph::{GraphResponse, NodeGraph};

/// A small generator of pseudo-random numbers, the same on every run.
struct Dice(u64);

impl Dice {
    fn roll(&mut self, sides: usize) -> usize {
        self.0 = self.0.wrapping_mul(6364136223846793005).wrapping_add(1442695040888963407);
        ((self.0 >> 33) as usize) % sides
    }
}

/// What the graph and its states should hold, kept in plain maps.
#[derive(Default)]
struct Model {
    fathers: HashMap<NodeId, Option<NodeId>>,
    states: HashMap<NodeId, NodeState>,
    buttons: HashMap<NodeId, ButtonState>,
}

impl Model {
    fn children(&self, father: NodeId) -> HashSet<NodeId> {
        self.fathers.iter().filter(|(_, f)| **f == Some(father)).map(|(k, _)| *k).collect()
    }

    fn descendants(&self, root: NodeId) -> HashSet<NodeId> {
        let mut found = HashSet::new();
        let mut pending = vec![root];
        while let Some(top) = pending.pop() {
            for child in self.children(top) {
                if found.insert(child) {
                    pending.push(child);
                }
            }
        }
        found
    }

    fn delete(&mut self, id: NodeId) {
        if self.fathers.remove(&id).is_some() {
            self.states.remove(&id);
            self.buttons.remove(&id);
            for father in self.fathers.values_mut() {
                if *father == Some(id) {
                    *father = None;
                }
            }
        }
    }
}

fn agree(graph: &NodeGraph, states: &GraphState, model: &Model, ever: &[NodeId]) {
    assert_eq!(graph.len(), model.fathers.len());
    assert_eq!(states.len(), model.fathers.len());
    assert!(states.tracks_graph(graph));
    let ids = graph.node_ids();
    assert_eq!(ids.len(), model.fathers.len());
    assert_eq!(ids.iter().copied().collect::<HashSet<_>>(), model.fathers.keys().copied().collect());
    let mut with_children = HashSet::new();
    for id in ever {
        assert_eq!(graph.contains(*id), model.fathers.contains_key(id));
        assert_eq!(graph.node(*id).map(|node| node.father_id), model.fathers.get(id).copied());
        assert_eq!(graph.node(*id).map(|node| node.node_id), model.fathers.get(id).map(|_| *id));
        assert_eq!(states.node_state(*id), model.states.get(id).copied());
        assert_eq!(states.button_state(*id), model.buttons.get(id).copied());

        let children = graph.query_next_children_nodes(*id);
        let positions: Vec<usize> =
            children.iter().map(|child| ids.iter().position(|other| other == child).unwrap()).collect();
        assert!(positions.windows(2).all(|pair| pair[0] < pair[1]));
        assert_eq!(children.iter().copied().collect::<HashSet<_>>(), model.children(*id));
        if !children.is_empty() {
            with_children.insert(*id);
        }

        let below = graph.query_all_children_nodes(*id);
        let below_set: HashSet<NodeId> = below.iter().copied().collect();
        assert_eq!(below_set.len(), below.len());
        assert_eq!(below_set, model.descendants(*id));
        assert_eq!(&below[..children.len()], &children[..]);
        assert!(!below_set.contains(id));
    }
    let fathers = graph.nodes_have_children();
    assert_eq!(fathers.iter().copied().collect::<HashSet<_>>(), with_children);
    assert_eq!(fathers.len(), with_children.len());

    let curves = graph.draw_curve_line(states);
    let expected: Vec<(NodeId, NodeId)> = ids
        .iter()
        .filter(|id| model.states[*id] != NodeState::Invisible)
        .filter_map(|id| model.fathers[id].map(|father| (*id, father)))
        .collect();
    assert_eq!(curves, expected);
    for id in &ids {
        let mut shown = true;
        let mut current = *id;
        while let Some(father) = model.fathers[&current] {
            shown = shown && model.buttons.get(&father) == Some(&ButtonState::UnFold);
            current = father;
        }
        assert_eq!(graph.should_draw(states, *id), shown);
    }
    assert!(!graph.should_draw(states, NodeId::default()));
}

#[test]
fn graph_and_states_follow_the_model_through_many_frames() {
    let mut dice = Dice(2024);
    let mut graph = NodeGraph::new();
    let mut states = GraphState::new();
    let mut model = Model::default();
    let mut ever: Vec<NodeId> = vec![NodeId::default()];

    for _ in 0..400 {
        let alive: Vec<NodeId> = graph.node_ids();
        if alive.is_empty() || dice.roll(10) == 0 {
            let id = graph.add_node_with_position();
            states.insert(id);
            assert!(!ever.contains(&id));
            ever.push(id);
            model.fathers.insert(id, None);
            model.states.insert(id, NodeState::UnSelected);
            model.buttons.insert(id, ButtonState::UnFold);
            agree(&graph, &states, &model, &ever);
            continue;
        }
        let pick = |dice: &mut Dice| alive[dice.roll(alive.len())];

        let mut response = GraphResponse::default();
        let mut node_requests: Vec<NodeResponse> = Vec::new();
        let mut button_requests: Vec<ButtonResponse> = Vec::new();
        let mut deleted: Vec<NodeId> = Vec::new();
        for _ in 0..dice.roll(4) {
            let id = pick(&mut dice);
            let request = match dice.roll(8) {
                0 => NodeResponse::AddNode(id),
                1 => NodeResponse::AddNode(id),
                2 => NodeResponse::Selected(id),
                3 => NodeResponse::UnSelected(id),
                4 => NodeResponse::EditNode(id),
                5 => NodeResponse::InvisibleNode(id),
                6 => NodeResponse::VisibleNode(id),
                _ => {
                    if dice.roll(3) == 0 {
                        deleted.push(id);
                        NodeResponse::DeleteNode(id)
                    } else {
                        NodeResponse::Nothing
                    }
                }
            };
            response.nodes_response.insert(request);
            node_requests.push(request);
        }
        for _ in 0..dice.roll(3) {
            let id = pick(&mut dice);
            if deleted.contains(&id) {
                continue;
            }
            let request = match dice.roll(3) {
                0 => ButtonResponse::FoldNode(id),
                1 => ButtonResponse::UnfoldNode(id),
                _ => ButtonResponse::Nothing,
            };
            response.buttons_response.insert(request);
            button_requests.push(request);
        }

        assert_eq!(response.nodes_response.to_vec(), node_requests);
        assert_eq!(response.buttons_response.to_vec(), button_requests);
        let added = handle_graph_response(&mut graph, &mut states, response).unwrap();

        let mut fathers = Vec::new();
        for request in &node_requests {
            match request {
                NodeResponse::AddNode(id) => fathers.push(*id),
                NodeResponse::Selected(id) => {
                    model.states.insert(*id, NodeState::Selected);
                }
                NodeResponse::UnSelected(id) => {
                    model.states.insert(*id, NodeState::UnSelected);
                }
                NodeResponse::EditNode(id) => {
                    model.states.insert(*id, NodeState::Editing);
                }
                NodeResponse::InvisibleNode(id) => {
                    model.states.insert(*id, NodeState::Invisible);
                }
                NodeResponse::VisibleNode(id) => {
                    model.states.insert(*id, NodeState::Visible);
                }
                NodeResponse::DeleteNode(_) | NodeResponse::Nothing => {}
            }
        }
        assert_eq!(added.len(), fathers.len());
        for (id, father) in added.iter().zip(fathers) {
            assert!(!ever.contains(id));
            ever.push(*id);
            model.fathers.insert(*id, Some(father));
            model.states.insert(*id, NodeState::UnSelected);
            model.buttons.insert(*id, ButtonState::UnFold);
        }
        for id in &deleted {
            model.delete(*id);
        }
        for request in &button_requests {
            let (id, button, state) = match request {
                ButtonResponse::FoldNode(id) => (*id, ButtonState::Fold, NodeState::Invisible),
                ButtonResponse::UnfoldNode(id) => (*id, ButtonState::UnFold, NodeState::Visible),
                ButtonResponse::Nothing => continue,
            };
            model.buttons.insert(id, button);
            for below in model.descendants(id) {
                model.states.insert(below, state);
            }
        }
        agree(&graph, &states, &model, &ever);
    }
    assert!(graph.len() > 20);
}
