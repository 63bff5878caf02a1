//! The model behind the window: the graph, its states, and what the last
//! frame asked for.

use vstd::prelude::*;
use crate::graph_state::GraphState;
use crate::keys::NodeId;
use crate::node::{ButtonState, Node, NodeState};
use crate::node_graph::{GraphResponse, NodeGraph};
use crate::store::capacity;

verus! {

/// The state of the application.
pub struct MyApp {
    pub node_graph: NodeGraph,
    pub graph_state: GraphState,
    pub graph_response: GraphResponse,
    /// Whether the window of the file menu is open.
    pub window_state: bool,
}

/// The number of nodes that `add_node` is asked for.
pub open spec fn asked(with_position: bool, father_node_id: Option<NodeId>) -> nat {
    (if with_position {
        1nat
    } else {
        0nat
    }) + (if father_node_id is Some {
        1nat
    } else {
        0nat
    })
}

/// The map `entries` with `value` under `id`, if there is an `id`.
pub open spec fn with_one<V>(entries: Map<NodeId, V>, id: Option<NodeId>, value: V) -> Map<NodeId, V> {
    match id {
        Some(id) => entries.insert(id, value),
        None => entries,
    }
}

/// `after` is `before` with a fresh root under `root`, if there is one, and
/// a fresh node below `father` under `child`, if there is one.
pub open spec fn planted(
    before: Map<NodeId, Node>,
    after: Map<NodeId, Node>,
    root: Option<NodeId>,
    child: Option<NodeId>,
    father: Option<NodeId>,
) -> bool {
    &&& root matches Some(id) ==> !before.dom().contains(id) && after.dom().contains(id) && after[id].fresh(
        id,
        None,
    )
    &&& child matches Some(id) ==> !before.dom().contains(id) && after.dom().contains(id) && after[id].fresh(
        id,
        father,
    )
    &&& root is Some && child is Some ==> root != child
    &&& forall|k: NodeId| #[trigger]
        after.dom().contains(k) <==> before.dom().contains(k) || root == Some(k) || child == Some(k)
    &&& forall|k: NodeId| #[trigger] before.dom().contains(k) ==> after[k] == before[k]
}

impl MyApp {
    /// The graph is a forest and the states are those of its nodes.
    pub open spec fn wf(&self) -> bool {
        &&& self.node_graph.wf()
        &&& self.graph_state.tracks(&self.node_graph)
    }

    /// Adds a root if `with_position` is set, and then a node below
    /// `father_node_id` if there is one. Each new node is unselected and its
    /// button unfolded. Returns the handle of the root and the handle of the
    /// node below the father.
    pub fn add_node(&mut self, with_position: bool, father_node_id: Option<NodeId>) -> (ids: (
        Option<NodeId>,
        Option<NodeId>,
    ))
        requires
            old(self).wf(),
            old(self).node_graph@.dom().len() + asked(with_position, father_node_id) <= capacity(),
            father_node_id matches Some(father) ==> old(self).node_graph@.dom().contains(father),
        ensures
            final(self).wf(),
            ids.0 is Some <==> with_position,
            ids.1 is Some <==> father_node_id is Some,
            planted(old(self).node_graph@, final(self).node_graph@, ids.0, ids.1, father_node_id),
            final(self).graph_state.node_states() == with_one(
                with_one(old(self).graph_state.node_states(), ids.0, NodeState::UnSelected),
                ids.1,
                NodeState::UnSelected,
            ),
            final(self).graph_state.button_states() == with_one(
                with_one(old(self).graph_state.button_states(), ids.0, ButtonState::UnFold),
                ids.1,
                ButtonState::UnFold,
            ),
            final(self).window_state == old(self).window_state,
            final(self).graph_response == old(self).graph_response,
    {
        let root = if with_position {
            let node_id = self.node_graph.add_node_with_position();
            self.graph_state.insert(node_id);
            Some(node_id)
        } else {
            None
        };
        let ghost rooted = self.node_graph@;
        proof {
            match root {
                Some(id) => {
                    assert(rooted.dom() =~= old(self).node_graph@.dom().insert(id));
                    assert forall|k: NodeId| #[trigger] old(self).node_graph@.dom().contains(k) implies rooted[k]
                        == old(self).node_graph@[k] by {
                        assert(rooted.remove(id)[k] == old(self).node_graph@[k]);
                    }
                },
                None => {},
            }
        }
        let child = match father_node_id {
            Some(id) => {
                let node_id = self.node_graph.add_node_with_father_node(id);
                self.graph_state.insert(node_id);
                Some(node_id)
            },
            None => None,
        };
        proof {
            match child {
                Some(id) => {
                    assert(self.node_graph@.dom() =~= rooted.dom().insert(id));
                    assert forall|k: NodeId| #[trigger] rooted.dom().contains(k) implies self.node_graph@[k]
                        == rooted[k] by {
                        assert(self.node_graph@.remove(id)[k] == rooted[k]);
                    }
                },
                None => {},
            }
        }
        (root, child)
    }
}

impl Default for MyApp {
    /// An empty graph, no requests, the window closed.
    fn default() -> (app: MyApp)
        ensures
            app.wf(),
            app.node_graph@ == (Map::<NodeId, Node>::empty()),
            app.graph_state.node_states() == (Map::<NodeId, NodeState>::empty()),
            app.graph_state.button_states() == (Map::<NodeId, ButtonState>::empty()),
            app.graph_response.wf(),
            app.graph_response.nodes_response@.len() == 0,
            app.graph_response.buttons_response@.len() == 0,
            !app.window_state,
    {
        let app = MyApp {
            node_graph: NodeGraph::default(),
            graph_state: GraphState::default(),
            graph_response: GraphResponse::default(),
            window_state: false,
        };
        assert(app.graph_state.node_states().dom() =~= app.node_graph@.dom());
        app
    }
}

} // verus!
