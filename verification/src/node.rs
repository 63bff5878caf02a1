//! A node of the graph, the states it can be in, and what it answers to the
//! pointer and the keyboard.

use vstd::prelude::*;
use crate::keys::NodeId;

verus! {

/// Visual state of a node.
#[derive(Clone, Copy, Debug)]
pub enum NodeState {
    Editing,
    Selected,
    UnSelected,
    Hover,
    Invisible,
    Visible,
}

impl PartialEq for NodeState {
    fn eq(&self, other: &Self) -> (r: bool) {
        match (self, other) {
            (NodeState::Invisible, NodeState::Invisible) => true,
            (NodeState::Visible, NodeState::Visible) => true,
            (NodeState::Hover, NodeState::Hover) => true,
            (NodeState::Editing, NodeState::Editing) => true,
            (NodeState::Selected, NodeState::Selected) => true,
            (NodeState::UnSelected, NodeState::UnSelected) => true,
            _ => false,
        }
    }
}

impl vstd::std_specs::cmp::PartialEqSpecImpl for NodeState {
    open spec fn obeys_eq_spec() -> bool {
        true
    }

    open spec fn eq_spec(&self, other: &Self) -> bool {
        *self == *other
    }
}

impl Eq for NodeState {}

/// What a node asks of the graph after a frame.
#[derive(Clone, Copy, Debug, PartialEq, Eq, Structural)]
pub enum NodeResponse {
    AddNode(NodeId),
    DeleteNode(NodeId),
    Selected(NodeId),
    UnSelected(NodeId),
    EditNode(NodeId),
    InvisibleNode(NodeId),
    VisibleNode(NodeId),
    /// The node asks for nothing.
    Nothing,
}

/// State of the button that folds the subtree below a node.
#[derive(Clone, Copy, Debug, PartialEq, Eq, Structural)]
pub enum ButtonState {
    Fold,
    UnFold,
}

/// What a fold button asks of the graph after a frame.
#[derive(Clone, Copy, Debug, PartialEq, Eq, Structural)]
pub enum ButtonResponse {
    FoldNode(NodeId),
    UnfoldNode(NodeId),
    /// The button asks for nothing.
    Nothing,
}

/// An opaque colour, by its red, green and blue parts.
#[derive(Clone, Copy, Debug, PartialEq, Eq, Structural)]
pub struct Color {
    pub r: u8,
    pub g: u8,
    pub b: u8,
}

impl Color {
    /// Fill of a node that is neither selected nor under the pointer.
    pub open spec fn plain() -> Color {
        Color { r: 150, g: 150, b: 250 }
    }

    /// Fill of a node under the pointer.
    pub open spec fn hover() -> Color {
        Color { r: 200, g: 150, b: 250 }
    }

    /// Fill of a selected node.
    pub open spec fn selected() -> Color {
        Color { r: 250, g: 0, b: 0 }
    }

    /// The grey with all three parts equal to `shade`.
    pub open spec fn grey(shade: u8) -> Color {
        Color { r: shade, g: shade, b: shade }
    }

    /// The colour with the given parts.
    pub fn from_rgb(r: u8, g: u8, b: u8) -> (c: Color)
        ensures
            c == (Color { r, g, b }),
    {
        Color { r, g, b }
    }
}

/// What the pointer and the keyboard did to a node during one frame.
#[derive(Clone, Copy, Debug, PartialEq, Eq, Structural)]
pub struct NodeInput {
    /// The text editor of the node gave up the keyboard focus.
    pub lost_focus: bool,
    /// The pointer is over the node.
    pub hovered: bool,
    /// The node was clicked.
    pub clicked: bool,
    /// The node was clicked twice in quick succession.
    pub double_clicked: bool,
    /// The tabulator key went down.
    pub tab_pressed: bool,
}

/// A node: a labelled, coloured box that may hang below another node.
#[derive(Debug)]
pub struct Node {
    pub node_id: NodeId,
    pub node_color: Color,
    pub node_text: String,
    pub father_id: Option<NodeId>,
}

/// The answer of a node in state `state` to `input`.
pub open spec fn reaction(id: NodeId, state: NodeState, input: NodeInput) -> NodeResponse {
    match state {
        NodeState::Editing => if input.lost_focus {
            NodeResponse::UnSelected(id)
        } else {
            NodeResponse::EditNode(id)
        },
        NodeState::Hover => if input.double_clicked {
            NodeResponse::EditNode(id)
        } else if input.clicked {
            NodeResponse::Selected(id)
        } else {
            NodeResponse::Nothing
        },
        NodeState::Selected => if input.clicked {
            NodeResponse::UnSelected(id)
        } else if input.tab_pressed {
            NodeResponse::AddNode(id)
        } else {
            NodeResponse::Nothing
        },
        _ => NodeResponse::Nothing,
    }
}

/// The state in which `input` leaves a node that was in state `state`: an
/// unselected node under the pointer starts to hover, every other state
/// waits for the graph to act on the node's answer.
pub open spec fn state_after(state: NodeState, input: NodeInput) -> NodeState {
    if state == NodeState::UnSelected && input.hovered {
        NodeState::Hover
    } else {
        state
    }
}

/// The fill that a node of fill `color` takes when it is shown in `state`.
pub open spec fn color_after(state: NodeState, color: Color) -> Color {
    match state {
        NodeState::Hover => Color::hover(),
        NodeState::Selected => Color::selected(),
        NodeState::UnSelected => Color::plain(),
        _ => color,
    }
}

/// The state of a fold button after a frame in which it was `clicked` or not.
pub open spec fn button_after(state: ButtonState, clicked: bool) -> ButtonState {
    if !clicked {
        state
    } else if state == ButtonState::UnFold {
        ButtonState::Fold
    } else {
        ButtonState::UnFold
    }
}

/// The answer of the fold button of node `id`, in state `state` before the
/// frame: a click reports the state that the button takes.
pub open spec fn button_reaction(id: NodeId, state: ButtonState, clicked: bool) -> ButtonResponse {
    if !clicked {
        ButtonResponse::Nothing
    } else if state == ButtonState::UnFold {
        ButtonResponse::FoldNode(id)
    } else {
        ButtonResponse::UnfoldNode(id)
    }
}

impl Node {
    /// The node with the given parts.
    pub fn new(node_id: NodeId, father_id: Option<NodeId>, node_color: Color, node_text: String) -> (node: Node)
        ensures
            node == (Node { node_id, node_color, node_text, father_id }),
    {
        Node { node_id, node_color, node_text, father_id }
    }

    /// A node as it is first shown: plain fill, the caption "text".
    pub open spec fn fresh(self, id: NodeId, father: Option<NodeId>) -> bool {
        &&& self.node_id == id
        &&& self.father_id == father
        &&& self.node_color == Color::plain()
        &&& self.node_text@ == "text"@
    }

    /// Paints the node in a random grey.
    pub fn set_color(&mut self)
        ensures
            exists|shade: u8| final(self).node_color == Color::grey(shade),
            final(self).node_id == old(self).node_id,
            final(self).node_text == old(self).node_text,
            final(self).father_id == old(self).father_id,
    {
        let shade = random_shade();
        self.set_grey(shade);
    }

    /// Paints the node in the grey of the given shade.
    pub fn set_grey(&mut self, shade: u8)
        ensures
            *final(self) == (Node { node_color: Color::grey(shade), ..*old(self) }),
    {
        self.node_color = Color { r: shade, g: shade, b: shade };
    }

    /// One frame in the life of the node: given what the pointer and the
    /// keyboard did to it, recolours the node, moves `node_state` on and
    /// returns what the node asks of the graph.
    pub fn draw(&mut self, node_state: &mut NodeState, input: NodeInput) -> (response: NodeResponse)
        ensures
            response == reaction(old(self).node_id, *old(node_state), input),
            *final(node_state) == state_after(*old(node_state), input),
            *final(self) == (Node {
                node_color: color_after(*old(node_state), old(self).node_color),
                ..*old(self)
            }),
    {
        match *node_state {
            NodeState::Editing => {
                return if input.lost_focus {
                    NodeResponse::UnSelected(self.node_id)
                } else {
                    NodeResponse::EditNode(self.node_id)
                };
            },
            NodeState::Hover => {
                self.node_color = Color { r: 200, g: 150, b: 250 };
                if input.double_clicked {
                    return NodeResponse::EditNode(self.node_id);
                }
                if input.clicked {
                    return NodeResponse::Selected(self.node_id);
                }
            },
            NodeState::Selected => {
                self.node_color = Color { r: 250, g: 0, b: 0 };
                if input.clicked {
                    return NodeResponse::UnSelected(self.node_id);
                }
                if input.tab_pressed {
                    return NodeResponse::AddNode(self.node_id);
                }
            },
            NodeState::UnSelected => {
                self.node_color = Color { r: 150, g: 150, b: 250 };
                if input.hovered {
                    *node_state = NodeState::Hover;
                }
            },
            _ => {},
        }
        NodeResponse::Nothing
    }

    /// One frame in the life of the node's fold button: a click toggles
    /// `button_state` and is reported to the graph.
    pub fn draw_button(&mut self, button_state: &mut ButtonState, clicked: bool) -> (response: ButtonResponse)
        ensures
            response == button_reaction(old(self).node_id, *old(button_state), clicked),
            *final(button_state) == button_after(*old(button_state), clicked),
            *final(self) == *old(self),
    {
        if clicked {
            match *button_state {
                ButtonState::UnFold => {
                    *button_state = ButtonState::Fold;
                    ButtonResponse::FoldNode(self.node_id)
                },
                ButtonState::Fold => {
                    *button_state = ButtonState::UnFold;
                    ButtonResponse::UnfoldNode(self.node_id)
                },
            }
        } else {
            ButtonResponse::Nothing
        }
    }
}

impl Default for Node {
    /// A plain node that hangs below no other and carries the null handle.
    fn default() -> (node: Node)
        ensures
            node.fresh(NodeId::null_id(), None),
    {
        Node {
            node_id: NodeId::default(),
            node_color: Color { r: 150, g: 150, b: 250 },
            node_text: "text".to_owned(),
            father_id: None,
        }
    }
}

/// `rand::Rng::gen_range` over `0..=255` on the generator of the current
/// thread (`rand::thread_rng`). Nothing is promised of the number drawn.
#[verifier::external_body]
fn random_shade() -> (shade: u8) {
    rand::Rng::gen_range(&mut rand::thread_rng(), 0..=255)
}

} // verus!
