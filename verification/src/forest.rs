//! The shape of a graph: fathers, children, ancestors and descendants, over
//! the map from handles to nodes.

use vstd::prelude::*;
use crate::keys::{in_slot_order, lemma_slot_order_is_unique, NodeId};
use crate::node::Node;

verus! {

/// The father of node `k`: none for a root, and none for a handle that names
/// no node.
pub open spec fn father_of(nodes: Map<NodeId, Node>, k: NodeId) -> Option<NodeId> {
    if nodes.dom().contains(k) {
        nodes[k].father_id
    } else {
        None
    }
}

/// The node reached from `k` by `n` steps from a node to its father, if the
/// walk does not end before.
pub open spec fn ancestor(nodes: Map<NodeId, Node>, k: NodeId, n: nat) -> Option<NodeId>
    decreases n,
{
    if n == 0 {
        Some(k)
    } else {
        match father_of(nodes, k) {
            Some(f) => ancestor(nodes, f, (n - 1) as nat),
            None => None,
        }
    }
}

/// `k` is a child of `father`.
pub open spec fn is_child(nodes: Map<NodeId, Node>, father: NodeId, k: NodeId) -> bool {
    father_of(nodes, k) == Some(father)
}

/// `k` hangs below `root`: one or more steps lead from `k` up to `root`.
pub open spec fn is_descendant(nodes: Map<NodeId, Node>, root: NodeId, k: NodeId) -> bool {
    exists|n: nat| n >= 1 && #[trigger] ancestor(nodes, k, n) == Some(root)
}

/// The children of `father`, in the order of their slots.
pub open spec fn children_in_order(nodes: Map<NodeId, Node>, father: NodeId) -> Seq<NodeId> {
    choose|ids: Seq<NodeId>| in_slot_order(ids) && forall|k: NodeId| ids.contains(k) <==> is_child(nodes, father, k)
}

/// Those of `ids` that do not occur in `found`, in the order of `ids`.
pub open spec fn unseen(ids: Seq<NodeId>, found: Seq<NodeId>) -> Seq<NodeId>
    decreases ids.len(),
{
    if ids.len() == 0 {
        ids
    } else {
        let before = unseen(ids.drop_last(), found);
        if found.contains(ids.last()) {
            before
        } else {
            before.push(ids.last())
        }
    }
}

/// The nodes found by a walk that has found `found` so far and has yet to
/// look below the nodes in `pending`: `steps` times over, the walk takes the
/// last pending node and adds those of its children that it has not found
/// before, to what it has found and to what is pending.
pub open spec fn walk(nodes: Map<NodeId, Node>, found: Seq<NodeId>, pending: Seq<NodeId>, steps: nat) -> Seq<
    NodeId,
>
    decreases steps,
{
    if steps == 0 || pending.len() == 0 {
        found
    } else {
        let fresh = unseen(children_in_order(nodes, pending.last()), found);
        walk(nodes, found + fresh, pending.drop_last() + fresh, (steps - 1) as nat)
    }
}

/// All that hangs below `root`, in the order in which a walk finds it that
/// starts from the children of `root` and has a step for every node.
pub open spec fn descendants_in_order(nodes: Map<NodeId, Node>, root: NodeId) -> Seq<NodeId> {
    walk(nodes, children_in_order(nodes, root), children_in_order(nodes, root), nodes.dom().len())
}

/// Every father that a node names is a node of the graph.
pub open spec fn fathers_present(nodes: Map<NodeId, Node>) -> bool {
    forall|k: NodeId| #[trigger] nodes.dom().contains(k) ==> match nodes[k].father_id {
        Some(f) => nodes.dom().contains(f),
        None => true,
    }
}

/// No node hangs below itself.
pub open spec fn acyclic(nodes: Map<NodeId, Node>) -> bool {
    forall|k: NodeId| #[trigger] nodes.dom().contains(k) ==> !is_descendant(nodes, k, k)
}

/// What hangs below a node is a node of the graph.
pub proof fn lemma_descendant_is_present(nodes: Map<NodeId, Node>, root: NodeId, k: NodeId)
    requires
        is_descendant(nodes, root, k),
    ensures
        nodes.dom().contains(k),
{
}

/// A child hangs below its father.
pub proof fn lemma_child_is_descendant(nodes: Map<NodeId, Node>, father: NodeId, k: NodeId)
    requires
        is_child(nodes, father, k),
    ensures
        is_descendant(nodes, father, k),
{
    assert(ancestor(nodes, father, 0) == Some(father));
    assert(ancestor(nodes, k, 1) == Some(father));
}

/// What hangs below a node hangs below whatever the node hangs below: a
/// child of a descendant of `root` is a descendant of `root`.
pub proof fn lemma_child_of_descendant(nodes: Map<NodeId, Node>, root: NodeId, d: NodeId, k: NodeId)
    requires
        is_descendant(nodes, root, d),
        is_child(nodes, d, k),
    ensures
        is_descendant(nodes, root, k),
{
    let n = choose|n: nat| n >= 1 && #[trigger] ancestor(nodes, d, n) == Some(root);
    assert(ancestor(nodes, k, n + 1) == Some(root));
}

/// A set that holds the children of `root` and the children of each of its
/// own members holds every descendant of `root`.
pub proof fn lemma_closed_set_holds_descendants(
    nodes: Map<NodeId, Node>,
    root: NodeId,
    found: Set<NodeId>,
    k: NodeId,
)
    requires
        forall|c: NodeId| is_child(nodes, root, c) ==> found.contains(c),
        forall|d: NodeId, c: NodeId| found.contains(d) && #[trigger] is_child(nodes, d, c) ==> found.contains(c),
        is_descendant(nodes, root, k),
    ensures
        found.contains(k),
{
    let n = choose|n: nat| n >= 1 && #[trigger] ancestor(nodes, k, n) == Some(root);
    lemma_closed_set_holds_descendants_at(nodes, root, found, k, n);
}

proof fn lemma_closed_set_holds_descendants_at(
    nodes: Map<NodeId, Node>,
    root: NodeId,
    found: Set<NodeId>,
    k: NodeId,
    n: nat,
)
    requires
        forall|c: NodeId| is_child(nodes, root, c) ==> found.contains(c),
        forall|d: NodeId, c: NodeId| found.contains(d) && #[trigger] is_child(nodes, d, c) ==> found.contains(c),
        n >= 1,
        ancestor(nodes, k, n) == Some(root),
    ensures
        found.contains(k),
    decreases n,
{
    let f = father_of(nodes, k)->Some_0;
    if n == 1 {
        assert(ancestor(nodes, f, 0) == Some(f));
        assert(is_child(nodes, root, k));
    } else {
        lemma_closed_set_holds_descendants_at(nodes, root, found, f, (n - 1) as nat);
        assert(is_child(nodes, f, k));
    }
}

/// The walk up from a node of a graph whose fathers are all present never
/// leaves the graph.
pub proof fn lemma_ancestor_is_present(nodes: Map<NodeId, Node>, k: NodeId, n: nat)
    requires
        fathers_present(nodes),
        nodes.dom().contains(k),
        ancestor(nodes, k, n) is Some,
    ensures
        nodes.dom().contains(ancestor(nodes, k, n)->Some_0),
    decreases n,
{
    if n > 0 {
        lemma_ancestor_is_present(nodes, father_of(nodes, k)->Some_0, (n - 1) as nat);
    }
}

/// Walks through two graphs that give every node the same father agree.
pub proof fn lemma_same_fathers_same_ancestors(a: Map<NodeId, Node>, b: Map<NodeId, Node>, k: NodeId, n: nat)
    requires
        forall|x: NodeId| father_of(a, x) == father_of(b, x),
    ensures
        ancestor(a, k, n) == ancestor(b, k, n),
    decreases n,
{
    if n > 0 {
        match father_of(a, k) {
            Some(f) => lemma_same_fathers_same_ancestors(a, b, f, (n - 1) as nat),
            None => {},
        }
    }
}

/// Two graphs that give every node the same father have the same
/// descendants, and the one is a forest if the other is.
pub proof fn lemma_same_fathers_same_shape(a: Map<NodeId, Node>, b: Map<NodeId, Node>)
    requires
        a.dom() == b.dom(),
        forall|x: NodeId| father_of(a, x) == father_of(b, x),
    ensures
        forall|root: NodeId, k: NodeId| is_descendant(a, root, k) == is_descendant(b, root, k),
        fathers_present(a) == fathers_present(b),
        acyclic(a) == acyclic(b),
{
    assert forall|root: NodeId, k: NodeId| is_descendant(a, root, k) == is_descendant(b, root, k) by {
        if is_descendant(a, root, k) {
            let n = choose|n: nat| n >= 1 && #[trigger] ancestor(a, k, n) == Some(root);
            lemma_same_fathers_same_ancestors(a, b, k, n);
        }
        if is_descendant(b, root, k) {
            let n = choose|n: nat| n >= 1 && #[trigger] ancestor(b, k, n) == Some(root);
            lemma_same_fathers_same_ancestors(a, b, k, n);
        }
    }
    assert(fathers_present(a) == fathers_present(b)) by {
        assert forall|k: NodeId| #[trigger] a.dom().contains(k) implies a[k].father_id == b[k].father_id by {
            assert(father_of(a, k) == father_of(b, k));
        }
    }
}

/// A new leaf leaves the walks up from the old nodes as they were.
pub proof fn lemma_leaf_keeps_ancestors(nodes: Map<NodeId, Node>, id: NodeId, leaf: Node, k: NodeId, n: nat)
    requires
        fathers_present(nodes),
        !nodes.dom().contains(id),
        nodes.dom().contains(k),
    ensures
        ancestor(nodes.insert(id, leaf), k, n) == ancestor(nodes, k, n),
    decreases n,
{
    if n > 0 {
        match father_of(nodes, k) {
            Some(f) => lemma_leaf_keeps_ancestors(nodes, id, leaf, f, (n - 1) as nat),
            None => {},
        }
    }
}

/// A forest with a new leaf, hung below one of its nodes or below none, is a
/// forest; what hung below an old node still does, and nothing else.
pub proof fn lemma_leaf_keeps_forest(nodes: Map<NodeId, Node>, id: NodeId, leaf: Node)
    requires
        fathers_present(nodes),
        acyclic(nodes),
        !nodes.dom().contains(id),
        leaf.father_id matches Some(f) ==> nodes.dom().contains(f),
    ensures
        fathers_present(nodes.insert(id, leaf)),
        acyclic(nodes.insert(id, leaf)),
        forall|root: NodeId, k: NodeId|
            nodes.dom().contains(k) ==> is_descendant(nodes.insert(id, leaf), root, k) == is_descendant(
                nodes,
                root,
                k,
            ),
{
    let grown = nodes.insert(id, leaf);
    assert forall|root: NodeId, k: NodeId| nodes.dom().contains(k) implies is_descendant(grown, root, k)
        == is_descendant(nodes, root, k) by {
        if is_descendant(grown, root, k) {
            let n = choose|n: nat| n >= 1 && #[trigger] ancestor(grown, k, n) == Some(root);
            lemma_leaf_keeps_ancestors(nodes, id, leaf, k, n);
        }
        if is_descendant(nodes, root, k) {
            let n = choose|n: nat| n >= 1 && #[trigger] ancestor(nodes, k, n) == Some(root);
            lemma_leaf_keeps_ancestors(nodes, id, leaf, k, n);
        }
    }
    assert forall|k: NodeId| #[trigger] grown.dom().contains(k) implies !is_descendant(grown, k, k) by {
        if k == id {
            if is_descendant(grown, id, id) {
                let n = choose|n: nat| n >= 1 && #[trigger] ancestor(grown, id, n) == Some(id);
                let f = leaf.father_id->Some_0;
                lemma_leaf_keeps_ancestors(nodes, id, leaf, f, (n - 1) as nat);
                lemma_ancestor_is_present(nodes, f, (n - 1) as nat);
            }
        }
    }
}

/// The father that a node keeps when the nodes in `gone` leave: none, if its
/// father is among them.
pub open spec fn kept_father(father: Option<NodeId>, gone: Set<NodeId>) -> Option<NodeId> {
    match father {
        Some(f) => if gone.contains(f) {
            None
        } else {
            father
        },
        None => None,
    }
}

/// The graph without the nodes in `gone`: they leave, and their children
/// become roots.
pub open spec fn without(nodes: Map<NodeId, Node>, gone: Set<NodeId>) -> Map<NodeId, Node> {
    Map::new(
        |k: NodeId| nodes.dom().contains(k) && !gone.contains(k),
        |k: NodeId| Node { father_id: kept_father(nodes[k].father_id, gone), ..nodes[k] },
    )
}

/// A walk up through the graph without `gone` is a walk up through the
/// whole graph.
pub proof fn lemma_without_keeps_walks(nodes: Map<NodeId, Node>, gone: Set<NodeId>, k: NodeId, n: nat)
    requires
        ancestor(without(nodes, gone), k, n) is Some,
    ensures
        ancestor(nodes, k, n) == ancestor(without(nodes, gone), k, n),
    decreases n,
{
    if n > 0 {
        let f = father_of(without(nodes, gone), k)->Some_0;
        lemma_without_keeps_walks(nodes, gone, f, (n - 1) as nat);
    }
}

/// A forest without some of its nodes is a forest, and what hangs below a
/// node in it hung below that node before.
pub proof fn lemma_without_keeps_forest(nodes: Map<NodeId, Node>, gone: Set<NodeId>)
    requires
        fathers_present(nodes),
        acyclic(nodes),
    ensures
        fathers_present(without(nodes, gone)),
        acyclic(without(nodes, gone)),
        forall|root: NodeId, k: NodeId|
            is_descendant(without(nodes, gone), root, k) ==> is_descendant(nodes, root, k),
{
    let rest = without(nodes, gone);
    assert forall|root: NodeId, k: NodeId| is_descendant(rest, root, k) implies is_descendant(nodes, root, k) by {
        let n = choose|n: nat| n >= 1 && #[trigger] ancestor(rest, k, n) == Some(root);
        lemma_without_keeps_walks(nodes, gone, k, n);
    }
    assert forall|k: NodeId| #[trigger] rest.dom().contains(k) implies match rest[k].father_id {
        Some(f) => rest.dom().contains(f),
        None => true,
    } by {
        assert(nodes.dom().contains(k));
    }
    assert forall|k: NodeId| #[trigger] rest.dom().contains(k) implies !is_descendant(rest, k, k) by {
        assert(nodes.dom().contains(k));
    }
}

/// Taking nodes away in two goes is taking them away at once.
pub proof fn lemma_without_twice(nodes: Map<NodeId, Node>, first: Set<NodeId>, second: Set<NodeId>)
    ensures
        without(without(nodes, first), second) == without(nodes, first.union(second)),
{
    assert(without(without(nodes, first), second) =~= without(nodes, first.union(second)));
}

/// What `unseen` keeps of `ids` occurs in `ids` and not in `found`.
pub proof fn lemma_unseen_are_members(ids: Seq<NodeId>, found: Seq<NodeId>)
    ensures
        forall|k: NodeId| #[trigger] unseen(ids, found).contains(k) ==> ids.contains(k) && !found.contains(k),
    decreases ids.len(),
{
    if ids.len() > 0 {
        lemma_unseen_are_members(ids.drop_last(), found);
        assert forall|k: NodeId| #[trigger] unseen(ids, found).contains(k) implies ids.contains(k)
            && !found.contains(k) by {
            let kept = unseen(ids, found);
            let i = choose|i: int| 0 <= i < kept.len() && kept[i] == k;
            if !found.contains(ids.last()) && i == kept.len() - 1 {
                assert(ids[ids.len() - 1] == k);
            } else {
                assert(unseen(ids.drop_last(), found)[i] == k);
                assert(unseen(ids.drop_last(), found).contains(k));
                let p = choose|p: int| 0 <= p < ids.drop_last().len() && ids.drop_last()[p] == k;
                assert(ids[p] == k);
            }
        }
    }
}

/// A sequence in the order of its slots whose members are the children of
/// `father` is the sequence of the children of `father`.
pub proof fn lemma_children_in_order(nodes: Map<NodeId, Node>, father: NodeId, ids: Seq<NodeId>)
    requires
        in_slot_order(ids),
        forall|k: NodeId| ids.contains(k) <==> is_child(nodes, father, k),
    ensures
        ids == children_in_order(nodes, father),
{
    let chosen = children_in_order(nodes, father);
    assert(in_slot_order(chosen) && forall|k: NodeId| chosen.contains(k) <==> is_child(nodes, father, k));
    lemma_slot_order_is_unique(ids, chosen);
}

/// A sequence without repetitions that stays inside a finite set is no
/// longer than the set is large.
pub proof fn lemma_distinct_members_are_few(ids: Seq<NodeId>, all: Set<NodeId>)
    requires
        all.finite(),
        ids.no_duplicates(),
        forall|i: int| 0 <= i < ids.len() ==> all.contains(#[trigger] ids[i]),
    ensures
        ids.len() <= all.len(),
{
    ids.unique_seq_to_set();
    assert(ids.to_set().subset_of(all)) by {
        assert forall|k: NodeId| ids.to_set().contains(k) implies all.contains(k) by {
            let i = choose|i: int| 0 <= i < ids.len() && ids[i] == k;
            assert(all.contains(ids[i]));
        }
    }
    vstd::set_lib::lemma_len_subset(ids.to_set(), all);
}

/// Walking up `i` steps and then `m` more is walking up `i + m` steps.
pub proof fn lemma_ancestor_of_ancestor(nodes: Map<NodeId, Node>, k: NodeId, i: nat, m: nat)
    requires
        ancestor(nodes, k, i) is Some,
    ensures
        ancestor(nodes, k, i + m) == ancestor(nodes, ancestor(nodes, k, i)->Some_0, m),
    decreases i,
{
    if i > 0 {
        let f = father_of(nodes, k)->Some_0;
        lemma_ancestor_of_ancestor(nodes, f, (i - 1) as nat, m);
        assert(ancestor(nodes, k, i + m) == ancestor(nodes, f, (i + m - 1) as nat));
    }
}

/// A walk up that takes `n` steps takes every smaller number of steps.
pub proof fn lemma_ancestor_on_the_way(nodes: Map<NodeId, Node>, k: NodeId, i: nat, n: nat)
    requires
        i <= n,
        ancestor(nodes, k, n) is Some,
    ensures
        ancestor(nodes, k, i) is Some,
    decreases i,
{
    if i > 0 {
        let f = father_of(nodes, k)->Some_0;
        lemma_ancestor_on_the_way(nodes, f, (i - 1) as nat, (n - 1) as nat);
    }
}

/// In a finite forest the walk up from a node takes fewer steps than the
/// forest has nodes.
pub proof fn lemma_walk_up_is_short(nodes: Map<NodeId, Node>, k: NodeId, n: nat)
    requires
        nodes.dom().finite(),
        fathers_present(nodes),
        acyclic(nodes),
        nodes.dom().contains(k),
        ancestor(nodes, k, n) is Some,
    ensures
        n < nodes.dom().len(),
{
    let path = Seq::new(n + 1, |i: int| ancestor(nodes, k, i as nat)->Some_0);
    assert forall|i: int| 0 <= i < path.len() implies nodes.dom().contains(#[trigger] path[i]) by {
        lemma_ancestor_on_the_way(nodes, k, i as nat, n);
        lemma_ancestor_is_present(nodes, k, i as nat);
    }
    assert forall|i: int, j: int| 0 <= i < j < path.len() implies path[i] != path[j] by {
        lemma_ancestor_on_the_way(nodes, k, i as nat, n);
        lemma_ancestor_on_the_way(nodes, k, j as nat, n);
        lemma_ancestor_of_ancestor(nodes, k, i as nat, (j - i) as nat);
        if path[i] == path[j] {
            assert(ancestor(nodes, path[i], (j - i) as nat) == Some(path[i]));
            assert(is_descendant(nodes, path[i], path[i]));
        }
    }
    lemma_distinct_members_are_few(path, nodes.dom());
}

} // verus!
