//! A directed-graph container that permits cycles.
//!
//! Nodes live in an append-only arena addressed by index; an edge is stored
//! as the plain index of its target node. The arena is the sole owner of
//! every node, so a cycle of edges never forms a cycle of ownership, and a
//! neighbor lookup that cannot resolve its target treats the entry as absent
//! instead of failing.

use vstd::prelude::*;

verus! {

/// The mathematical model of one node: its value and its outgoing edges,
/// each edge the index of its target node, in insertion order.
#[verifier::ext_equal]
pub ghost struct NodeModel<T> {
    pub value: T,
    pub edges: Seq<usize>,
}

/// A node owned by the graph: one value and the ordered list of its
/// outgoing edges.
pub struct Node<T> {
    value: T,
    neighbors: Vec<usize>,
}

impl<T> Node<T> {
    /// The model of this node.
    pub closed spec fn model(&self) -> NodeModel<T> {
        NodeModel { value: self.value, edges: self.neighbors@ }
    }
}

/// A directed graph: an append-only sequence of nodes, addressed by the
/// index assigned at insertion. Indices are never reused and never change.
pub struct Graph<T> {
    nodes: Vec<Node<T>>,
}

impl<T> View for Graph<T> {
    type V = Seq<NodeModel<T>>;

    closed spec fn view(&self) -> Seq<NodeModel<T>> {
        self.nodes@.map(|i: int, n: Node<T>| n.model())
    }
}

/// The model of a graph after a node holding `value` is appended: one more
/// node, with no outgoing edges yet.
pub open spec fn add_node_model<T>(g: Seq<NodeModel<T>>, value: T) -> Seq<NodeModel<T>> {
    g.push(NodeModel { value, edges: Seq::empty() })
}

impl<T> Graph<T> {
    /// Every stored edge of every node addresses a node of the graph.
    pub open spec fn wf(&self) -> bool {
        wf_model(self@)
    }

    /// Creates a new, empty graph.
    pub fn new() -> (g: Self)
        ensures
            g@ == Seq::<NodeModel<T>>::empty(),
            g.wf(),
    {
        let g = Graph { nodes: Vec::new() };
        proof {
            assert(g@ =~= Seq::<NodeModel<T>>::empty());
        }
        g
    }

    /// Adds a node with the given value to the graph.
    /// Returns the index of the new node: the count of nodes added before it.
    pub fn add_node(&mut self, value: T) -> (index: usize)
        ensures
            index == old(self)@.len(),
            final(self)@ == add_node_model(old(self)@, value),
            old(self).wf() ==> final(self).wf(),
    {
        let node = Node { value, neighbors: Vec::new() };
        self.nodes.push(node);
        proof {
            assert(self@ =~~= add_node_model(old(self)@, value));
        }
        self.nodes.len() - 1
    }

    /// The number of nodes added so far. Edge creation demands indices below
    /// this count; callers that want a recoverable outcome check first.
    pub fn node_count(&self) -> (n: usize)
        ensures
            n == self@.len(),
    {
        self.nodes.len()
    }

    /// Adds an edge from the node at `from_index` to the node at `to_index`.
    /// Both indices must address existing nodes. The edge is appended at the
    /// end of the source node's edge list; a repeated edge and a self-loop
    /// are kept like any other entry.
    pub fn add_edge(&mut self, from_index: usize, to_index: usize)
        requires
            from_index < old(self)@.len(),
            to_index < old(self)@.len(),
        ensures
            final(self)@ == add_edge_model(old(self)@, from_index, to_index),
            old(self).wf() ==> final(self).wf(),
    {
        self.nodes[from_index].neighbors.push(to_index);
        proof {
            assert(self@ =~~= add_edge_model(old(self)@, from_index, to_index));
        }
    }

    /// Returns a clone of the value of the node at the given index, or
    /// `None` exactly when no node has that index.
    pub fn get_node_value(&self, index: usize) -> (res: Option<T>) where T: Clone
        ensures
            match res {
                Some(v) => index < self@.len() && cloned::<T>(self@[index as int].value, v),
                None => index >= self@.len(),
            },
    {
        if index < self.nodes.len() {
            Some(self.nodes[index].value.clone())
        } else {
            None
        }
    }

    /// Returns the values of the currently resolvable neighbors of the node
    /// at `index`, cloned at the moment of the call, in edge-insertion order;
    /// an edge whose target cannot be resolved is skipped. Returns `None`
    /// exactly when no node has that index. On a graph whose every edge is
    /// well formed, nothing is skipped: one value per stored edge.
    pub fn neighbors_of(&self, index: usize) -> (res: Option<Vec<T>>) where T: Clone
        ensures
            match res {
                Some(vals) => {
                    &&& index < self@.len()
                    &&& vals@.len() == live_targets(self@[index as int].edges, self@.len()).len()
                    &&& forall|k: int|
                        0 <= k < vals@.len() ==> cloned::<T>(
                            self@[live_targets(self@[index as int].edges, self@.len())[k] as int].value,
                            #[trigger] vals@[k],
                        )
                },
                None => index >= self@.len(),
            },
            self.wf() && index < self@.len() ==> live_targets(self@[index as int].edges, self@.len())
                == self@[index as int].edges,
    {
        if index >= self.nodes.len() {
            return None;
        }
        let ghost edges = self@[index as int].edges;
        let ghost n: nat = self@.len();
        let edge_count: usize = self.nodes[index].neighbors.len();
        let mut vals: Vec<T> = Vec::new();
        let mut i: usize = 0;
        while i < edge_count
            invariant
                index < self@.len(),
                edges == self@[index as int].edges,
                n == self@.len(),
                edge_count == edges.len(),
                i <= edge_count,
                vals@.len() == live_targets(edges.take(i as int), n).len(),
                forall|k: int|
                    0 <= k < vals@.len() ==> cloned::<T>(
                        self@[live_targets(edges.take(i as int), n)[k] as int].value,
                        #[trigger] vals@[k],
                    ),
            decreases edge_count - i,
        {
            let e: usize = self.nodes[index].neighbors[i];
            proof {
                assert(edges.take(i as int + 1).drop_last() =~= edges.take(i as int));
                assert(edges.take(i as int + 1).last() == edges[i as int]);
                lemma_live_targets_in_range(edges.take(i as int + 1), n);
            }
            if e < self.nodes.len() {
                vals.push(self.nodes[e].value.clone());
            }
            i += 1;
        }
        proof {
            assert(edges.take(edge_count as int) =~= edges);
            if self.wf() {
                assert forall|j: int| 0 <= j < edges.len() implies (#[trigger] edges[j] as nat)
                    < n by {
                    assert((self@[index as int].edges[j] as int) < self@.len());
                }
                lemma_live_targets_complete(edges, n);
            }
        }
        Some(vals)
    }
}

/// The model of a graph after an edge from node `from` to node `to` is
/// appended: the edge goes at the end of the source node's edge list, and
/// nothing else changes. Duplicates and self-loops are kept as issued.
pub open spec fn add_edge_model<T>(g: Seq<NodeModel<T>>, from: usize, to: usize) -> Seq<
    NodeModel<T>,
> {
    g.update(from as int, NodeModel { value: g[from as int].value, edges: g[from as int].edges.push(to) })
}

/// Every stored edge of every node of `g` addresses a node of `g`.
pub open spec fn wf_model<T>(g: Seq<NodeModel<T>>) -> bool {
    forall|i: int, j: int|
        0 <= i < g.len() && 0 <= j < g[i].edges.len() ==> (g[i].edges[j] as int) < g.len()
}

/// The edges among `edges` that resolve to a node of a graph of `n` nodes,
/// in their stored order. An edge whose target cannot be resolved is
/// skipped, never an error; in a graph whose every edge is well formed
/// nothing is skipped.
pub open spec fn live_targets(edges: Seq<usize>, n: nat) -> Seq<usize>
    decreases edges.len(),
{
    if edges.len() == 0 {
        Seq::empty()
    } else if (edges.last() as nat) < n {
        live_targets(edges.drop_last(), n).push(edges.last())
    } else {
        live_targets(edges.drop_last(), n)
    }
}

/// The model of a graph after nodes holding `values` are appended in order.
pub open spec fn add_nodes_model<T>(g: Seq<NodeModel<T>>, values: Seq<T>) -> Seq<NodeModel<T>>
    decreases values.len(),
{
    if values.len() == 0 {
        g
    } else {
        add_nodes_model(add_node_model(g, values[0]), values.drop_first())
    }
}

/// Law: inserting nodes never disturbs the nodes already present. Whatever
/// is inserted afterwards, an index keeps the node it was assigned to:
/// indices are stable and never reused.
pub proof fn lemma_add_nodes_keep_existing<T>(g: Seq<NodeModel<T>>, values: Seq<T>, i: int)
    requires
        0 <= i < g.len(),
    ensures
        add_nodes_model(g, values).len() == g.len() + values.len(),
        add_nodes_model(g, values)[i] == g[i],
    decreases values.len(),
{
    if values.len() > 0 {
        lemma_add_nodes_keep_existing(add_node_model(g, values[0]), values.drop_first(), i);
    }
}

/// Law: across any run of node insertions, the insertion at offset `k`
/// (counted from zero) is assigned index `g.len() + k` — on a graph that
/// started empty, the k-th call counted from one returns k - 1 — and that
/// index afterwards holds exactly the inserted value, with no edges of its
/// own yet.
pub proof fn lemma_add_node_indices<T>(g: Seq<NodeModel<T>>, values: Seq<T>, k: int)
    requires
        0 <= k < values.len(),
    ensures
        add_nodes_model(g, values).len() == g.len() + values.len(),
        add_nodes_model(g, values)[g.len() + k].value == values[k],
        add_nodes_model(g, values)[g.len() + k].edges == Seq::<usize>::empty(),
    decreases values.len(),
{
    let g1 = add_node_model(g, values[0]);
    if k == 0 {
        lemma_add_nodes_keep_existing(g1, values.drop_first(), g.len() as int);
    } else {
        lemma_add_node_indices(g1, values.drop_first(), k - 1);
    }
}

/// Every resolved target addresses one of the `n` nodes.
pub proof fn lemma_live_targets_in_range(edges: Seq<usize>, n: nat)
    ensures
        forall|k: int|
            0 <= k < live_targets(edges, n).len() ==> (#[trigger] live_targets(edges, n)[k] as nat)
                < n,
    decreases edges.len(),
{
    if edges.len() > 0 {
        lemma_live_targets_in_range(edges.drop_last(), n);
        let rest = live_targets(edges.drop_last(), n);
        assert forall|k: int|
            0 <= k < live_targets(edges, n).len() implies (#[trigger] live_targets(edges, n)[k]
            as nat) < n by {
            if k < rest.len() {
                assert(live_targets(edges, n)[k] == rest[k]);
            }
        }
    }
}

/// When every edge addresses one of the `n` nodes, resolution skips nothing:
/// the resolved targets are the edge list itself.
pub proof fn lemma_live_targets_complete(edges: Seq<usize>, n: nat)
    requires
        forall|j: int| 0 <= j < edges.len() ==> (#[trigger] edges[j] as nat) < n,
    ensures
        live_targets(edges, n) == edges,
    decreases edges.len(),
{
    if edges.len() == 0 {
        assert(live_targets(edges, n) =~= edges);
    } else {
        lemma_live_targets_complete(edges.drop_last(), n);
        assert(live_targets(edges, n) =~= edges);
    }
}

/// Law: adding an edge keeps the graph well formed, and reading the source
/// node's neighbors right afterwards resolves the old edge list with the new
/// target appended at the end — so the target's value is the last element of
/// the read-back, a self-loop (`from == to`) included.
pub proof fn lemma_add_edge_then_neighbors<T>(g: Seq<NodeModel<T>>, from: usize, to: usize)
    requires
        wf_model(g),
        from < g.len(),
        to < g.len(),
    ensures
        wf_model(add_edge_model(g, from, to)),
        live_targets(add_edge_model(g, from, to)[from as int].edges, add_edge_model(g, from, to).len())
            == g[from as int].edges.push(to),
        live_targets(add_edge_model(g, from, to)[from as int].edges, add_edge_model(g, from, to).len()).last()
            == to,
        add_edge_model(g, from, to)[to as int].value == g[to as int].value,
{
    let g2 = add_edge_model(g, from, to);
    assert forall|j: int| 0 <= j < g2[from as int].edges.len() implies (
    #[trigger] g2[from as int].edges[j] as nat) < g2.len() by {
        if j < g[from as int].edges.len() {
            assert((g[from as int].edges[j] as int) < g.len());
        }
    }
    lemma_live_targets_complete(g2[from as int].edges, g2.len());
}

/// Law: duplicate edges are preserved. Adding the same edge twice leaves two
/// entries at the end of the source node's edge list, and a neighbor read
/// resolves both: nothing is merged or dropped.
pub proof fn lemma_duplicate_edges_kept<T>(g: Seq<NodeModel<T>>, a: usize, b: usize)
    requires
        wf_model(g),
        a < g.len(),
        b < g.len(),
    ensures
        live_targets(
            add_edge_model(add_edge_model(g, a, b), a, b)[a as int].edges,
            add_edge_model(add_edge_model(g, a, b), a, b).len(),
        ) == g[a as int].edges.push(b).push(b),
{
    let g2 = add_edge_model(g, a, b);
    lemma_add_edge_then_neighbors(g, a, b);
    lemma_add_edge_then_neighbors(g2, a, b);
    assert(g2[a as int].edges == g[a as int].edges.push(b));
}

} // verus!
