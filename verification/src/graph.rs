use vstd::prelude::*;

use std::collections::HashMap;

use petgraph::algo::dominators;
use petgraph::graph::{EdgeIndex, NodeIndex};
use petgraph::stable_graph::StableGraph;
use petgraph::visit::{Dfs, DfsPostOrder, EdgeRef, NodeFiltered, Reversed, Walker};
use petgraph::Directed;

use crate::cfg_recovery::cfg::EdgeLabel;

verus! {

broadcast use vstd::std_specs::hash::group_hash_axioms;

#[verifier::external_type_specification]
#[verifier::external_body]
#[verifier::reject_recursive_types(N)]
#[verifier::reject_recursive_types(E)]
#[verifier::reject_recursive_types(Ty)]
#[verifier::reject_recursive_types(Ix)]
pub struct ExStableGraph<N, E, Ty, Ix>(StableGraph<N, E, Ty, Ix>);

#[verifier::external_type_specification]
#[verifier::external_body]
pub struct ExDirected(Directed);

/// The petgraph graph that every control-flow graph of this crate is stored in: nodes carry
/// the key of the block or region they stand for, edges carry an [`EdgeLabel`].
pub type Sg = StableGraph<usize, EdgeLabel, Directed, u32>;

/// The nodes of a graph: node index to node weight.
pub uninterp spec fn sg_nodes(g: Sg) -> Map<nat, usize>;

/// The edges of a graph: edge index to (source, target, weight).
pub uninterp spec fn sg_edges(g: Sg) -> Map<nat, (nat, nat, EdgeLabel)>;

/// Edge direction, as petgraph names it.
#[derive(Clone, Copy, PartialEq, Eq, Debug)]
pub enum Direction {
    Outgoing,
    Incoming,
}

/// What a `StableGraph` keeps true of itself: finitely many nodes and edges, indices below the
/// end marker, and edges only between nodes that exist.
pub open spec fn sg_wf(g: Sg) -> bool {
    &&& sg_nodes(g).dom().finite()
    &&& sg_edges(g).dom().finite()
    &&& forall|n: nat| #[trigger] sg_nodes(g).contains_key(n) ==> n < u32::MAX
    &&& forall|e: nat| #[trigger]
        sg_edges(g).contains_key(e) ==> e < u32::MAX && sg_nodes(g).contains_key(sg_edges(g)[e].0)
            && sg_nodes(g).contains_key(sg_edges(g)[e].1)
}

pub open spec fn has_edge(g: Sg, a: nat, b: nat) -> bool {
    exists|e: nat| #[trigger]
        sg_edges(g).contains_key(e) && sg_edges(g)[e].0 == a && sg_edges(g)[e].1 == b
}

/// The end of edge `e` that lies away from the node it is listed under in direction `dir`.
pub open spec fn far_end(g: Sg, e: nat, dir: Direction) -> nat {
    match dir {
        Direction::Outgoing => sg_edges(g)[e].1,
        Direction::Incoming => sg_edges(g)[e].0,
    }
}

/// The end of edge `e` that it is listed under in direction `dir`.
pub open spec fn near_end(g: Sg, e: nat, dir: Direction) -> nat {
    match dir {
        Direction::Outgoing => sg_edges(g)[e].0,
        Direction::Incoming => sg_edges(g)[e].1,
    }
}

/// The edges listed under node `n` in direction `dir`.
pub open spec fn edges_at(g: Sg, n: nat, dir: Direction) -> Set<nat> {
    Set::new(|e: nat| sg_edges(g).contains_key(e) && near_end(g, e, dir) == n)
}

/// The neighbours of `n` in direction `dir`.
pub open spec fn neighbor_set(g: Sg, n: nat, dir: Direction) -> Set<nat> {
    Set::new(|m: nat| exists|e: nat| #[trigger] edges_at(g, n, dir).contains(e) && far_end(g, e, dir) == m)
}

/// `p` is a walk through `nodes` along the relation `rel`.
pub open spec fn is_walk(nodes: Set<nat>, rel: spec_fn(nat, nat) -> bool, p: Seq<nat>) -> bool {
    &&& p.len() > 0
    &&& forall|i: int| 0 <= i < p.len() ==> nodes.contains(#[trigger] p[i])
    &&& forall|i: int| 0 <= i < p.len() - 1 ==> rel(#[trigger] p[i], p[i + 1])
}

pub open spec fn reaches(nodes: Set<nat>, rel: spec_fn(nat, nat) -> bool, a: nat, b: nat) -> bool {
    exists|p: Seq<nat>| #[trigger] is_walk(nodes, rel, p) && p[0] == a && p.last() == b
}

/// Every walk from `root` to `n` passes through `d`, and there is such a walk.
pub open spec fn dominated_by(
    nodes: Set<nat>,
    rel: spec_fn(nat, nat) -> bool,
    root: nat,
    d: nat,
    n: nat,
) -> bool {
    &&& reaches(nodes, rel, root, n)
    &&& forall|p: Seq<nat>| #[trigger]
        is_walk(nodes, rel, p) && p[0] == root && p.last() == n ==> p.contains(d)
}

/// `d` is the immediate dominator of `n`: a strict dominator that every other strict dominator
/// of `n` dominates.
pub open spec fn is_immediate_dominator(
    nodes: Set<nat>,
    rel: spec_fn(nat, nat) -> bool,
    root: nat,
    d: nat,
    n: nat,
) -> bool {
    &&& d != n
    &&& dominated_by(nodes, rel, root, d, n)
    &&& forall|x: nat|
        x != n && #[trigger] dominated_by(nodes, rel, root, x, n) ==> dominated_by(nodes, rel, root, x, d)
}

pub open spec fn forward(g: Sg) -> spec_fn(nat, nat) -> bool {
    |a: nat, b: nat| has_edge(g, a, b)
}

pub open spec fn backward(g: Sg) -> spec_fn(nat, nat) -> bool {
    |a: nat, b: nat| has_edge(g, b, a)
}

pub open spec fn node_set(g: Sg) -> Set<nat> {
    sg_nodes(g).dom()
}

/// The idom chain starting at `n` reaches `root` within `k` steps.
pub open spec fn chain_reaches_root(idom: Map<usize, usize>, root: usize, n: usize, k: nat) -> bool
    decreases k,
{
    if n == root {
        true
    } else if k == 0 {
        false
    } else {
        idom.contains_key(n) && chain_reaches_root(idom, root, idom[n], (k - 1) as nat)
    }
}

/// `idom` maps every node other than `root` that `rel` reaches from `root` to its immediate
/// dominator, and nothing else.
pub open spec fn is_dominator_tree(
    nodes: Set<nat>,
    rel: spec_fn(nat, nat) -> bool,
    root: usize,
    idom: Map<usize, usize>,
) -> bool {
    &&& forall|n: usize| #[trigger]
        idom.contains_key(n) <==> (n != root && reaches(nodes, rel, root as nat, n as nat))
    &&& forall|n: usize| #[trigger]
        idom.contains_key(n) ==> is_immediate_dominator(nodes, rel, root as nat, idom[n] as nat, n as nat)
    &&& forall|n: usize| #[trigger]
        idom.contains_key(n) ==> chain_reaches_root(idom, root, n, nodes.len())
}

/// The nodes that `start` reaches along the edges of `g`.
pub open spec fn reachable_from(g: Sg, start: nat) -> Set<nat> {
    node_set(g).filter(|n: nat| reaches(node_set(g), forward(g), start, n))
}

/// A node that a walk reaches is a node of the graph.
pub proof fn lemma_reached_is_node(nodes: Set<nat>, rel: spec_fn(nat, nat) -> bool, a: nat, b: nat)
    requires
        reaches(nodes, rel, a, b),
    ensures
        nodes.contains(a),
        nodes.contains(b),
{
    let p = choose|p: Seq<nat>| #[trigger] is_walk(nodes, rel, p) && p[0] == a && p.last() == b;
    assert(nodes.contains(p[0]));
    assert(nodes.contains(p[p.len() - 1]));
}

/// The far end of an edge at `n` is a node.
pub proof fn lemma_edge_neighbor_is_node(g: Sg, n: nat, m: nat, dir: Direction)
    requires
        sg_wf(g),
        neighbor_set(g, n, dir).contains(m),
    ensures
        sg_nodes(g).contains_key(m),
        sg_nodes(g).contains_key(n),
{
    let e = choose|e: nat| #[trigger] edges_at(g, n, dir).contains(e) && far_end(g, e, dir) == m;
    assert(sg_edges(g).contains_key(e));
}

pub open spec fn strictly_ascending(s: Seq<usize>) -> bool {
    forall|i: int, j: int| 0 <= i < j < s.len() ==> s[i] < s[j]
}

// ---------------------------------------------------------------------------------------------
// Trusted items over petgraph's `StableGraph`.
// ---------------------------------------------------------------------------------------------

/// `StableGraph::with_capacity`: an empty graph.
#[verifier::external_body]
pub(crate) fn sg_with_capacity(nodes: usize, edges: usize) -> (res: Sg)
    ensures
        sg_wf(res),
        sg_nodes(res).dom() == Set::<nat>::empty(),
        sg_edges(res).dom() == Set::<nat>::empty(),
{
    StableGraph::with_capacity(nodes, edges)
}

/// `StableGraph::add_node`: adds a node under an index that no node holds, and returns it.
/// It panics only when the graph already holds the maximum number of nodes.
#[verifier::external_body]
pub(crate) fn sg_add_node(g: &mut Sg, weight: usize) -> (res: usize)
    requires
        sg_wf(*old(g)),
        sg_nodes(*old(g)).dom().len() < u32::MAX - 1,
    ensures
        sg_wf(*final(g)),
        !sg_nodes(*old(g)).contains_key(res as nat),
        sg_nodes(*final(g)) == sg_nodes(*old(g)).insert(res as nat, weight),
        sg_edges(*final(g)) == sg_edges(*old(g)),
{
    g.add_node(weight).index()
}

/// `StableGraph::remove_node`: removes the node and every edge that touches it, and returns its
/// weight; `None`, with the graph unchanged, where there is no such node.
#[verifier::external_body]
pub(crate) fn sg_remove_node(g: &mut Sg, node: usize) -> (res: Option<usize>)
    requires
        sg_wf(*old(g)),
        node < u32::MAX,
    ensures
        sg_wf(*final(g)),
        res == (if sg_nodes(*old(g)).contains_key(node as nat) {
            Some(sg_nodes(*old(g))[node as nat])
        } else {
            None
        }),
        sg_nodes(*final(g)) == sg_nodes(*old(g)).remove(node as nat),
        sg_edges(*final(g)) == sg_edges(*old(g)).restrict(
            sg_edges(*old(g)).dom().filter(
                |e: nat| sg_edges(*old(g))[e].0 != node && sg_edges(*old(g))[e].1 != node,
            ),
        ),
{
    g.remove_node(NodeIndex::new(node))
}

/// `StableGraph::add_edge`: adds an edge between two existing nodes under an index that no edge
/// holds. It panics where a node is missing or the graph holds the maximum number of edges.
#[verifier::external_body]
pub(crate) fn sg_add_edge(g: &mut Sg, a: usize, b: usize, weight: EdgeLabel) -> (res: usize)
    requires
        sg_wf(*old(g)),
        sg_nodes(*old(g)).contains_key(a as nat),
        sg_nodes(*old(g)).contains_key(b as nat),
        sg_edges(*old(g)).dom().len() < u32::MAX - 1,
    ensures
        sg_wf(*final(g)),
        !sg_edges(*old(g)).contains_key(res as nat),
        sg_edges(*final(g)) == sg_edges(*old(g)).insert(res as nat, (a as nat, b as nat, weight)),
        sg_nodes(*final(g)) == sg_nodes(*old(g)),
{
    g.add_edge(NodeIndex::new(a), NodeIndex::new(b), weight).index()
}

/// `StableGraph::remove_edge`: removes the edge and returns its weight; `None`, with the graph
/// unchanged, where there is no such edge.
#[verifier::external_body]
pub(crate) fn sg_remove_edge(g: &mut Sg, e: usize) -> (res: Option<EdgeLabel>)
    requires
        sg_wf(*old(g)),
        e < u32::MAX,
    ensures
        sg_wf(*final(g)),
        res == (if sg_edges(*old(g)).contains_key(e as nat) {
            Some(sg_edges(*old(g))[e as nat].2)
        } else {
            None
        }),
        sg_edges(*final(g)) == sg_edges(*old(g)).remove(e as nat),
        sg_nodes(*final(g)) == sg_nodes(*old(g)),
{
    g.remove_edge(EdgeIndex::new(e))
}

/// `StableGraph::node_weight`.
#[verifier::external_body]
pub(crate) fn sg_node_weight(g: &Sg, n: usize) -> (res: Option<usize>)
    requires
        n < u32::MAX,
    ensures
        res == (if sg_nodes(*g).contains_key(n as nat) {
            Some(sg_nodes(*g)[n as nat])
        } else {
            None
        }),
{
    g.node_weight(NodeIndex::new(n)).copied()
}

/// `StableGraph::edge_weight`.
#[verifier::external_body]
pub(crate) fn sg_edge_weight(g: &Sg, e: usize) -> (res: Option<&EdgeLabel>)
    requires
        e < u32::MAX,
    ensures
        res == (if sg_edges(*g).contains_key(e as nat) {
            Some(&sg_edges(*g)[e as nat].2)
        } else {
            None
        }),
{
    g.edge_weight(EdgeIndex::new(e))
}

/// `StableGraph::edge_endpoints`.
#[verifier::external_body]
pub(crate) fn sg_edge_endpoints(g: &Sg, e: usize) -> (res: Option<(usize, usize)>)
    requires
        sg_wf(*g),
        e < u32::MAX,
    ensures
        res.is_some() == sg_edges(*g).contains_key(e as nat),
        res matches Some(p) ==> p.0 as nat == sg_edges(*g)[e as nat].0 && p.1 as nat
            == sg_edges(*g)[e as nat].1,
{
    g.edge_endpoints(EdgeIndex::new(e)).map(|(a, b)| (a.index(), b.index()))
}

/// `StableGraph::find_edge`: some edge from `a` to `b`, `None` where there is none.
#[verifier::external_body]
pub(crate) fn sg_find_edge(g: &Sg, a: usize, b: usize) -> (res: Option<usize>)
    requires
        sg_wf(*g),
        a < u32::MAX,
        b < u32::MAX,
    ensures
        res.is_none() <==> !has_edge(*g, a as nat, b as nat),
        res matches Some(e) ==> sg_edges(*g).contains_key(e as nat) && sg_edges(*g)[e as nat].0
            == a && sg_edges(*g)[e as nat].1 == b,
{
    g.find_edge(NodeIndex::new(a), NodeIndex::new(b)).map(|e| e.index())
}

/// `StableGraph::edges_directed`: the indices of the edges listed under `n` in direction `dir`,
/// each once.
#[verifier::external_body]
pub(crate) fn sg_edges_directed(g: &Sg, n: usize, dir: Direction) -> (res: Vec<usize>)
    requires
        sg_wf(*g),
        n < u32::MAX,
    ensures
        res@.no_duplicates(),
        forall|e: usize| #[trigger] res@.contains(e) <==> edges_at(*g, n as nat, dir).contains(e as nat),
{
    let d = match dir {
        Direction::Outgoing => petgraph::Direction::Outgoing,
        Direction::Incoming => petgraph::Direction::Incoming,
    };
    g.edges_directed(NodeIndex::new(n), d).map(|e| e.id().index()).collect()
}

/// `StableGraph::node_indices`: the indices of all nodes, in ascending order.
#[verifier::external_body]
pub(crate) fn sg_node_indices(g: &Sg) -> (res: Vec<usize>)
    requires
        sg_wf(*g),
    ensures
        strictly_ascending(res@),
        forall|n: usize| #[trigger] res@.contains(n) <==> sg_nodes(*g).contains_key(n as nat),
{
    g.node_indices().map(|n| n.index()).collect()
}

/// `StableGraph::edge_indices`: the indices of all edges, in ascending order.
#[verifier::external_body]
pub(crate) fn sg_edge_indices(g: &Sg) -> (res: Vec<usize>)
    requires
        sg_wf(*g),
    ensures
        strictly_ascending(res@),
        forall|e: usize| #[trigger] res@.contains(e) <==> sg_edges(*g).contains_key(e as nat),
{
    g.edge_indices().map(|e| e.index()).collect()
}

/// `StableGraph::externals`: the nodes that list no edge in direction `dir`, in ascending
/// order of index.
#[verifier::external_body]
pub(crate) fn sg_externals(g: &Sg, dir: Direction) -> (res: Vec<usize>)
    requires
        sg_wf(*g),
    ensures
        strictly_ascending(res@),
        forall|n: usize| #[trigger]
            res@.contains(n) <==> (sg_nodes(*g).contains_key(n as nat) && edges_at(
                *g,
                n as nat,
                dir,
            ).is_empty()),
{
    let d = match dir {
        Direction::Outgoing => petgraph::Direction::Outgoing,
        Direction::Incoming => petgraph::Direction::Incoming,
    };
    g.externals(d).map(|n| n.index()).collect()
}

/// `StableGraph::node_count`.
#[verifier::external_body]
pub(crate) fn sg_node_count(g: &Sg) -> (res: usize)
    requires
        sg_wf(*g),
    ensures
        res as nat == sg_nodes(*g).dom().len(),
{
    g.node_count()
}

/// `StableGraph::edge_count`.
#[verifier::external_body]
pub(crate) fn sg_edge_count(g: &Sg) -> (res: usize)
    requires
        sg_wf(*g),
    ensures
        res as nat == sg_edges(*g).dom().len(),
{
    g.edge_count()
}

/// Whether `keep` keeps node `n`.
pub fn keep_node(keep: &Vec<bool>, n: usize, weight: usize) -> (res: Option<usize>)
    ensures
        res == (if n < keep@.len() && keep@[n as int] {
            Some(weight)
        } else {
            None
        }),
{
    if n < keep.len() && keep[n] {
        Some(weight)
    } else {
        None
    }
}

/// Keeps an edge weight as it is.
pub fn keep_edge(label: &EdgeLabel) -> (res: EdgeLabel)
    ensures
        res == *label,
{
    label.clone()
}

/// `StableGraph::filter_map` with a node map that keeps the nodes that `keep` marks and an edge
/// map that keeps every edge: the subgraph on the kept nodes, under the same indices.
#[verifier::external_body]
pub(crate) fn sg_keep_nodes(g: &Sg, keep: &Vec<bool>) -> (res: Sg)
    requires
        sg_wf(*g),
    ensures
        sg_wf(res),
        sg_nodes(res) == sg_nodes(*g).restrict(
            sg_nodes(*g).dom().filter(|n: nat| n < keep@.len() && keep@[n as int]),
        ),
        sg_edges(res) == sg_edges(*g).restrict(
            sg_edges(*g).dom().filter(
                |e: nat|
                    sg_edges(*g)[e].0 < keep@.len() && keep@[sg_edges(*g)[e].0 as int]
                        && sg_edges(*g)[e].1 < keep@.len() && keep@[sg_edges(*g)[e].1 as int],
            ),
        ),
{
    g.filter_map(|n, w| keep_node(keep, n.index(), *w), |_, l| Some(keep_edge(l)))
}

/// `StableGraph::clone`.
#[verifier::external_body]
pub(crate) fn sg_clone(g: &Sg) -> (res: Sg)
    ensures
        sg_nodes(res) == sg_nodes(*g),
        sg_edges(res) == sg_edges(*g),
{
    g.clone()
}

/// `petgraph::visit::Dfs` from `start`: every node reachable from `start`, each once.
#[verifier::external_body]
pub(crate) fn sg_dfs(g: &Sg, start: usize) -> (res: Vec<usize>)
    requires
        sg_wf(*g),
        sg_nodes(*g).contains_key(start as nat),
    ensures
        res@.no_duplicates(),
        forall|n: usize| #[trigger]
            res@.contains(n) <==> reaches(node_set(*g), forward(*g), start as nat, n as nat),
{
    Dfs::new(g, NodeIndex::new(start)).iter(g).map(|n| n.index()).collect()
}

/// `petgraph::visit::DfsPostOrder` from `start`: every node reachable from `start`, each once.
#[verifier::external_body]
pub(crate) fn sg_dfs_post_order(g: &Sg, start: usize) -> (res: Vec<usize>)
    requires
        sg_wf(*g),
        sg_nodes(*g).contains_key(start as nat),
    ensures
        res@.no_duplicates(),
        forall|n: usize| #[trigger]
            res@.contains(n) <==> reaches(node_set(*g), forward(*g), start as nat, n as nat),
{
    DfsPostOrder::new(g, NodeIndex::new(start)).iter(g).map(|n| n.index()).collect()
}

/// Whether node `n` is other than `avoid`.
pub fn not_avoided(n: usize, avoid: usize) -> (res: bool)
    ensures
        res == (n != avoid),
{
    n != avoid
}

/// `petgraph::visit::Dfs` from `start` over the reversed graph with node `avoid` filtered out:
/// every node from which `start` is reachable without passing through `avoid`, each once.
#[verifier::external_body]
pub(crate) fn sg_reverse_dfs_avoiding(g: &Sg, start: usize, avoid: usize) -> (res: Vec<usize>)
    requires
        sg_wf(*g),
        sg_nodes(*g).contains_key(start as nat),
        start != avoid,
    ensures
        res@.no_duplicates(),
        forall|n: usize| #[trigger]
            res@.contains(n) <==> reaches(
                node_set(*g).remove(avoid as nat),
                backward(*g),
                start as nat,
                n as nat,
            ),
{
    let reversed = Reversed(g);
    let without = NodeFiltered::from_fn(reversed, |n: NodeIndex| not_avoided(n.index(), avoid));
    Dfs::new(&without, NodeIndex::new(start)).iter(&without).map(|n| n.index()).collect()
}

/// `petgraph::algo::dominators::simple_fast` from `root`, read back node by node with
/// `Dominators::immediate_dominator`: the immediate dominator of every node reachable from
/// `root`.
#[verifier::external_body]
pub(crate) fn sg_immediate_dominators(g: &Sg, root: usize) -> (res: HashMap<usize, usize>)
    requires
        sg_wf(*g),
        sg_nodes(*g).contains_key(root as nat),
    ensures
        is_dominator_tree(node_set(*g), forward(*g), root, res@),
{
    let dom = dominators::simple_fast(g, NodeIndex::new(root));
    g.node_indices().filter_map(|n| dom.immediate_dominator(n).map(|d| (n.index(), d.index()))).collect()
}

/// `petgraph::algo::dominators::simple_fast` from `exit` over the reversed graph, read back node
/// by node: the immediate post-dominator of every node from which `exit` is reachable.
#[verifier::external_body]
pub(crate) fn sg_immediate_post_dominators(g: &Sg, exit: usize) -> (res: HashMap<usize, usize>)
    requires
        sg_wf(*g),
        sg_nodes(*g).contains_key(exit as nat),
    ensures
        is_dominator_tree(node_set(*g), backward(*g), exit, res@),
{
    let dom = dominators::simple_fast(Reversed(g), NodeIndex::new(exit));
    g.node_indices().filter_map(|n| dom.immediate_dominator(n).map(|d| (n.index(), d.index()))).collect()
}

} // verus!

verus! {

// ---------------------------------------------------------------------------------------------
// Verified helpers over the trusted graph operations.
// ---------------------------------------------------------------------------------------------

/// Whether node `n` exists.
pub fn contains_node(g: &Sg, n: usize) -> (res: bool)
    requires
        sg_wf(*g),
    ensures
        res == sg_nodes(*g).contains_key(n as nat),
{
    node_weight(g, n).is_some()
}

/// The weight of node `n`, `None` where there is no such node.
pub fn node_weight(g: &Sg, n: usize) -> (res: Option<usize>)
    requires
        sg_wf(*g),
    ensures
        res == (if sg_nodes(*g).contains_key(n as nat) {
            Some(sg_nodes(*g)[n as nat])
        } else {
            None
        }),
{
    if n >= 0xffff_ffff {
        return None;
    }
    sg_node_weight(g, n)
}

/// The label of edge `e`, `None` where there is no such edge.
pub fn edge_weight(g: &Sg, e: usize) -> (res: Option<&EdgeLabel>)
    requires
        sg_wf(*g),
    ensures
        res == (if sg_edges(*g).contains_key(e as nat) {
            Some(&sg_edges(*g)[e as nat].2)
        } else {
            None
        }),
{
    if e >= 0xffff_ffff {
        return None;
    }
    sg_edge_weight(g, e)
}

/// The source and target of edge `e`, `None` where there is no such edge.
pub fn edge_endpoints(g: &Sg, e: usize) -> (res: Option<(usize, usize)>)
    requires
        sg_wf(*g),
    ensures
        res.is_some() == sg_edges(*g).contains_key(e as nat),
        res matches Some(p) ==> p.0 as nat == sg_edges(*g)[e as nat].0 && p.1 as nat == sg_edges(*g)[e as nat].1,
{
    if e >= 0xffff_ffff {
        return None;
    }
    sg_edge_endpoints(g, e)
}

/// Some edge from `a` to `b`, `None` where there is none.
pub fn find_edge(g: &Sg, a: usize, b: usize) -> (res: Option<usize>)
    requires
        sg_wf(*g),
    ensures
        res.is_none() <==> !has_edge(*g, a as nat, b as nat),
        res matches Some(e) ==> sg_edges(*g).contains_key(e as nat) && sg_edges(*g)[e as nat].0 == a && sg_edges(*g)[e as nat].1 == b,
{
    if a >= 0xffff_ffff || b >= 0xffff_ffff {
        return None;
    }
    sg_find_edge(g, a, b)
}

/// The indices of the edges listed under `n` in direction `dir`, each once.
pub fn edges_directed(g: &Sg, n: usize, dir: Direction) -> (res: Vec<usize>)
    requires
        sg_wf(*g),
    ensures
        res@.no_duplicates(),
        forall|e: usize| #[trigger] res@.contains(e) <==> edges_at(*g, n as nat, dir).contains(e as nat),
{
    if n >= 0xffff_ffff {
        proof {
            assert(edges_at(*g, n as nat, dir) =~= Set::<nat>::empty());
        }
        return Vec::new();
    }
    sg_edges_directed(g, n, dir)
}

/// Whether some edge leads from `a` to `b`.
pub fn contains_edge(g: &Sg, a: usize, b: usize) -> (res: bool)
    requires
        sg_wf(*g),
    ensures
        res == has_edge(*g, a as nat, b as nat),
{
    find_edge(g, a, b).is_some()
}

/// The neighbours of `n` in direction `dir`, once per edge.
pub fn neighbors_directed(g: &Sg, n: usize, dir: Direction) -> (res: Vec<usize>)
    requires
        sg_wf(*g),
    ensures
        res@.len() == edges_at(*g, n as nat, dir).len(),
        forall|m: usize| #[trigger] res@.contains(m) <==> neighbor_set(*g, n as nat, dir).contains(m as nat),
        forall|i: int| 0 <= i < res@.len() ==> sg_nodes(*g).contains_key(#[trigger] res@[i] as nat),
{
    if n >= 0xffff_ffff {
        proof {
            assert(edges_at(*g, n as nat, dir) =~= Set::<nat>::empty());
            assert forall|m: usize| !#[trigger] neighbor_set(*g, n as nat, dir).contains(m as nat) by {
                if neighbor_set(*g, n as nat, dir).contains(m as nat) {
                    let e = choose|e: nat| #[trigger] edges_at(*g, n as nat, dir).contains(e) && far_end(*g, e, dir) == m as nat;
                }
            }
        }
        return Vec::new();
    }
    let edges = sg_edges_directed(g, n, dir);
    let mut res: Vec<usize> = Vec::new();
    let mut i: usize = 0;
    while i < edges.len()
        invariant
            sg_wf(*g),
            0 <= i <= edges@.len(),
            edges@.no_duplicates(),
            forall|e: usize| #[trigger] edges@.contains(e) <==> edges_at(*g, n as nat, dir).contains(e as nat),
            res@.len() == i,
            forall|k: int| 0 <= k < i ==> #[trigger] res@[k] as nat == far_end(*g, edges@[k] as nat, dir),
            forall|k: int| 0 <= k < i ==> sg_nodes(*g).contains_key(#[trigger] res@[k] as nat),
        decreases edges@.len() - i,
    {
        let e = edges[i];
        assert(edges@.contains(e));
        let (a, b) = sg_edge_endpoints(g, e).unwrap();
        match dir {
            Direction::Outgoing => res.push(b),
            Direction::Incoming => res.push(a),
        }
        i = i + 1;
    }
    proof {
        lemma_edge_list_len(*g, n as nat, dir, edges@);
        assert forall|m: usize| #[trigger] res@.contains(m) <==> neighbor_set(*g, n as nat, dir).contains(m as nat) by {
            if res@.contains(m) {
                let k = choose|k: int| 0 <= k < res@.len() && res@[k] == m;
                assert(edges@.contains(edges@[k]));
                assert(edges_at(*g, n as nat, dir).contains(edges@[k] as nat));
            }
            if neighbor_set(*g, n as nat, dir).contains(m as nat) {
                let e = choose|e: nat| #[trigger] edges_at(*g, n as nat, dir).contains(e) && far_end(*g, e, dir) == m as nat;
                assert(e < u32::MAX);
                assert(edges@.contains(e as usize));
                let k = choose|k: int| 0 <= k < edges@.len() && edges@[k] == e as usize;
                assert(res@[k] == m);
            }
        }
    }
    res
}

/// A list of edge indices without duplicates that holds exactly the edges at `n` has their number
/// as its length.
pub proof fn lemma_edge_list_len(g: Sg, n: nat, dir: Direction, edges: Seq<usize>)
    requires
        sg_wf(g),
        edges.no_duplicates(),
        forall|e: usize| #[trigger] edges.contains(e) <==> edges_at(g, n, dir).contains(e as nat),
    ensures
        edges.len() == edges_at(g, n, dir).len(),
        edges_at(g, n, dir).finite(),
{
    let s = edges_at(g, n, dir);
    assert(s.subset_of(sg_edges(g).dom()));
    vstd::set_lib::lemma_len_subset(s, sg_edges(g).dom());
    let m = edges.map_values(|e: usize| e as nat);
    assert forall|i: int, j: int| 0 <= i < m.len() && 0 <= j < m.len() && i != j implies m[i] != m[j] by {
        assert(edges[i] != edges[j]);
    }
    assert(m.no_duplicates());
    assert forall|e: nat| #[trigger] m.to_set().contains(e) <==> s.contains(e) by {
        if s.contains(e) {
            assert(e < u32::MAX);
            assert(edges.contains(e as usize));
            let k = choose|k: int| 0 <= k < edges.len() && edges[k] == e as usize;
            assert(m[k] == e);
        }
        if m.to_set().contains(e) {
            let k = choose|k: int| 0 <= k < m.len() && m[k] == e;
            assert(edges.contains(edges[k]));
        }
    }
    assert(m.to_set() =~= s);
    m.unique_seq_to_set();
}

/// Graph error of an [`IndexedGraph`] operation.
#[derive(Debug, Clone, Copy, PartialEq, Eq, Structural)]
pub enum GraphError {
    /// No node carries the key.
    KeyNotFound { key: usize },
    /// The node that the key names is missing from the graph.
    NodeNotFound { key: usize },
}

/// A graph whose nodes carry distinct keys, with a map from key to node.
pub struct IndexedGraph {
    graph: Sg,
    key_to_node: HashMap<usize, usize>,
}

/// No two nodes carry the same key.
pub open spec fn unique_keys(g: Sg) -> bool {
    forall|a: nat, b: nat|
        #![trigger sg_nodes(g)[a], sg_nodes(g)[b]]
        sg_nodes(g).contains_key(a) && sg_nodes(g).contains_key(b) && sg_nodes(g)[a] == sg_nodes(g)[b] ==> a == b
}

/// The node that carries `key`, if any.
pub open spec fn node_of_key(g: Sg, key: usize) -> Option<nat> {
    if exists|n: nat| sg_nodes(g).contains_key(n) && #[trigger] sg_nodes(g)[n] == key {
        Some(choose|n: nat| sg_nodes(g).contains_key(n) && #[trigger] sg_nodes(g)[n] == key)
    } else {
        None
    }
}

impl IndexedGraph {
    pub closed spec fn sg(&self) -> Sg {
        self.graph
    }

    pub open spec fn nodes(&self) -> Map<nat, usize> {
        sg_nodes(self.sg())
    }

    pub open spec fn edges(&self) -> Map<nat, (nat, nat, EdgeLabel)> {
        sg_edges(self.sg())
    }

    pub closed spec fn wf(&self) -> bool {
        &&& sg_wf(self.graph)
        &&& unique_keys(self.graph)
        &&& forall|k: usize| #[trigger]
            self.key_to_node@.contains_key(k) <==> node_of_key(self.graph, k).is_some()
        &&& forall|k: usize| #[trigger]
            self.key_to_node@.contains_key(k) ==> node_of_key(self.graph, k) == Some(
                self.key_to_node@[k] as nat,
            )
    }

    pub proof fn lemma_wf(&self)
        requires
            self.wf(),
        ensures
            sg_wf(self.sg()),
            unique_keys(self.sg()),
    {
    }

    pub fn new() -> (res: Self)
        ensures
            res.wf(),
            res.nodes().dom() == Set::<nat>::empty(),
            res.edges().dom() == Set::<nat>::empty(),
    {
        Self::with_capacity(0, 0)
    }

    pub fn with_capacity(nodes: usize, edges: usize) -> (res: Self)
        ensures
            res.wf(),
            res.nodes().dom() == Set::<nat>::empty(),
            res.edges().dom() == Set::<nat>::empty(),
    {
        let graph = sg_with_capacity(nodes, edges);
        let key_to_node: HashMap<usize, usize> = HashMap::new();
        let res = IndexedGraph { graph, key_to_node };
        proof {
            assert forall|k: usize| #[trigger] res.key_to_node@.contains_key(k) <==> node_of_key(res.graph, k).is_some() by {
                if node_of_key(res.graph, k).is_some() {
                    let n = choose|n: nat| sg_nodes(res.graph).contains_key(n) && #[trigger] sg_nodes(res.graph)[n] == k;
                    assert(sg_nodes(res.graph).dom().contains(n));
                }
            }
        }
        res
    }

    /// The graph `graph`, whose node weights serve as keys.
    pub fn from_graph(graph: Sg) -> (res: Self)
        requires
            sg_wf(graph),
            unique_keys(graph),
        ensures
            res.wf(),
            res.sg() == graph,
    {
        let nodes = sg_node_indices(&graph);
        let mut key_to_node: HashMap<usize, usize> = HashMap::new();
        let mut i: usize = 0;
        while i < nodes.len()
            invariant
                sg_wf(graph),
                unique_keys(graph),
                0 <= i <= nodes@.len(),
                forall|n: usize| #[trigger] nodes@.contains(n) <==> sg_nodes(graph).contains_key(n as nat),
                forall|k: usize| #[trigger] key_to_node@.contains_key(k) <==> exists|j: int| 0 <= j < i && sg_nodes(graph)[nodes@[j] as nat] == k,
                forall|k: usize| #[trigger] key_to_node@.contains_key(k) ==> sg_nodes(graph).contains_key(key_to_node@[k] as nat) && sg_nodes(graph)[key_to_node@[k] as nat] == k,
            decreases nodes@.len() - i,
        {
            let n = nodes[i];
            assert(nodes@.contains(n));
            let key = sg_node_weight(&graph, n).unwrap();
            key_to_node.insert(key, n);
            i = i + 1;
        }
        let res = IndexedGraph { graph, key_to_node };
        proof {
            assert forall|k: usize| #[trigger] res.key_to_node@.contains_key(k) <==> node_of_key(graph, k).is_some() by {
                if node_of_key(graph, k).is_some() {
                    let n = choose|n: nat| sg_nodes(graph).contains_key(n) && #[trigger] sg_nodes(graph)[n] == k;
                    assert(n < u32::MAX);
                    assert(nodes@.contains(n as usize));
                    let j = choose|j: int| 0 <= j < nodes@.len() && nodes@[j] == n as usize;
                    assert(sg_nodes(graph)[nodes@[j] as nat] == k);
                }
            }
            assert forall|k: usize| #[trigger] res.key_to_node@.contains_key(k) implies node_of_key(graph, k) == Some(res.key_to_node@[k] as nat) by {
                let n = res.key_to_node@[k] as nat;
                assert(sg_nodes(graph)[n] == k);
                let c = choose|c: nat| sg_nodes(graph).contains_key(c) && #[trigger] sg_nodes(graph)[c] == k;
                assert(sg_nodes(graph)[c] == sg_nodes(graph)[n]);
            }
        }
        res
    }

    pub fn graph(&self) -> (res: &Sg)
        ensures
            *res == self.sg(),
    {
        &self.graph
    }

    /// A copy of the graph and its key map.
    pub fn clone_graph(&self) -> (res: Self)
        requires
            self.wf(),
        ensures
            res.wf(),
            res.nodes() == self.nodes(),
            res.edges() == self.edges(),
    {
        let graph = sg_clone(&self.graph);
        let key_to_node = self.key_to_node.clone();
        let res = IndexedGraph { graph, key_to_node };
        proof {
            assert forall|k: usize| #[trigger] node_of_key(res.graph, k) == node_of_key(self.graph, k) by {
            }
        }
        res
    }

    /// The graph itself, to change its edges; its nodes must stay as they are.
    pub fn graph_mut(&mut self) -> (res: &mut Sg)
        ensures
            *res == old(self).sg(),
            final(self).sg() == *final(res),
            sg_nodes(*final(res)) == sg_nodes(*res) && sg_wf(*final(res)) ==> (old(self).wf() ==> final(self).wf()),
    {
        &mut self.graph
    }

    /// Adds an edge from node `a` to node `b`, both of which must exist.
    pub fn add_edge(&mut self, a: usize, b: usize, label: EdgeLabel) -> (res: usize)
        requires
            old(self).wf(),
            old(self).nodes().contains_key(a as nat),
            old(self).nodes().contains_key(b as nat),
            old(self).edges().dom().len() < u32::MAX - 1,
        ensures
            final(self).wf(),
            final(self).nodes() == old(self).nodes(),
            !old(self).edges().contains_key(res as nat),
            final(self).edges() == old(self).edges().insert(res as nat, (a as nat, b as nat, label)),
    {
        let e = sg_add_edge(&mut self.graph, a, b, label);
        proof {
            assert forall|k: usize| #[trigger] node_of_key(self.graph, k) == node_of_key(old(self).graph, k) by {
            }
        }
        e
    }

    /// Removes edge `e`, if it exists, and returns its label.
    pub fn remove_edge(&mut self, e: usize) -> (res: Option<EdgeLabel>)
        requires
            old(self).wf(),
        ensures
            final(self).wf(),
            res == (if old(self).edges().contains_key(e as nat) {
                Some(old(self).edges()[e as nat].2)
            } else {
                None
            }),
            final(self).edges() == old(self).edges().remove(e as nat),
            final(self).nodes() == old(self).nodes(),
    {
        if e >= 0xffff_ffff {
            proof {
                self.lemma_wf();
                assert(self.edges().remove(e as nat) =~= self.edges());
            }
            return None;
        }
        let r = sg_remove_edge(&mut self.graph, e);
        proof {
            assert forall|k: usize| #[trigger] node_of_key(self.graph, k) == node_of_key(old(self).graph, k) by {
            }
        }
        r
    }

    /// Adds a node that carries `key`, which no node may carry yet.
    pub fn add_node(&mut self, key: usize) -> (res: usize)
        requires
            old(self).wf(),
            node_of_key(old(self).sg(), key).is_none(),
            old(self).nodes().dom().len() < u32::MAX - 1,
        ensures
            final(self).wf(),
            !old(self).nodes().contains_key(res as nat),
            final(self).nodes() == old(self).nodes().insert(res as nat, key),
            final(self).edges() == old(self).edges(),
    {
        let node = sg_add_node(&mut self.graph, key);
        self.key_to_node.insert(key, node);
        proof {
            let g = self.graph;
            let og = old(self).graph;
            assert forall|a: nat, b: nat|
                #![trigger sg_nodes(g)[a], sg_nodes(g)[b]]
                sg_nodes(g).contains_key(a) && sg_nodes(g).contains_key(b) && sg_nodes(g)[a] == sg_nodes(g)[b] implies a == b by {
                if a != node as nat && b != node as nat {
                    assert(sg_nodes(og)[a] == sg_nodes(og)[b]);
                } else if a == node as nat && b != node as nat {
                    assert(sg_nodes(og).contains_key(b) && sg_nodes(og)[b] == key);
                } else if b == node as nat && a != node as nat {
                    assert(sg_nodes(og).contains_key(a) && sg_nodes(og)[a] == key);
                }
            }
            assert forall|k: usize| #[trigger] self.key_to_node@.contains_key(k) <==> node_of_key(g, k).is_some() by {
                if k == key {
                    assert(sg_nodes(g)[node as nat] == key);
                } else {
                    if node_of_key(g, k).is_some() {
                        let n = choose|n: nat| sg_nodes(g).contains_key(n) && #[trigger] sg_nodes(g)[n] == k;
                        assert(sg_nodes(og).contains_key(n) && sg_nodes(og)[n] == k);
                    }
                    if old(self).key_to_node@.contains_key(k) {
                        let n = choose|n: nat| sg_nodes(og).contains_key(n) && #[trigger] sg_nodes(og)[n] == k;
                        assert(sg_nodes(g).contains_key(n) && sg_nodes(g)[n] == k);
                    }
                }
            }
            assert forall|k: usize| #[trigger] self.key_to_node@.contains_key(k) implies node_of_key(g, k) == Some(self.key_to_node@[k] as nat) by {
                let n = self.key_to_node@[k] as nat;
                if k != key {
                    let o = choose|c: nat| sg_nodes(og).contains_key(c) && #[trigger] sg_nodes(og)[c] == k;
                    assert(o == n);
                }
                assert(sg_nodes(g).contains_key(n) && sg_nodes(g)[n] == k);
                let c = choose|c: nat| sg_nodes(g).contains_key(c) && #[trigger] sg_nodes(g)[c] == k;
                assert(sg_nodes(g)[c] == sg_nodes(g)[n]);
            }
        }
        node
    }

    /// Removes the node that carries `key`, with its edges.
    pub fn remove_node(&mut self, key: usize) -> (res: Result<(), GraphError>)
        requires
            old(self).wf(),
        ensures
            final(self).wf(),
            match node_of_key(old(self).sg(), key) {
                None => res == Err::<(), GraphError>(GraphError::KeyNotFound { key }) && *final(self) == *old(self),
                Some(n) => res is Ok && final(self).nodes() == old(self).nodes().remove(n)
                    && final(self).edges() == old(self).edges().restrict(
                    old(self).edges().dom().filter(|e: nat| old(self).edges()[e].0 != n && old(self).edges()[e].1 != n),
                ),
            },
    {
        let node = match self.key_to_node.get(&key) {
            Some(node) => *node,
            None => {
                return Err(GraphError::KeyNotFound { key });
            },
        };
        self.key_to_node.remove(&key);
        let removed = sg_remove_node(&mut self.graph, node);
        proof {
            let g = self.graph;
            let og = old(self).graph;
            assert forall|k: usize| #[trigger] self.key_to_node@.contains_key(k) <==> node_of_key(g, k).is_some() by {
                if node_of_key(g, k).is_some() {
                    let n = choose|n: nat| sg_nodes(g).contains_key(n) && #[trigger] sg_nodes(g)[n] == k;
                    assert(sg_nodes(og).contains_key(n) && sg_nodes(og)[n] == k);
                    assert(n != node as nat);
                    if k == key {
                        assert(sg_nodes(og)[node as nat] == key);
                    }
                }
                if self.key_to_node@.contains_key(k) {
                    let n = old(self).key_to_node@[k] as nat;
                    assert(sg_nodes(og).contains_key(n) && sg_nodes(og)[n] == k);
                    let c = choose|c: nat| sg_nodes(og).contains_key(c) && #[trigger] sg_nodes(og)[c] == k;
                    assert(sg_nodes(og)[node as nat] == key);
                    assert(n != node as nat);
                    assert(sg_nodes(g).contains_key(n) && sg_nodes(g)[n] == k);
                }
            }
            assert forall|k: usize| #[trigger] self.key_to_node@.contains_key(k) implies node_of_key(g, k) == Some(self.key_to_node@[k] as nat) by {
                let n = self.key_to_node@[k] as nat;
                assert(sg_nodes(og)[node as nat] == key);
                assert(sg_nodes(og).contains_key(n) && sg_nodes(og)[n] == k);
                assert(n != node as nat);
                let c = choose|c: nat| sg_nodes(g).contains_key(c) && #[trigger] sg_nodes(g)[c] == k;
                assert(sg_nodes(og)[c] == sg_nodes(og)[n]);
            }
        }
        match removed {
            Some(_) => Ok(()),
            None => Err(GraphError::NodeNotFound { key }),
        }
    }

    pub fn key_for_node(&self, node: usize) -> (res: Option<usize>)
        requires
            self.wf(),
        ensures
            res == (if self.nodes().contains_key(node as nat) {
                Some(self.nodes()[node as nat])
            } else {
                None
            }),
    {
        if node >= 0xffff_ffff {
            return None;
        }
        sg_node_weight(&self.graph, node)
    }

    pub fn node_for_key(&self, key: usize) -> (res: Option<usize>)
        requires
            self.wf(),
        ensures
            match node_of_key(self.sg(), key) {
                Some(n) => res == Some(n as usize) && n < u32::MAX,
                None => res is None,
            },
    {
        match self.key_to_node.get(&key) {
            Some(n) => Some(*n),
            None => None,
        }
    }
}

/// Reading access to the keyed graph inside a structure.
pub trait IndexedGraphView {
    spec fn inner_spec(&self) -> IndexedGraph;

    fn inner(&self) -> (res: &IndexedGraph)
        ensures
            *res == self.inner_spec(),
    ;

    fn graph(&self) -> (res: &Sg)
        ensures
            *res == self.inner_spec().sg(),
    {
        self.inner().graph()
    }

    fn key_for_node(&self, node: usize) -> (res: Option<usize>)
        requires
            self.inner_spec().wf(),
        ensures
            res == (if self.inner_spec().nodes().contains_key(node as nat) {
                Some(self.inner_spec().nodes()[node as nat])
            } else {
                None
            }),
    {
        self.inner().key_for_node(node)
    }

    fn node_for_key(&self, key: usize) -> (res: Option<usize>)
        requires
            self.inner_spec().wf(),
        ensures
            match node_of_key(self.inner_spec().sg(), key) {
                Some(n) => res == Some(n as usize) && n < u32::MAX,
                None => res is None,
            },
    {
        self.inner().node_for_key(key)
    }
}

/// Writing access to the keyed graph inside a structure.
pub trait IndexedGraphViewMut: IndexedGraphView {
    fn inner_mut(&mut self) -> (res: &mut IndexedGraph)
        ensures
            *res == old(self).inner_spec(),
            final(self).inner_spec() == *final(res),
    ;

    fn graph_mut(&mut self) -> (res: &mut Sg)
        ensures
            *res == old(self).inner_spec().sg(),
            final(self).inner_spec().sg() == *final(res),
            sg_nodes(*final(res)) == sg_nodes(*res) && sg_wf(*final(res)) ==> (old(self).inner_spec().wf()
                ==> final(self).inner_spec().wf()),
    {
        self.inner_mut().graph_mut()
    }
}

} // verus!
