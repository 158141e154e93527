pub mod render;
pub mod cycle;
pub mod if_then;
pub mod region;
pub mod scope;
pub mod seq;

use vstd::prelude::*;

use std::collections::HashMap;

use crate::cfg_recovery::cfg::{Condition, EdgeLabel};
use crate::cfg_structuring::cycle::{contract_cyclic_region, find_loop, find_smallest_loop, RawLoop, StructuredLoop};
use crate::cfg_structuring::if_then::{contract_if, find_if, if_contractible, if_found, IfSchema};
use crate::cfg_structuring::region::{
    is_sink, is_source, label_ok, label_readable, labels_ok, vec_contains, Region, RegionCfg, RegionDominanceView, RegionId,
    RegionStore, StructureError,
};
use crate::cfg_structuring::seq::{contract_seq, find_seq, is_seq_chain, seq_blocked, seq_extends};
use crate::graph::{
    contains_node, edges_at, forward, has_edge, neighbor_set, lemma_edge_neighbor_is_node, neighbors_directed, node_of_key, node_set, reaches,
    sg_dfs_post_order, sg_edge_count,  sg_edge_indices,  sg_edges, sg_externals,
    sg_node_count, sg_node_indices, sg_nodes, Direction, IndexedGraphView, Sg,
};
use crate::llir::{BlockId, BranchCondition, Function, Terminator, TerminatorKind, Value};

verus! {

broadcast use vstd::std_specs::hash::group_hash_axioms;

/// An edge that structuring took out of the graph: the regions it joined and how it leaves
/// its source.
#[derive(Debug)]
pub struct VirtualizedEdge {
    pub source: RegionId,
    pub target: RegionId,
    pub label: EdgeLabel,
}

impl Clone for VirtualizedEdge {
    fn clone(&self) -> (res: Self)
        ensures
            res == *self,
    {
        VirtualizedEdge { source: self.source, target: self.target, label: self.label.clone() }
    }
}

/// A function's graph after structuring: the graph of the regions that remain, every region
/// made on the way, and the edges that were taken out.
pub struct StructuredCfg {
    pub cfg: RegionCfg,
    pub regions: RegionStore,
    pub virtualized_edges: Vec<VirtualizedEdge>,
}

impl StructuredCfg {
    /// The graph is well formed over the stored regions and holds its virtual exit.
    pub open spec fn wf(&self) -> bool {
        &&& self.regions.wf()
        &&& self.cfg.wf(self.regions@.len())
        &&& self.cfg.nodes().contains_key(self.cfg.vexit_spec() as nat)
    }
}

enum Reduction {
    Cycle { target: usize, raw_loop: RawLoop },
    Sequence(Vec<usize>),
    If(IfSchema),
}

/// A graph that is well formed over `n` regions stays so over more of them.
pub proof fn lemma_wf_grow(cfg: RegionCfg, n: nat, m: nat)
    requires
        cfg.wf(n),
        n <= m,
    ensures
        cfg.wf(m),
{
}

/// `r` is the first node, by index, without incoming edges: the entry that structuring walks
/// from.
pub open spec fn is_entry(g: Sg, r: nat) -> bool {
    is_source(g, r) && forall|y: nat| y < r ==> !is_source(g, y)
}

/// `head` closes a loop in the trees of `d`: it is no virtual exit and one of its successors
/// dominates it.
pub open spec fn backedge_at(d: RegionDominanceView, head: usize) -> bool {
    head != d.vexit_spec() && exists|m: usize|
        neighbor_set(d.cfg_spec().sg(), head as nat, Direction::Outgoing).contains(m as nat) && #[trigger] d.dominates_spec(m, head)
}

/// `d` holds the dominator trees of `cfg`, from its entry and from its virtual exit.
pub open spec fn dominance_of(cfg: RegionCfg, d: RegionDominanceView) -> bool {
    &&& d.wf()
    &&& d.cfg_spec() == cfg
    &&& d.vexit_spec() == cfg.vexit_spec()
    &&& is_entry(cfg.sg(), d.root_spec() as nat)
}

/// No reduction applies at node `x` of `cfg`: no sequence starts there, and by the dominator
/// trees of `cfg` it closes no loop and heads no if-then(-else).
pub open spec fn no_reduction_at(cfg: RegionCfg, x: nat) -> bool {
    &&& seq_blocked(cfg.sg(), x, cfg.vexit_spec() as nat, None) || !seq_extends(cfg.sg(), x, cfg.vexit_spec() as nat, None)
    &&& exists|d: RegionDominanceView| #[trigger] dominance_of(cfg, d) && !backedge_at(d, x as usize)
        && !(exists|s: IfSchema| #[trigger] if_found(d, x as usize, None, s))
}

/// No reduction applies at any node reached from the entry.
pub open spec fn no_reduction_left(cfg: RegionCfg) -> bool {
    let g = cfg.sg();
    forall|r: nat, x: nat|
        #![trigger is_entry(g, r), reaches(node_set(g), forward(g), r, x)]
        is_entry(g, r) && reaches(node_set(g), forward(g), r, x) ==> no_reduction_at(cfg, x)
}

/// Looks for a reduction at `head`: a loop that `head` closes, a sequence that starts at it,
/// or a conditional that it heads, in that order.
fn find_reduction(cfg: &RegionCfg, head: usize, loop_index: usize) -> (res: Result<Option<Reduction>, StructureError>)
    requires
        cfg.inner_spec().wf(),
        labels_ok(cfg.sg()),
        cfg.nodes().contains_key(cfg.vexit_spec() as nat),
    ensures
        res is Err <==> forall|x: nat| #[trigger] cfg.nodes().contains_key(x) ==> !is_source(cfg.sg(), x),
        res matches Err(e) ==> e == StructureError::NoEntry,
        res matches Ok(Some(Reduction::Cycle { target, raw_loop })) ==> target == head && raw_loop.wf(cfg.sg())
            && raw_loop.loop_index == loop_index && sg_nodes(cfg.sg()).contains_key(raw_loop.head as nat),
        res matches Ok(Some(Reduction::Sequence(chain))) ==> chain@[0] == head && chain@.len() > 1 && chain@.no_duplicates()
            && is_seq_chain(cfg.sg(), cfg.vexit_spec() as nat, None, chain@),
        res matches Ok(None) ==> seq_blocked(cfg.sg(), head as nat, cfg.vexit_spec() as nat, None) || !seq_extends(
            cfg.sg(),
            head as nat,
            cfg.vexit_spec() as nat,
            None,
        ),
        res matches Ok(None) ==> no_reduction_at(*cfg, head as nat),
{
    proof {
        cfg.inner_spec().lemma_wf();
    }
    let dominance = match cfg.compute_dominance() {
        Some(d) => d,
        None => {
            return Err(StructureError::NoEntry);
        },
    };
    if dominance.has_backedge(head) {
        let raw_loop = find_smallest_loop(&dominance, head, loop_index);
        proof {
            lemma_edge_neighbor_is_node(cfg.sg(), head as nat, raw_loop.head as nat, Direction::Outgoing);
        }
        return Ok(Some(Reduction::Cycle { target: head, raw_loop }));
    }
    match find_seq(cfg, head) {
        Some(seq) => {
            return Ok(Some(Reduction::Sequence(seq)));
        },
        None => {},
    }
    match find_if(&dominance, head) {
        Some(s) => Ok(Some(Reduction::If(s))),
        None => {
            proof {
                assert(dominance_of(*cfg, dominance));
                assert(!backedge_at(dominance, head));
            }
            Ok(None)
        },
    }
}

/// The number of nodes and edges of `cfg`; `None` where they come near the limit that
/// structuring keeps below.
fn graph_size(cfg: &RegionCfg) -> (res: Option<usize>)
    requires
        cfg.inner_spec().wf(),
    ensures
        res matches Some(s) ==> s == cfg.nodes().dom().len() + cfg.edges().dom().len() && s + 2 < 0x1000_0000,
        res is None ==> cfg.nodes().dom().len() + cfg.edges().dom().len() + 2 >= 0x1000_0000,
{
    proof {
        cfg.inner_spec().lemma_wf();
    }
    let nc = sg_node_count(cfg.graph());
    let ec = sg_edge_count(cfg.graph());
    if nc >= 0x1000_0000 || ec >= 0x1000_0000 {
        return None;
    }
    if nc + ec + 2 >= 0x1000_0000 {
        return None;
    }
    Some(nc + ec)
}

/// Whether every node of `nodes` is a node of `cfg`.
fn all_nodes_present(cfg: &RegionCfg, nodes: &Vec<usize>) -> (res: bool)
    requires
        cfg.inner_spec().wf(),
    ensures
        res == forall|i: int| 0 <= i < nodes@.len() ==> cfg.nodes().contains_key(#[trigger] nodes@[i] as nat),
{
    let mut i: usize = 0;
    while i < nodes.len()
        invariant
            0 <= i <= nodes@.len(),
            forall|j: int| 0 <= j < i ==> cfg.nodes().contains_key(#[trigger] nodes@[j] as nat),
            cfg.inner_spec().wf(),
        decreases nodes@.len() - i,
    {
        proof {
            cfg.inner_spec().lemma_wf();
        }
        if !contains_node(cfg.graph(), nodes[i]) {
            return false;
        }
        i = i + 1;
    }
    true
}

/// Whether no item of `v` occurs twice.
fn no_duplicates(v: &Vec<usize>) -> (res: bool)
    ensures
        res == v@.no_duplicates(),
{
    let mut i: usize = 0;
    while i < v.len()
        invariant
            0 <= i <= v@.len(),
            forall|a: int, b: int| 0 <= a < b < v@.len() && a < i ==> v@[a] != v@[b],
        decreases v@.len() - i,
    {
        let mut j: usize = i + 1;
        while j < v.len()
            invariant
                i < j <= v@.len(),
                i < v@.len(),
                forall|a: int, b: int| 0 <= a < b < v@.len() && a < i ==> v@[a] != v@[b],
                forall|b: int| i < b < j ==> v@[i as int] != v@[b],
            decreases v@.len() - j,
        {
            if v[i] == v[j] {
                return false;
            }
            j = j + 1;
        }
        i = i + 1;
    }
    true
}

/// Whether an edge leads from the node of region `from` to the node of region `to`, both of
/// which must have one.
fn region_edge(cfg: &RegionCfg, from: RegionId, to: RegionId) -> (res: bool)
    requires
        cfg.inner_spec().wf(),
        node_of_key(cfg.sg(), from).is_some(),
        node_of_key(cfg.sg(), to).is_some(),
    ensures
        res == has_edge(cfg.sg(), node_of_key(cfg.sg(), from).unwrap(), node_of_key(cfg.sg(), to).unwrap()),
{
    proof {
        cfg.inner_spec().lemma_wf();
    }
    let a = cfg.node_for_key(from).unwrap();
    let b = cfg.node_for_key(to).unwrap();
    crate::graph::find_edge(cfg.graph(), a, b).is_some()
}

/// Whether a conditional found in `cfg` can be contracted: its regions are distinct, each has
/// a node, and the last region of each branch leads to the join.
fn check_if_contractible(cfg: &RegionCfg, s: &IfSchema) -> (res: bool)
    requires
        cfg.inner_spec().wf(),
    ensures
        res == if_contractible(*cfg, *s),
{
    let all = s.all_regions();
    if !no_duplicates(&all) {
        return false;
    }
    let mut i: usize = 0;
    while i < all.len()
        invariant
            0 <= i <= all@.len(),
            all@ == s.all_regions_spec(),
            cfg.inner_spec().wf(),
            forall|j: int| 0 <= j < i ==> node_of_key(cfg.sg(), #[trigger] all@[j]).is_some(),
        decreases all@.len() - i,
    {
        if cfg.node_for_key(all[i]).is_none() {
            return false;
        }
        i = i + 1;
    }
    let ghost g = cfg.sg();
    proof {
        let all_s = s.all_regions_spec();
        assert(all_s[all_s.len() - 1] == s.join);
        assert(node_of_key(g, s.join).is_some());
    }
    match s.then_body_last() {
        Some(t) => {
            proof {
                let all_s = s.all_regions_spec();
                assert(all_s[s.then_body@.len() as int] == t);
            }
            if !region_edge(cfg, t, s.join) {
                return false;
            }
        },
        None => {},
    }
    match s.else_body_last() {
        Some(e) => {
            proof {
                let all_s = s.all_regions_spec();
                let ev = s.else_body.unwrap()@;
                assert(all_s[(s.then_body@.len() + ev.len()) as int] == e);
            }
            if !region_edge(cfg, e, s.join) {
                return false;
            }
        },
        None => {},
    }
    true
}

/// Replaces the nodes of a loop's body in `cfg` by one node for `body_region`, the region that
/// the body reduced to: edges between the body and the rest of the graph move to that node.
/// Nothing changes where `body_region` already has a node.
fn collapse_loop_body(cfg: &mut RegionCfg, structured_loop: &StructuredLoop, body_region: RegionId, Ghost(n): Ghost<nat>)
    requires
        old(cfg).wf(n),
        body_region < n,
        old(cfg).nodes().dom().len() + old(cfg).edges().dom().len() + 2 < 0x1000_0000,
    ensures
        final(cfg).wf(n),
        final(cfg).vexit_spec() == old(cfg).vexit_spec(),
        node_of_key(final(cfg).sg(), body_region).is_some(),
        final(cfg).nodes().dom().len() + final(cfg).edges().dom().len() <= old(cfg).nodes().dom().len()
            + old(cfg).edges().dom().len() + 1,
{
    proof {
        cfg.inner_spec().lemma_wf();
    }
    if cfg.node_for_key(body_region).is_some() {
        return;
    }
    let ghost size0 = cfg.nodes().dom().len() + cfg.edges().dom().len();
    let mut body_nodes: Vec<usize> = Vec::new();
    let mut i: usize = 0;
    while i < structured_loop.body.len()
        invariant
            0 <= i <= structured_loop.body@.len(),
            cfg.wf(n),
            *cfg == *old(cfg),
            forall|j: int| 0 <= j < body_nodes@.len() ==> cfg.nodes().contains_key(#[trigger] body_nodes@[j] as nat),
        decreases structured_loop.body@.len() - i,
    {
        proof {
            cfg.inner_spec().lemma_wf();
        }
        match cfg.node_for_key(structured_loop.body[i]) {
            Some(u) => {
                body_nodes.push(u);
            },
            None => {},
        }
        i = i + 1;
    }
    let ghost nodes0 = cfg.nodes();
    let b = cfg.add_existing_region(body_region, Ghost(n));
    proof {
        assert(cfg.nodes().dom() =~= nodes0.dom().insert(b as nat));
    }
    let mut k: usize = 0;
    while k < body_nodes.len()
        invariant
            0 <= k <= body_nodes@.len(),
            cfg.wf(n),
            cfg.vexit_spec() == old(cfg).vexit_spec(),
            cfg.nodes() == nodes0.insert(b as nat, body_region),
            !nodes0.contains_key(b as nat),
            cfg.nodes().dom().len() + cfg.edges().dom().len() <= size0 + 1,
            size0 + 2 < 0x1000_0000,
            forall|j: int| 0 <= j < body_nodes@.len() ==> nodes0.contains_key(#[trigger] body_nodes@[j] as nat),
        decreases body_nodes@.len() - k,
    {
        let u = body_nodes[k];
        cfg.redirect_edges_except(u, b, &body_nodes, Direction::Incoming, Ghost(n));
        cfg.redirect_edges_except(u, b, &body_nodes, Direction::Outgoing, Ghost(n));
        k = k + 1;
    }
    let mut k: usize = 0;
    while k < body_nodes.len()
        invariant
            0 <= k <= body_nodes@.len(),
            cfg.wf(n),
            cfg.vexit_spec() == old(cfg).vexit_spec(),
            cfg.nodes().contains_key(b as nat),
            cfg.nodes()[b as nat] == body_region,
            !nodes0.contains_key(b as nat),
            cfg.nodes().dom().len() + cfg.edges().dom().len() <= size0 + 1,
            forall|j: int| 0 <= j < body_nodes@.len() ==> nodes0.contains_key(#[trigger] body_nodes@[j] as nat),
        decreases body_nodes@.len() - k,
    {
        let u = body_nodes[k];
        let ghost before = cfg.sg();
        let ghost nb = cfg.nodes();
        let ghost eb = cfg.edges();
        proof {
            cfg.inner_spec().lemma_wf();
        }
        let r = cfg.remove_node_by_index(u, Ghost(n));
        proof {
            assert(u as nat != b as nat);
            if r is Ok {
                let kept = eb.dom().filter(|e: nat| eb[e].0 != u && eb[e].1 != u);
                vstd::set_lib::lemma_len_subset(kept, eb.dom());
                assert(cfg.edges().dom() =~= kept);
                assert(cfg.nodes().dom() =~= nb.dom().remove(u as nat));
            }
        }
        k = k + 1;
    }
    proof {
        cfg.inner_spec().lemma_wf();
        assert(sg_nodes(cfg.sg()).contains_key(b as nat) && sg_nodes(cfg.sg())[b as nat] == body_region);
    }
}

/// Region `r` belongs to the loop's body and has a node in `main`.
pub open spec fn in_body_graph(main: RegionCfg, l: StructuredLoop, r: usize) -> bool {
    l.body@.contains(r) && node_of_key(main.sg(), r).is_some()
}

/// Edge `e` of `main` runs between two regions of the loop's body.
pub open spec fn joins_body(main: RegionCfg, l: StructuredLoop, e: nat) -> bool {
    &&& main.edges().contains_key(e)
    &&& l.body@.contains(main.nodes()[main.edges()[e].0])
    &&& l.body@.contains(main.nodes()[main.edges()[e].1])
}

/// Edge `f` of `body` runs, with the same label, between the nodes of the regions that edge `e`
/// of `main` joins.
pub open spec fn copies_edge(main: RegionCfg, body: RegionCfg, e: nat, f: nat) -> bool {
    &&& body.edges().contains_key(f)
    &&& body.nodes()[body.edges()[f].0] == main.nodes()[main.edges()[e].0]
    &&& body.nodes()[body.edges()[f].1] == main.nodes()[main.edges()[e].1]
    &&& body.edges()[f].2 == main.edges()[e].2
}

/// Every edge of `body` that leaves `y` enters the virtual exit.
pub open spec fn leads_only_to_exit(body: RegionCfg, y: nat) -> bool {
    forall|f: nat| #[trigger] body.edges().contains_key(f) && body.edges()[f].0 == y ==> body.edges()[f].1 == body.vexit_spec() as nat
}

/// `body` is the graph of the loop's body in `main`: a node for each region of the body that has
/// one in `main`, the edges of `main` between them with their labels, and a virtual exit that
/// every node without other successors enters by an unconditional edge.
pub open spec fn body_graph_of(main: RegionCfg, l: StructuredLoop, body: RegionCfg) -> bool {
    body_nodes_of(main, l, body) && body_edges_of(main, l, body)
}

/// The nodes of `body`: its virtual exit and one for each region of the loop's body that has a
/// node in `main`.
#[verifier::opaque]
pub open spec fn body_nodes_of(main: RegionCfg, l: StructuredLoop, body: RegionCfg) -> bool {
    let v = body.vexit_spec() as nat;
    &&& body.nodes().contains_key(v)
    &&& forall|y: nat| #[trigger] body.nodes().contains_key(y) && y != v ==> in_body_graph(main, l, body.nodes()[y])
    &&& forall|r: usize| #[trigger] in_body_graph(main, l, r) ==> exists|y: nat| #[trigger] body.nodes().contains_key(y) && y != v
        && body.nodes()[y] == r
}

/// The edges of `body`: those of `main` between regions of the loop's body, with their labels,
/// and an unconditional edge to the virtual exit from each node without other successors.
#[verifier::opaque]
pub open spec fn body_edges_of(main: RegionCfg, l: StructuredLoop, body: RegionCfg) -> bool {
    let v = body.vexit_spec() as nat;
    &&& forall|e: nat| #[trigger] joins_body(main, l, e) ==> exists|f: nat| #[trigger] copies_edge(main, body, e, f)
    &&& forall|f: nat| #[trigger] body.edges().contains_key(f) ==> if body.edges()[f].1 == v {
        body.edges()[f].2 == EdgeLabel::Unconditional && leads_only_to_exit(body, body.edges()[f].0)
    } else {
        exists|e: nat| joins_body(main, l, e) && #[trigger] copies_edge(main, body, e, f)
    }
    &&& forall|y: nat| #[trigger] body.nodes().contains_key(y) && y != v && leads_only_to_exit(body, y) ==> crate::graph::has_edge(
        body.sg(),
        y,
        v,
    )
}

/// The nodes of a copy of the body's regions, with a virtual exit added, are those of the graph
/// of the body.
proof fn lemma_body_nodes(main_cfg: RegionCfg, l: StructuredLoop, pre: RegionCfg, body_cfg: RegionCfg)
    requires
        pre.inner_spec().wf(),
        body_cfg.inner_spec().wf(),
        body_cfg.nodes().contains_key(body_cfg.vexit_spec() as nat),
        !pre.nodes().contains_key(body_cfg.vexit_spec() as nat),
        body_cfg.nodes() == pre.nodes().insert(body_cfg.vexit_spec() as nat, body_cfg.nodes()[body_cfg.vexit_spec() as nat]),
        forall|e: nat| #[trigger] pre.edges().contains_key(e) ==> body_cfg.edges().contains_key(e) && body_cfg.edges()[e] == pre.edges()[e],
        forall|e: nat| #[trigger] body_cfg.edges().contains_key(e) && !pre.edges().contains_key(e) ==> is_sink(pre.sg(), body_cfg.edges()[e].0)
            && body_cfg.edges()[e].1 == body_cfg.vexit_spec() && body_cfg.edges()[e].2 == EdgeLabel::Unconditional,
        forall|x: nat| #[trigger] is_sink(pre.sg(), x) ==> crate::graph::has_edge(body_cfg.sg(), x, body_cfg.vexit_spec() as nat),
        forall|y: nat| #[trigger] pre.nodes().contains_key(y) ==> in_body_graph(main_cfg, l, pre.nodes()[y]),
        forall|r: usize| #[trigger] in_body_graph(main_cfg, l, r) ==> node_of_key(pre.sg(), r).is_some(),
        forall|e: nat| #[trigger] joins_body(main_cfg, l, e) ==> exists|f: nat| #[trigger] copies_edge(main_cfg, pre, e, f),
        forall|f: nat| #[trigger] pre.edges().contains_key(f) ==> exists|e: nat| joins_body(main_cfg, l, e) && #[trigger] copies_edge(
            main_cfg,
            pre,
            e,
            f,
        ),
    ensures
        body_nodes_of(main_cfg, l, body_cfg),
{
    reveal(body_nodes_of);
    pre.inner_spec().lemma_wf();
    body_cfg.inner_spec().lemma_wf();
    let v = body_cfg.vexit_spec() as nat;
    assert forall|f: nat| #[trigger] pre.edges().contains_key(f) implies pre.edges()[f].1 != v by {
        assert(pre.nodes().contains_key(pre.edges()[f].1));
    }
        assert forall|y: nat| #[trigger] body_cfg.nodes().contains_key(y) && y != v implies in_body_graph(main_cfg, l, body_cfg.nodes()[y]) by {
            assert(pre.nodes().contains_key(y));
        }
        assert forall|r: usize| #[trigger] in_body_graph(main_cfg, l, r) implies exists|y: nat| #[trigger] body_cfg.nodes().contains_key(y) && y != v
            && body_cfg.nodes()[y] == r by {
            let w = choose|w: nat| sg_nodes(pre.sg()).contains_key(w) && #[trigger] sg_nodes(pre.sg())[w] == r;
            assert(body_cfg.nodes().contains_key(w) && w != v && body_cfg.nodes()[w] == r);
        }
}

/// Adding a virtual exit to a copy of the body's regions and edges, with an unconditional edge
/// to it from each node without successors, gives the edges of the graph of the body.
#[verifier::rlimit(40)]
proof fn lemma_body_edges(main_cfg: RegionCfg, l: StructuredLoop, pre: RegionCfg, body_cfg: RegionCfg)
    requires
        pre.inner_spec().wf(),
        body_cfg.inner_spec().wf(),
        body_cfg.nodes().contains_key(body_cfg.vexit_spec() as nat),
        !pre.nodes().contains_key(body_cfg.vexit_spec() as nat),
        body_cfg.nodes() == pre.nodes().insert(body_cfg.vexit_spec() as nat, body_cfg.nodes()[body_cfg.vexit_spec() as nat]),
        forall|e: nat| #[trigger] pre.edges().contains_key(e) ==> body_cfg.edges().contains_key(e) && body_cfg.edges()[e] == pre.edges()[e],
        forall|e: nat| #[trigger] body_cfg.edges().contains_key(e) && !pre.edges().contains_key(e) ==> is_sink(pre.sg(), body_cfg.edges()[e].0)
            && body_cfg.edges()[e].1 == body_cfg.vexit_spec() && body_cfg.edges()[e].2 == EdgeLabel::Unconditional,
        forall|x: nat| #[trigger] is_sink(pre.sg(), x) ==> crate::graph::has_edge(body_cfg.sg(), x, body_cfg.vexit_spec() as nat),
        forall|y: nat| #[trigger] pre.nodes().contains_key(y) ==> in_body_graph(main_cfg, l, pre.nodes()[y]),
        forall|r: usize| #[trigger] in_body_graph(main_cfg, l, r) ==> node_of_key(pre.sg(), r).is_some(),
        forall|e: nat| #[trigger] joins_body(main_cfg, l, e) ==> exists|f: nat| #[trigger] copies_edge(main_cfg, pre, e, f),
        forall|f: nat| #[trigger] pre.edges().contains_key(f) ==> exists|e: nat| joins_body(main_cfg, l, e) && #[trigger] copies_edge(
            main_cfg,
            pre,
            e,
            f,
        ),
    ensures
        body_edges_of(main_cfg, l, body_cfg),
{
    reveal(body_edges_of);
    pre.inner_spec().lemma_wf();
    body_cfg.inner_spec().lemma_wf();
    let v = body_cfg.vexit_spec() as nat;
    assert forall|f: nat| #[trigger] pre.edges().contains_key(f) implies pre.edges()[f].1 != v by {
        assert(pre.nodes().contains_key(pre.edges()[f].1));
    }
        assert forall|e2: nat| #[trigger] joins_body(main_cfg, l, e2) implies exists|f: nat| #[trigger] copies_edge(main_cfg, body_cfg, e2, f) by {
            let f = choose|f: nat| #[trigger] copies_edge(main_cfg, pre, e2, f);
            assert(copies_edge(main_cfg, body_cfg, e2, f));
        }
        assert forall|y: nat| body_cfg.nodes().contains_key(y) && y != v && #[trigger] leads_only_to_exit(body_cfg, y) implies is_sink(pre.sg(), y) by {
            assert(pre.nodes().contains_key(y));
            if !edges_at(pre.sg(), y, Direction::Outgoing).is_empty() {
                let f = choose|f: nat| #[trigger] edges_at(pre.sg(), y, Direction::Outgoing).contains(f);
                assert(sg_edges(pre.sg()).contains_key(f) && sg_edges(pre.sg())[f].0 == y);
                assert(pre.edges().contains_key(f));
                assert(body_cfg.edges()[f] == pre.edges()[f]);
                assert(body_cfg.edges().contains_key(f) && body_cfg.edges()[f].0 == y);
                assert(pre.nodes().contains_key(pre.edges()[f].1));
                assert(body_cfg.edges()[f].1 != v);
            }
        }
        assert forall|f: nat| #[trigger] body_cfg.edges().contains_key(f) implies if body_cfg.edges()[f].1 == v {
            body_cfg.edges()[f].2 == EdgeLabel::Unconditional && leads_only_to_exit(body_cfg, body_cfg.edges()[f].0)
        } else {
            exists|e2: nat| joins_body(main_cfg, l, e2) && #[trigger] copies_edge(main_cfg, body_cfg, e2, f)
        } by {
            if pre.edges().contains_key(f) {
                let e2 = choose|e2: nat| joins_body(main_cfg, l, e2) && #[trigger] copies_edge(main_cfg, pre, e2, f);
                assert(copies_edge(main_cfg, body_cfg, e2, f));
            } else {
                let x = body_cfg.edges()[f].0;
                assert(is_sink(pre.sg(), x));
                assert forall|g2: nat| #[trigger] body_cfg.edges().contains_key(g2) && body_cfg.edges()[g2].0 == x implies body_cfg.edges()[g2].1 == v by {
                    if pre.edges().contains_key(g2) {
                        assert(edges_at(pre.sg(), x, Direction::Outgoing).contains(g2));
                    }
                }
            }
        }
}

/// Some edge of `main` between regions of the loop's body enters its entry.
pub open spec fn entry_has_body_pred(main: RegionCfg, l: StructuredLoop) -> bool {
    exists|e: nat| #[trigger] joins_body(main, l, e) && main.nodes()[main.edges()[e].1] == l.entry
}

/// Region `r` of the loop's body leaves by some edge of `main` to a region of the body.
pub open spec fn has_body_successor(main: RegionCfg, l: StructuredLoop, r: usize) -> bool {
    exists|e: nat| #[trigger] joins_body(main, l, e) && main.nodes()[main.edges()[e].0] == r
}

/// A graph with a node for each region of the loop's body that has one in `main_cfg`, and no
/// edges yet.
fn copy_body_nodes(main_cfg: &RegionCfg, structured_loop: &StructuredLoop, Ghost(n): Ghost<nat>) -> (body_cfg: RegionCfg)
    requires
        main_cfg.wf(n),
        main_cfg.room(),
    ensures
        body_cfg.wf(n),
        body_cfg.vexit_spec() == usize::MAX,
        body_cfg.edges().dom() == Set::<nat>::empty(),
        body_cfg.nodes().dom().len() <= main_cfg.nodes().dom().len(),
        forall|y: nat| #[trigger] body_cfg.nodes().contains_key(y) ==> structured_loop.body@.contains(body_cfg.nodes()[y])
            && node_of_key(main_cfg.sg(), body_cfg.nodes()[y]).is_some(),
        forall|r: usize| #[trigger] in_body_graph(*main_cfg, *structured_loop, r) ==> node_of_key(body_cfg.sg(), r).is_some(),
{
    proof {
        main_cfg.inner_spec().lemma_wf();
    }
    let ghost mg = main_cfg.sg();
    let ghost l = *structured_loop;
    let mut body_cfg = RegionCfg::with_capacity(structured_loop.body.len(), sg_edge_count(main_cfg.graph()));
    let nodes = sg_node_indices(main_cfg.graph());
    let mut i: usize = 0;
    proof {
        assert forall|j: int| 0 <= j < nodes@.len() implies main_cfg.nodes().dom().contains(#[trigger] nodes@[j] as nat) by {
            assert(nodes@.contains(nodes@[j]));
        }
        crate::cfg_structuring::region::lemma_ascending_len(nodes@, main_cfg.nodes().dom());
    }
    while i < nodes.len()
        invariant
            0 <= i <= nodes@.len(),
            main_cfg.wf(n),
            main_cfg.room(),
            mg == main_cfg.sg(),
            l == *structured_loop,
            forall|x: usize| #[trigger] nodes@.contains(x) <==> sg_nodes(main_cfg.sg()).contains_key(x as nat),
            nodes@.len() <= main_cfg.nodes().dom().len(),
            body_cfg.wf(n),
            body_cfg.vexit_spec() == usize::MAX,
            body_cfg.edges().dom() == Set::<nat>::empty(),
            body_cfg.nodes().dom().len() <= i,
            forall|y: nat| #[trigger] body_cfg.nodes().contains_key(y) ==> structured_loop.body@.contains(body_cfg.nodes()[y])
                && node_of_key(main_cfg.sg(), body_cfg.nodes()[y]).is_some(),
            forall|k: int| 0 <= k < i && #[trigger] structured_loop.body@.contains(main_cfg.nodes()[nodes@[k] as nat]) ==> node_of_key(
                body_cfg.sg(),
                main_cfg.nodes()[nodes@[k] as nat],
            ).is_some(),
        decreases nodes@.len() - i,
    {
        proof {
            main_cfg.inner_spec().lemma_wf();
            body_cfg.inner_spec().lemma_wf();
            assert(nodes@.contains(nodes@[i as int]));
        }
        let x = nodes[i];
        let region = main_cfg.key_for_node(x).unwrap();
        let ghost before_sg = body_cfg.sg();
        if vec_contains(&structured_loop.body, region) && body_cfg.node_for_key(region).is_none() {
            let ghost before = body_cfg.nodes();
            let y = body_cfg.add_existing_region(region, Ghost(n));
            proof {
                assert(body_cfg.nodes().dom() =~= before.dom().insert(y as nat));
                assert(sg_nodes(main_cfg.sg()).contains_key(x as nat) && sg_nodes(main_cfg.sg())[x as nat] == region);
                assert(sg_nodes(body_cfg.sg()).contains_key(y as nat) && sg_nodes(body_cfg.sg())[y as nat] == region);
                assert(node_of_key(body_cfg.sg(), region).is_some());
            }
        }
        proof {
            assert forall|k: int| 0 <= k < i + 1 && #[trigger] structured_loop.body@.contains(main_cfg.nodes()[nodes@[k] as nat])
                implies node_of_key(body_cfg.sg(), main_cfg.nodes()[nodes@[k] as nat]).is_some() by {
                let r = main_cfg.nodes()[nodes@[k] as nat];
                if k < i {
                    assert(node_of_key(before_sg, r).is_some());
                    let w = choose|w: nat| sg_nodes(before_sg).contains_key(w) && #[trigger] sg_nodes(before_sg)[w] == r;
                    assert(sg_nodes(body_cfg.sg()).contains_key(w) && sg_nodes(body_cfg.sg())[w] == r);
                } else {
                    if node_of_key(before_sg, r).is_some() {
                        let w = choose|w: nat| sg_nodes(before_sg).contains_key(w) && #[trigger] sg_nodes(before_sg)[w] == r;
                        assert(sg_nodes(body_cfg.sg()).contains_key(w) && sg_nodes(body_cfg.sg())[w] == r);
                    }
                }
            }
        }
        i = i + 1;
    }
    proof {
        assert forall|r: usize| #[trigger] in_body_graph(*main_cfg, l, r) implies node_of_key(body_cfg.sg(), r).is_some() by {
            let w = choose|w: nat| sg_nodes(mg).contains_key(w) && #[trigger] sg_nodes(mg)[w] == r;
            assert(nodes@.contains(w as usize));
            let k = choose|k: int| 0 <= k < nodes@.len() && nodes@[k] == w as usize;
            assert(structured_loop.body@.contains(main_cfg.nodes()[nodes@[k] as nat]));
        }
    }
    body_cfg
}

/// Adds to `body_cfg` a copy of each edge of `main_cfg` between regions of the loop's body.
fn copy_body_edges(main_cfg: &RegionCfg, structured_loop: &StructuredLoop, body_cfg: &mut RegionCfg, Ghost(n): Ghost<nat>)
    requires
        main_cfg.wf(n),
        main_cfg.room(),
        old(body_cfg).wf(n),
        old(body_cfg).edges().dom() == Set::<nat>::empty(),
        old(body_cfg).nodes().dom().len() <= main_cfg.nodes().dom().len(),
        forall|y: nat| #[trigger] old(body_cfg).nodes().contains_key(y) ==> structured_loop.body@.contains(old(body_cfg).nodes()[y])
            && node_of_key(main_cfg.sg(), old(body_cfg).nodes()[y]).is_some(),
        forall|r: usize| #[trigger] in_body_graph(*main_cfg, *structured_loop, r) ==> node_of_key(old(body_cfg).sg(), r).is_some(),
    ensures
        final(body_cfg).wf(n),
        final(body_cfg).room(),
        final(body_cfg).vexit_spec() == old(body_cfg).vexit_spec(),
        final(body_cfg).nodes() == old(body_cfg).nodes(),
        forall|r: usize| #[trigger] in_body_graph(*main_cfg, *structured_loop, r) ==> node_of_key(final(body_cfg).sg(), r).is_some(),
        forall|e: nat| #[trigger] joins_body(*main_cfg, *structured_loop, e) ==> exists|f: nat| #[trigger] copies_edge(
            *main_cfg,
            *final(body_cfg),
            e,
            f,
        ),
        forall|f: nat| #[trigger] final(body_cfg).edges().contains_key(f) ==> exists|e: nat| joins_body(*main_cfg, *structured_loop, e)
            && #[trigger] copies_edge(*main_cfg, *final(body_cfg), e, f),
{
    proof {
        main_cfg.inner_spec().lemma_wf();
    }
    let ghost mg = main_cfg.sg();
    let ghost l = *structured_loop;
    let edges = sg_edge_indices(main_cfg.graph());
    let mut j: usize = 0;
    let ghost nodes1 = body_cfg.nodes();
    proof {
        assert forall|k: int| 0 <= k < edges@.len() implies main_cfg.edges().dom().contains(#[trigger] edges@[k] as nat) by {
            assert(edges@.contains(edges@[k]));
        }
        crate::cfg_structuring::region::lemma_ascending_len(edges@, main_cfg.edges().dom());
    }
    while j < edges.len()
        invariant
            0 <= j <= edges@.len(),
            main_cfg.wf(n),
            main_cfg.room(),
            mg == main_cfg.sg(),
            l == *structured_loop,
            forall|e: usize| #[trigger] edges@.contains(e) <==> sg_edges(main_cfg.sg()).contains_key(e as nat),
            crate::graph::strictly_ascending(edges@),
            body_cfg.wf(n),
            body_cfg.nodes() == nodes1,
            body_cfg.vexit_spec() == old(body_cfg).vexit_spec(),
            nodes1.dom().len() <= main_cfg.nodes().dom().len(),
            body_cfg.edges().dom().len() <= j,
            edges@.len() <= main_cfg.edges().dom().len(),
            forall|y: nat| #[trigger] nodes1.contains_key(y) ==> structured_loop.body@.contains(nodes1[y])
                && node_of_key(main_cfg.sg(), nodes1[y]).is_some(),
            forall|r: usize| #[trigger] in_body_graph(*main_cfg, l, r) ==> node_of_key(body_cfg.sg(), r).is_some(),
            forall|k: int| 0 <= k < j && #[trigger] joins_body(*main_cfg, l, edges@[k] as nat) ==> exists|f: nat| #[trigger] copies_edge(
                *main_cfg,
                *body_cfg,
                edges@[k] as nat,
                f,
            ),
            forall|f: nat| #[trigger] body_cfg.edges().contains_key(f) ==> exists|e: nat| joins_body(*main_cfg, l, e) && #[trigger] copies_edge(
                *main_cfg,
                *body_cfg,
                e,
                f,
            ),
        decreases edges@.len() - j,
    {
        proof {
            main_cfg.inner_spec().lemma_wf();
            body_cfg.inner_spec().lemma_wf();
        }
        let e = edges[j];
        proof {
            assert(edges@.contains(e));
        }
        let (a, b) = crate::graph::edge_endpoints(main_cfg.graph(), e).unwrap();
        let ra = main_cfg.key_for_node(a).unwrap();
        let rb = main_cfg.key_for_node(b).unwrap();
        let ghost body0 = *body_cfg;
        if vec_contains(&structured_loop.body, ra) && vec_contains(&structured_loop.body, rb) {
            proof {
                assert(sg_nodes(mg).contains_key(a as nat) && sg_nodes(mg)[a as nat] == ra);
                assert(sg_nodes(mg).contains_key(b as nat) && sg_nodes(mg)[b as nat] == rb);
                assert(in_body_graph(*main_cfg, l, ra));
                assert(in_body_graph(*main_cfg, l, rb));
            }
            let sa = body_cfg.node_for_key(ra).unwrap();
            let sb = body_cfg.node_for_key(rb).unwrap();
            let label = crate::graph::edge_weight(main_cfg.graph(), e).unwrap().clone();
            proof {
                assert(sg_edges(main_cfg.sg()).contains_key(e as nat));
                let c = choose|c: nat| sg_nodes(body_cfg.sg()).contains_key(c) && #[trigger] sg_nodes(body_cfg.sg())[c] == ra;
                let d = choose|d: nat| sg_nodes(body_cfg.sg()).contains_key(d) && #[trigger] sg_nodes(body_cfg.sg())[d] == rb;
            }
            let ghost before = body_cfg.edges();
            let fnew = body_cfg.add_edge(sa, sb, label, Ghost(n));
            proof {
                assert(body_cfg.edges().dom().len() == before.dom().len() + 1);
                assert(joins_body(*main_cfg, l, e as nat));
                assert(copies_edge(*main_cfg, *body_cfg, e as nat, fnew as nat));
            }
        }
        proof {
            assert forall|r: usize| #[trigger] in_body_graph(*main_cfg, l, r) implies node_of_key(body_cfg.sg(), r).is_some() by {
                assert(node_of_key(body0.sg(), r).is_some());
                let w = choose|w: nat| sg_nodes(body0.sg()).contains_key(w) && #[trigger] sg_nodes(body0.sg())[w] == r;
                assert(sg_nodes(body_cfg.sg()).contains_key(w) && sg_nodes(body_cfg.sg())[w] == r);
            }
            assert forall|k: int| 0 <= k < j + 1 && #[trigger] joins_body(*main_cfg, l, edges@[k] as nat) implies exists|f: nat|
                #[trigger] copies_edge(*main_cfg, *body_cfg, edges@[k] as nat, f) by {
                if k < j {
                    let f = choose|f: nat| #[trigger] copies_edge(*main_cfg, body0, edges@[k] as nat, f);
                    assert(copies_edge(*main_cfg, *body_cfg, edges@[k] as nat, f));
                } else {
                    assert(edges@[k] == e);
                    let ee = main_cfg.edges()[e as nat];
                    assert(structured_loop.body@.contains(ra) && structured_loop.body@.contains(rb));
                }
            }
            assert forall|f: nat| #[trigger] body_cfg.edges().contains_key(f) implies exists|e2: nat| joins_body(*main_cfg, l, e2)
                && #[trigger] copies_edge(*main_cfg, *body_cfg, e2, f) by {
                if body0.edges().contains_key(f) {
                    let e2 = choose|e2: nat| joins_body(*main_cfg, l, e2) && #[trigger] copies_edge(*main_cfg, body0, e2, f);
                    assert(copies_edge(*main_cfg, *body_cfg, e2, f));
                } else {
                    assert(copies_edge(*main_cfg, *body_cfg, e as nat, f));
                }
            }
        }
        j = j + 1;
    }
    proof {
        body_cfg.inner_spec().lemma_wf();
        assert forall|e: nat| #[trigger] joins_body(*main_cfg, l, e) implies exists|f: nat| #[trigger] copies_edge(*main_cfg, *body_cfg, e, f) by {
            assert(edges@.contains(e as usize));
            let k = choose|k: int| 0 <= k < edges@.len() && edges@[k] == e as usize;
            assert(joins_body(*main_cfg, l, edges@[k] as nat));
        }
    }
}

/// Where no node of the copy of the body is left without successors, every region of the body
/// has a successor in the body.
proof fn lemma_no_sink(main_cfg: RegionCfg, l: StructuredLoop, pre: RegionCfg)
    requires
        pre.inner_spec().wf(),
        forall|x: nat| #[trigger] pre.nodes().contains_key(x) ==> !is_sink(pre.sg(), x),
        forall|r: usize| #[trigger] in_body_graph(main_cfg, l, r) ==> node_of_key(pre.sg(), r).is_some(),
        forall|f: nat| #[trigger] pre.edges().contains_key(f) ==> exists|e: nat| joins_body(main_cfg, l, e) && #[trigger] copies_edge(
            main_cfg,
            pre,
            e,
            f,
        ),
    ensures
        forall|r: usize| #[trigger] in_body_graph(main_cfg, l, r) ==> has_body_successor(main_cfg, l, r),
{
    assert forall|r: usize| #[trigger] in_body_graph(main_cfg, l, r) implies has_body_successor(main_cfg, l, r) by {
        let w = choose|w: nat| sg_nodes(pre.sg()).contains_key(w) && #[trigger] sg_nodes(pre.sg())[w] == r;
        assert(pre.nodes().contains_key(w));
        assert(!is_sink(pre.sg(), w));
        let f = choose|f: nat| #[trigger] edges_at(pre.sg(), w, Direction::Outgoing).contains(f);
        assert(pre.edges().contains_key(f));
        let e2 = choose|e2: nat| joins_body(main_cfg, l, e2) && #[trigger] copies_edge(main_cfg, pre, e2, f);
        assert(main_cfg.nodes()[main_cfg.edges()[e2].0] == r);
    }
}

/// A region of the body that has a node in `main` has one in the graph of the body.
proof fn lemma_body_node_of(main_cfg: RegionCfg, l: StructuredLoop, body_cfg: RegionCfg, r: usize)
    requires
        body_nodes_of(main_cfg, l, body_cfg),
    ensures
        in_body_graph(main_cfg, l, r) ==> node_of_key(body_cfg.sg(), r).is_some(),
{
    reveal(body_nodes_of);
    if in_body_graph(main_cfg, l, r) {
        let y = choose|y: nat| #[trigger] body_cfg.nodes().contains_key(y) && y != body_cfg.vexit_spec() as nat && body_cfg.nodes()[y] == r;
        assert(sg_nodes(body_cfg.sg()).contains_key(y) && sg_nodes(body_cfg.sg())[y] == r);
    }
}

/// An edge of the graph of the body that does not enter its virtual exit copies an edge of `main`
/// between regions of the body, into the same region.
proof fn lemma_copied_pred(main_cfg: RegionCfg, l: StructuredLoop, body_cfg: RegionCfg, f: nat)
    requires
        body_cfg.inner_spec().wf(),
        body_edges_of(main_cfg, l, body_cfg),
        body_nodes_of(main_cfg, l, body_cfg),
        body_cfg.edges().contains_key(f),
        body_cfg.edges()[f].1 != body_cfg.vexit_spec() as nat,
        body_cfg.nodes()[body_cfg.edges()[f].1] == l.entry,
    ensures
        in_body_graph(main_cfg, l, l.entry),
        entry_has_body_pred(main_cfg, l),
{
    reveal(body_edges_of);
    reveal(body_nodes_of);
    body_cfg.inner_spec().lemma_wf();
    let e2 = choose|e2: nat| joins_body(main_cfg, l, e2) && #[trigger] copies_edge(main_cfg, body_cfg, e2, f);
    assert(main_cfg.nodes()[main_cfg.edges()[e2].1] == l.entry);
    assert(body_cfg.nodes().contains_key(body_cfg.edges()[f].1));
}

/// Where no edge of the graph of the body enters node `x`, the region it carries has no
/// predecessor in the body.
proof fn lemma_no_body_pred(main_cfg: RegionCfg, l: StructuredLoop, body_cfg: RegionCfg, x: nat)
    requires
        body_cfg.inner_spec().wf(),
        body_edges_of(main_cfg, l, body_cfg),
        body_cfg.nodes().contains_key(x),
        body_cfg.nodes()[x] == l.entry,
        edges_at(body_cfg.sg(), x, Direction::Incoming).len() == 0,
    ensures
        !entry_has_body_pred(main_cfg, l),
{
    reveal(body_edges_of);
    body_cfg.inner_spec().lemma_wf();
    let vg = body_cfg.sg();
    assert forall|e2: nat| #[trigger] joins_body(main_cfg, l, e2) implies main_cfg.nodes()[main_cfg.edges()[e2].1] != l.entry by {
        let f = choose|f: nat| #[trigger] copies_edge(main_cfg, body_cfg, e2, f);
        let t = body_cfg.edges()[f].1;
        if main_cfg.nodes()[main_cfg.edges()[e2].1] == l.entry {
            assert(body_cfg.nodes().contains_key(t));
            assert(sg_nodes(vg)[t] == l.entry);
            assert(t == x);
            assert(edges_at(vg, x, Direction::Incoming).contains(f));
            assert(edges_at(vg, x, Direction::Incoming).subset_of(sg_edges(vg).dom()));
            vstd::set_lib::lemma_len_subset(edges_at(vg, x, Direction::Incoming), sg_edges(vg).dom());
            assert(false);
        }
    }
}

/// The graph of a loop's body: a node for each region of the body that has one in `main_cfg`,
/// the edges of `main_cfg` between them, and a new virtual exit; fails where no region of the
/// body is left without successors, where the body's entry cannot be found, or where it still has
/// incoming edges.
fn create_loop_body_cfg(main_cfg: &RegionCfg, structured_loop: &StructuredLoop, regions: &mut RegionStore) -> (res: Result<RegionCfg, StructureError>)
    requires
        main_cfg.wf(old(regions)@.len()),
        old(regions).wf(),
        main_cfg.room(),
        node_of_key(main_cfg.sg(), structured_loop.entry).is_some(),
    ensures
        res matches Err(e) ==> e != StructureError::UnreadableLabel && !(e is LoopBodyIrreducible),
        final(regions).wf(),
        keeps_regions(old(regions)@, final(regions)@),
        res matches Ok(body) ==> {
            &&& body.wf(final(regions)@.len())
            &&& body.nodes().contains_key(body.vexit_spec() as nat)
            &&& final(regions)@ == old(regions)@.push(Region::VirtualExit)
            &&& forall|y: nat| #[trigger] body.nodes().contains_key(y) && y != body.vexit_spec() ==> structured_loop.body@.contains(
                body.nodes()[y],
            ) && node_of_key(main_cfg.sg(), body.nodes()[y]).is_some()
            &&& body_graph_of(*main_cfg, *structured_loop, body)
            &&& in_body_graph(*main_cfg, *structured_loop, structured_loop.entry) ==> !entry_has_body_pred(*main_cfg, *structured_loop)
        },
        res matches Err(e) ==> e == StructureError::NoExit || e == StructureError::NoEntry || e == StructureError::LoopBodyEntry,
        res == Err::<RegionCfg, StructureError>(StructureError::NoExit) ==> forall|r: usize| #[trigger] in_body_graph(*main_cfg, *structured_loop, r)
            ==> has_body_successor(*main_cfg, *structured_loop, r),
        res == Err::<RegionCfg, StructureError>(StructureError::NoEntry) ==> !in_body_graph(*main_cfg, *structured_loop, structured_loop.entry),
        res == Err::<RegionCfg, StructureError>(StructureError::LoopBodyEntry) ==> in_body_graph(*main_cfg, *structured_loop, structured_loop.entry)
            && entry_has_body_pred(*main_cfg, *structured_loop),
{
    proof {
        main_cfg.inner_spec().lemma_wf();
    }
    let ghost n = regions@.len();
    let ghost mg = main_cfg.sg();
    let ghost l = *structured_loop;
    proof {
        assert(regions@.take(n as int) =~= regions@);
        lemma_keeps_regions_push(regions@, Region::VirtualExit);
        regions.lemma_len_fits();
    }
    let mut body_cfg = copy_body_nodes(main_cfg, structured_loop, Ghost(n));
    copy_body_edges(main_cfg, structured_loop, &mut body_cfg, Ghost(n));
    let ghost pre = body_cfg;
    let vexit = match body_cfg.add_vexit(regions) {
        Ok(v) => v,
        Err(e) => {
            proof {
                lemma_no_sink(*main_cfg, l, pre);
            }
            return Err(e);
        },
    };
    proof {
        body_cfg.inner_spec().lemma_wf();
        assert(regions@.take(n as int) =~= old(regions)@);
        assert(body_cfg.nodes() == pre.nodes().insert(vexit as nat, body_cfg.nodes()[vexit as nat]));
        assert forall|y: nat| #[trigger] pre.nodes().contains_key(y) implies in_body_graph(*main_cfg, l, pre.nodes()[y]) by {}
        lemma_body_nodes(*main_cfg, l, pre, body_cfg);
        lemma_body_edges(*main_cfg, l, pre, body_cfg);
        assert(body_graph_of(*main_cfg, l, body_cfg));
    }
    let entry = match body_cfg.node_for_key(structured_loop.entry) {
        Some(x) => x,
        None => {
            proof {
                lemma_body_node_of(*main_cfg, l, body_cfg, l.entry);
            }
            let sources = sg_externals(body_cfg.graph(), Direction::Incoming);
            if sources.len() == 0 {
                return Err(StructureError::NoEntry);
            }
            proof {
                assert(sources@.contains(sources@[0]));
                assert(edges_at(body_cfg.sg(), sources@[0] as nat, Direction::Incoming) =~= Set::<nat>::empty());
            }
            sources[0]
        },
    };
    let preds = neighbors_directed(body_cfg.graph(), entry, Direction::Incoming);
    if preds.len() > 0 {
        proof {
            let vg = body_cfg.sg();
            assert(!edges_at(vg, entry as nat, Direction::Incoming).is_empty());
            let f = choose|f: nat| #[trigger] edges_at(vg, entry as nat, Direction::Incoming).contains(f);
            assert(body_cfg.edges().contains_key(f) && body_cfg.edges()[f].1 == entry as nat);
            let w = choose|w: nat| sg_nodes(mg).contains_key(w) && #[trigger] sg_nodes(mg)[w] == l.entry;
            assert(main_cfg.nodes().contains_key(w));
            assert(l.entry < n);
            assert(body_cfg.nodes()[vexit as nat] == n);
            if node_of_key(vg, l.entry).is_some() {
                assert(sg_nodes(vg)[entry as nat] == l.entry);
            } else {
                assert(edges_at(vg, entry as nat, Direction::Incoming).len() == 0);
            }
            lemma_copied_pred(*main_cfg, l, body_cfg, f);
        }
        return Err(StructureError::LoopBodyEntry);
    }
    proof {
        if in_body_graph(*main_cfg, l, l.entry) {
            assert(sg_nodes(body_cfg.sg())[entry as nat] == l.entry);
            lemma_no_body_pred(*main_cfg, l, body_cfg, entry as nat);
        }
    }
    Ok(body_cfg)
}

/// Edge `f` of the function's graph is the false branch of a block that branches on `>= 0`:
/// the condition it is taken under, the negation of `>=`, cannot be written.
pub open spec fn unreadable_edge(func: Function, f: nat) -> bool {
    let g = func.cfg_spec().sg();
    let b = sg_nodes(g)[sg_edges(g)[f].0];
    &&& sg_edges(g).contains_key(f)
    &&& sg_edges(g)[f].2 is FalseBranch
    &&& b < func.blocks_spec().len()
    &&& func.blocks_spec()[b as int].terminator_spec().kind matches TerminatorKind::ConditionalBranch { cond: BranchCondition::Ge, .. }
}

/// The operator of the condition under which a lifted conditional branch is taken.
pub open spec fn branch_operator(cond: BranchCondition) -> Seq<char> {
    match cond {
        BranchCondition::NonZero(_) => "!="@,
        BranchCondition::Gt => ">"@,
        BranchCondition::Ge => ">="@,
    }
}

/// The left-hand side of that condition: the tested value, or nothing where the branch tests
/// the flags.
pub open spec fn branch_lhs(cond: BranchCondition) -> Seq<char> {
    match cond {
        BranchCondition::NonZero(v) => v.text(),
        _ => Seq::empty(),
    }
}

/// `c` is the condition under which `t` branches to its target: `value != 0`, `> 0` or
/// `>= 0`; none where `t` is no conditional branch.
pub open spec fn is_branch_condition(c: Option<Condition>, t: Terminator) -> bool {
    match t.kind {
        TerminatorKind::ConditionalBranch { cond, .. } => c matches Some(x) && x.op_view() == branch_operator(cond)
            && x.lhs_view() == branch_lhs(cond) && x.rhs_view() == "0"@,
        _ => c is None,
    }
}

/// `c` is the branch condition of the terminator of block `block` of `func`; none where the
/// function has no such block.
pub open spec fn is_block_condition(func: Function, block: usize, c: Option<Condition>) -> bool {
    if block < func.blocks_spec().len() {
        is_branch_condition(c, func.blocks_spec()[block as int].terminator_spec())
    } else {
        c is None
    }
}

/// The condition under which block `block` of `func` takes the branch that ends it.
pub fn branch_condition_for_block(func: &Function, block: BlockId) -> (res: Option<Condition>)
    requires
        func.wf(),
    ensures
        is_block_condition(*func, block, res),
{
    if block >= func.block_count() {
        return None;
    }
    let term = func.block(block).terminator();
    proof {
        reveal_strlit("");
    }
    match term.kind {
        TerminatorKind::ConditionalBranch { cond, .. } => match cond {
            BranchCondition::NonZero(v) => {
                let lhs = v.to_text();
                Some(Condition::new("!=", lhs.as_str(), "0"))
            },
            BranchCondition::Gt => {
                let c = Condition::new(">", "", "0");
                assert(c.lhs_view() =~= Seq::<char>::empty());
                Some(c)
            },
            BranchCondition::Ge => {
                let c = Condition::new(">=", "", "0");
                assert(c.lhs_view() =~= Seq::<char>::empty());
                Some(c)
            },
        },
        _ => None,
    }
}

/// `res` is label `l` of an edge that leaves block `block` of `func`, with the block's branch
/// condition put on it where `l` marks a branch.
pub open spec fn label_for(l: EdgeLabel, func: Function, block: usize, res: EdgeLabel) -> bool {
    match l {
        EdgeLabel::TrueBranch(_) => res matches EdgeLabel::TrueBranch(c) && is_block_condition(func, block, c),
        EdgeLabel::FalseBranch(_) => res matches EdgeLabel::FalseBranch(c) && is_block_condition(func, block, c),
        _ => res == l,
    }
}

/// `label` with `cond` put on it where it marks a branch.
fn with_condition(label: EdgeLabel, cond: Option<Condition>) -> (res: EdgeLabel)
    ensures
        match label {
            EdgeLabel::TrueBranch(_) => res == EdgeLabel::TrueBranch(cond),
            EdgeLabel::FalseBranch(_) => res == EdgeLabel::FalseBranch(cond),
            _ => res == label,
        },
{
    match label {
        EdgeLabel::TrueBranch(_) => EdgeLabel::TrueBranch(cond),
        EdgeLabel::FalseBranch(_) => EdgeLabel::FalseBranch(cond),
        other => other,
    }
}

/// Edge `e` of the graph of `func` stands in `rc` as an edge between the nodes that `m` gives
/// its ends, labelled as `label_for` says.
pub open spec fn edge_mirrored(func: Function, rc: RegionCfg, m: Map<nat, nat>, e: (nat, nat, EdgeLabel)) -> bool {
    exists|f: nat| #[trigger] rc.edges().contains_key(f) && rc.edges()[f].0 == m[e.0] && rc.edges()[f].1 == m[e.1]
        && label_for(e.2, func, sg_nodes(func.cfg_spec().sg())[e.0], rc.edges()[f].2)
}

/// Each node of the graph of `func` stands in `rc` as a leaf of the block it carries, and
/// each edge as an edge between those leaves, labelled with the branch condition of its
/// source block where it marks a branch; `m` takes a node of the function's graph to its node
/// in `rc`.
pub open spec fn mirrors(func: Function, rc: RegionCfg, regions: Seq<Region>, m: Map<nat, nat>) -> bool {
    let g = func.cfg_spec().sg();
    &&& m.dom() == node_set(g)
    &&& forall|x: nat| #[trigger] m.contains_key(x) ==> rc.nodes().contains_key(m[x]) && m[x] != rc.vexit_spec()
        && regions[rc.nodes()[m[x]] as int] == Region::Leaf(sg_nodes(g)[x])
    &&& forall|x: nat, y: nat| #![trigger m[x], m[y]] m.contains_key(x) && m.contains_key(y) && m[x] == m[y] ==> x == y
    &&& forall|e: nat| #[trigger] sg_edges(g).contains_key(e) ==> edge_mirrored(func, rc, m, sg_edges(g)[e])
}

/// The region graph of a function's graph: a leaf region for each node, taken in ascending
/// order of node index, the same edges between them, and a virtual exit that every node
/// without successors leads to.
#[verifier::spinoff_prover]
fn build_region_cfg(func: &Function) -> (res: Result<(RegionCfg, RegionStore), StructureError>)
    requires
        func.wf(),
    ensures
        match res {
            Ok((rc, rs)) => {
                let g = func.cfg_spec().sg();
                let k = sg_nodes(g).dom().len();
                &&& rs.wf()
                &&& rc.wf(rs@.len())
                &&& rc.nodes().contains_key(rc.vexit_spec() as nat)
                &&& rs@.len() == k + 1
                &&& rs@[k as int] == Region::VirtualExit
                &&& forall|i: int| 0 <= i < k ==> #[trigger] rs@[i] is Leaf
                &&& forall|i: int| 0 <= i < k ==> is_node_leaf(g, #[trigger] rs@[i])
                &&& exists|m: Map<nat, nat>| mirrors(*func, rc, rs@, m)
            },
            Err(e) => {
                let g = func.cfg_spec().sg();
                ||| e == StructureError::TooLarge && sg_nodes(g).dom().len() + sg_edges(g).dom().len() + 2 >= 0x1000_0000
                ||| e == StructureError::UnreadableLabel && exists|f: nat| #[trigger] unreadable_edge(*func, f)
                ||| e == StructureError::NoExit && forall|x: nat| #[trigger] sg_nodes(g).contains_key(x) ==> !is_sink(g, x)
            },
        },
        res is Ok ==> exists|x: nat| #[trigger] is_sink(func.cfg_spec().sg(), x),
{
    proof {
        func.lemma_wf();
        func.cfg_spec().lemma_wf();
    }
    let fg = func.cfg().graph();
    let ghost g = func.cfg_spec().sg();
    let nc = sg_node_count(fg);
    let ec = sg_edge_count(fg);
    if nc >= 0x1000_0000 || ec >= 0x1000_0000 || nc + ec + 2 >= 0x1000_0000 {
        return Err(StructureError::TooLarge);
    }
    let mut regions = RegionStore::new();
    let mut region_cfg = RegionCfg::with_capacity(nc + 1, ec + 1);
    let nodes = sg_node_indices(fg);
    proof {
        assert forall|j: int| 0 <= j < nodes@.len() implies node_set(g).contains(#[trigger] nodes@[j] as nat) by {
            assert(nodes@.contains(nodes@[j]));
        }
        crate::cfg_structuring::region::lemma_ascending_len(nodes@, node_set(g));
        assert(nodes@.no_duplicates());
    }
    let mut node_map: HashMap<usize, usize> = HashMap::new();
    let mut i: usize = 0;
    while i < nodes.len()
        invariant
            0 <= i <= nodes@.len(),
            nodes@.len() <= nc,
            nc as nat == sg_nodes(g).dom().len(),
            nc + ec + 2 < 0x1000_0000,
            crate::graph::sg_wf(g),
            *fg == g,
            g == func.cfg_spec().sg(),
            forall|x: usize| #[trigger] nodes@.contains(x) <==> sg_nodes(g).contains_key(x as nat),
            nodes@.no_duplicates(),
            regions.wf(),
            regions@.len() == i,
            region_cfg.wf(regions@.len()),
            region_cfg.vexit_spec() == usize::MAX,
            region_cfg.edges().dom() == Set::<nat>::empty(),
            region_cfg.nodes().dom().len() == i,
            forall|x: usize| #[trigger] node_map@.contains_key(x) <==> exists|j: int| 0 <= j < i && nodes@[j] == x,
            forall|j: int| #![trigger nodes@[j]] 0 <= j < i ==> node_map@.contains_key(nodes@[j])
                && region_cfg.nodes().contains_key(node_map@[nodes@[j]] as nat) && region_cfg.nodes()[node_map@[nodes@[j]] as nat] == j
                && regions@[j] == Region::Leaf(sg_nodes(g)[nodes@[j] as nat]),
            forall|y: nat| #[trigger] region_cfg.nodes().contains_key(y) ==> region_cfg.nodes()[y] < i
                && node_map@[nodes@[region_cfg.nodes()[y] as int]] == y,
        decreases nodes@.len() - i,
    {
        let x = nodes[i];
        proof {
            assert(nodes@.contains(x));
        }
        let key = sg_node_weight_of(fg, x);
        let ghost before = region_cfg.nodes();
        proof {
            region_cfg.inner_spec().lemma_wf();
        }
        let (rid, rn) = region_cfg.add_region(&mut regions, Region::Leaf(key));
        node_map.insert(x, rn);
        proof {
            assert(region_cfg.nodes().dom() =~= before.dom().insert(rn as nat));
            assert(region_cfg.nodes().dom().len() == before.dom().len() + 1);
            assert forall|x2: usize| #[trigger] node_map@.contains_key(x2) <==> exists|j: int| 0 <= j < i + 1 && nodes@[j] == x2 by {
                if x2 == x {
                    assert(nodes@[i as int] == x2);
                }
            }
            assert forall|j: int| #![trigger nodes@[j]] 0 <= j < i + 1 implies node_map@.contains_key(nodes@[j])
                && region_cfg.nodes().contains_key(node_map@[nodes@[j]] as nat) && region_cfg.nodes()[node_map@[nodes@[j]] as nat] == j
                && regions@[j] == Region::Leaf(sg_nodes(g)[nodes@[j] as nat]) by {
                if j < i {
                    assert(nodes@[j] != x);
                }
            }
            assert forall|y: nat| #[trigger] region_cfg.nodes().contains_key(y) implies region_cfg.nodes()[y] < i + 1
                && node_map@[nodes@[region_cfg.nodes()[y] as int]] == y by {
                if y != rn as nat {
                    let j = before[y] as int;
                    assert(nodes@[j] != x);
                }
            }
        }
        i = i + 1;
    }
    let ghost nodes1 = region_cfg.nodes();
    let ghost rs0 = regions@;
    let ghost m = Map::new(|x: nat| node_set(g).contains(x), |x: nat| node_map@[x as usize] as nat);
    proof {
        assert forall|x: nat| #[trigger] m.contains_key(x) implies nodes1.contains_key(m[x]) by {
            assert(x < u32::MAX);
            assert(nodes@.contains(x as usize));
            let kx = choose|kx: int| 0 <= kx < nodes@.len() && nodes@[kx] == x as usize;
            assert(nodes@[kx] == x as usize);
        }
        assert(nodes@.len() == nc) by {
            assert(sg_nodes(g).dom().subset_of(nodes@.map_values(|x: usize| x as nat).to_set())) by {
                assert forall|x: nat| #[trigger] sg_nodes(g).dom().contains(x) implies nodes@.map_values(|x: usize| x as nat).to_set().contains(x) by {
                    assert(x < u32::MAX);
                    assert(nodes@.contains(x as usize));
                    let j = choose|j: int| 0 <= j < nodes@.len() && nodes@[j] == x as usize;
                    assert(nodes@.map_values(|x: usize| x as nat)[j] == x);
                }
            }
            vstd::set_lib::lemma_len_subset(sg_nodes(g).dom(), nodes@.map_values(|x: usize| x as nat).to_set());
            nodes@.map_values(|x: usize| x as nat).lemma_cardinality_of_set();
        }
    }
    let edges = sg_edge_indices(fg);
    proof {
        assert forall|j: int| 0 <= j < edges@.len() implies sg_edges(g).dom().contains(#[trigger] edges@[j] as nat) by {
            assert(edges@.contains(edges@[j]));
        }
        crate::cfg_structuring::region::lemma_ascending_len(edges@, sg_edges(g).dom());
    }
    let mut j: usize = 0;
    while j < edges.len()
        invariant
            0 <= j <= edges@.len(),
            edges@.len() <= ec,
            ec as nat == sg_edges(g).dom().len(),
            nc + ec + 2 < 0x1000_0000,
            crate::graph::sg_wf(g),
            *fg == g,
            g == func.cfg_spec().sg(),
            forall|e: usize| #[trigger] edges@.contains(e) <==> sg_edges(g).contains_key(e as nat),
            forall|x: usize| #[trigger] nodes@.contains(x) <==> sg_nodes(g).contains_key(x as nat),
            forall|x: usize| #[trigger] node_map@.contains_key(x) <==> exists|k: int| 0 <= k < nodes@.len() && nodes@[k] == x,
            regions.wf(),
            regions@.len() == nodes@.len(),
            region_cfg.wf(regions@.len()),
            region_cfg.vexit_spec() == usize::MAX,
            region_cfg.nodes() == nodes1,
            region_cfg.edges().dom().len() == j,
            regions@ == rs0,
            forall|k: int| #![trigger nodes@[k]] 0 <= k < nodes@.len() ==> node_map@.contains_key(nodes@[k])
                && nodes1.contains_key(node_map@[nodes@[k]] as nat) && nodes1[node_map@[nodes@[k]] as nat] == k
                && rs0[k] == Region::Leaf(sg_nodes(g)[nodes@[k] as nat]),
            nodes@.len() == nc,
            nc as nat == sg_nodes(g).dom().len(),
            forall|x: nat| #[trigger] m.contains_key(x) ==> nodes1.contains_key(m[x]),
            m == Map::new(|x: nat| node_set(g).contains(x), |x: nat| node_map@[x as usize] as nat),
            func.wf(),
            forall|k: int| #![trigger edges@[k]] 0 <= k < j ==> edge_mirrored(*func, region_cfg, m, sg_edges(g)[edges@[k] as nat]),
            forall|f: nat| #[trigger] region_cfg.edges().contains_key(f) ==> exists|e: nat| #[trigger] sg_edges(g).contains_key(e)
                && m.contains_key(sg_edges(g)[e].0) && region_cfg.edges()[f].0 == m[sg_edges(g)[e].0],
        decreases edges@.len() - j,
    {
        let e = edges[j];
        proof {
            assert(edges@.contains(e));
        }
        let (a, b) = crate::graph::edge_endpoints(fg, e).unwrap();
        let ghost orig = sg_edges(g)[e as nat].2;
        let label = crate::graph::edge_weight(fg, e).unwrap().clone();
        let src_block = sg_node_weight_of(fg, a);
        let cond = branch_condition_for_block(func, src_block);
        let ghost gcond = cond;
        let label = with_condition(label, cond);
        proof {
            assert(label_for(orig, *func, sg_nodes(g)[a as nat], label));
            reveal_strlit("!=");
            reveal_strlit(">");
            reveal_strlit(">=");
            reveal_strlit("<=");
        }
        if !label_readable(&label) {
            proof {
                assert(g == func.cfg_spec().sg());
                assert(unreadable_edge(*func, e as nat));
            }
            return Err(StructureError::UnreadableLabel);
        }
        proof {
            assert(nodes@.contains(a));
            assert(nodes@.contains(b));
            let ka = choose|k: int| 0 <= k < nodes@.len() && nodes@[k] == a;
            let kb = choose|k: int| 0 <= k < nodes@.len() && nodes@[k] == b;
            assert(node_map@.contains_key(a));
            assert(node_map@.contains_key(b));
            assert(m.contains_key(a as nat));
            assert(m.contains_key(b as nat));
        }
        let ra = *node_map.get(&a).unwrap();
        let rb = *node_map.get(&b).unwrap();
        let ghost before = region_cfg.edges();
        let ghost rc_before = region_cfg;
        proof {
            region_cfg.inner_spec().lemma_wf();
        }
        let f = region_cfg.add_edge(ra, rb, label, Ghost(regions@.len()));
        proof {
            assert(region_cfg.edges().dom() =~= before.dom().insert(f as nat));
            assert(region_cfg.edges().dom().len() == before.dom().len() + 1);
            assert forall|k: int| #![trigger edges@[k]] 0 <= k < j + 1 implies edge_mirrored(*func, region_cfg, m, sg_edges(g)[edges@[k] as nat]) by {
                let ek = sg_edges(g)[edges@[k] as nat];
                if k < j {
                    assert(edge_mirrored(*func, rc_before, m, ek));
                    let f2 = choose|f2: nat| #[trigger] before.contains_key(f2) && before[f2].0 == m[ek.0] && before[f2].1 == m[ek.1]
                        && label_for(ek.2, *func, sg_nodes(g)[ek.0], before[f2].2);
                    assert(region_cfg.edges().contains_key(f2));
                    assert(region_cfg.edges()[f2] == before[f2]);
                } else {
                    assert(region_cfg.edges().contains_key(f as nat));
                    assert(region_cfg.edges()[f as nat] == (ra as nat, rb as nat, label));
                }
            }
            assert forall|f2: nat| #[trigger] region_cfg.edges().contains_key(f2) implies exists|e2: nat| #[trigger] sg_edges(g).contains_key(e2)
                && m.contains_key(sg_edges(g)[e2].0) && region_cfg.edges()[f2].0 == m[sg_edges(g)[e2].0] by {
                if f2 == f as nat {
                    assert(sg_edges(g).contains_key(e as nat));
                    assert(m.contains_key(a as nat));
                } else {
                    assert(before.contains_key(f2));
                }
            }
        }
        j = j + 1;
    }
    let ghost rc1 = region_cfg;
    let ghost rs1 = regions@;
    let added = region_cfg.add_vexit(&mut regions);
    proof {
        assert forall|x: nat, y: nat| #![trigger m[x], m[y]] m.contains_key(x) && m.contains_key(y) && m[x] == m[y] implies x == y by {
            assert(x < u32::MAX);
            assert(y < u32::MAX);
            assert(nodes@.contains(x as usize));
            assert(nodes@.contains(y as usize));
            let kx = choose|kx: int| 0 <= kx < nodes@.len() && nodes@[kx] == x as usize;
            let ky = choose|ky: int| 0 <= ky < nodes@.len() && nodes@[ky] == y as usize;
            assert(nodes@[kx] == x as usize);
            assert(nodes@[ky] == y as usize);
        }
    }
    match added {
        Ok(_) => {},
        Err(e) => {
            proof {
                assert forall|x: nat| #[trigger] sg_nodes(g).contains_key(x) implies !is_sink(g, x) by {
                    assert(node_set(g).contains(x));
                    assert(m.contains_key(x));
                    assert(rc1.nodes().contains_key(m[x]));
                    assert(!is_sink(rc1.sg(), m[x]));
                    let f = choose|f: nat| edges_at(rc1.sg(), m[x], Direction::Outgoing).contains(f);
                    assert(rc1.edges().contains_key(f));
                    let e2 = choose|e2: nat| #[trigger] sg_edges(g).contains_key(e2) && m.contains_key(sg_edges(g)[e2].0)
                        && rc1.edges()[f].0 == m[sg_edges(g)[e2].0];
                    assert(sg_edges(g)[e2].0 == x);
                    assert(edges_at(g, x, Direction::Outgoing).contains(e2));
                }
            }
            return Err(e);
        },
    }
    proof {
        let y = choose|y: nat| #[trigger] is_sink(rc1.sg(), y);
        let k = rc1.nodes()[y] as int;
        let x = nodes@[k] as nat;
        assert(node_map@[nodes@[k]] == y);
        assert(nodes@.contains(nodes@[k]));
        assert(m.contains_key(x));
        assert(m[x] == y);
        assert(is_sink(g, x)) by {
            if !edges_at(g, x, Direction::Outgoing).is_empty() {
                let e = choose|e: nat| edges_at(g, x, Direction::Outgoing).contains(e);
                assert(e < u32::MAX);
                assert(edges@.contains(e as usize));
                let k2 = choose|k2: int| 0 <= k2 < edges@.len() && edges@[k2] == e as usize;
                assert(edge_mirrored(*func, rc1, m, sg_edges(g)[edges@[k2] as nat]));
                let f = choose|f: nat| #[trigger] rc1.edges().contains_key(f) && rc1.edges()[f].0 == m[sg_edges(g)[e].0] && rc1.edges()[f].1 == m[sg_edges(g)[e].1]
                    && label_for(sg_edges(g)[e].2, *func, sg_nodes(g)[sg_edges(g)[e].0], rc1.edges()[f].2);
                assert(edges_at(rc1.sg(), y, Direction::Outgoing).contains(f));
            }
        }
        assert(exists|x2: nat| #[trigger] is_sink(g, x2));
    }
    proof {
        assert(added is Ok);
        assert(regions@ == rs0.push(Region::VirtualExit));
        let k = sg_nodes(g).dom().len();
        assert(regions@[k as int] == Region::VirtualExit);
        assert(rs0.len() == k);
        assert forall|i2: int| 0 <= i2 < k implies #[trigger] regions@[i2] is Leaf by {
            assert(nodes@[i2] == nodes@[i2]);
            assert(rs0[i2] == Region::Leaf(sg_nodes(g)[nodes@[i2] as nat]));
            assert(regions@[i2] == rs0[i2]);
        }
        assert forall|i2: int| 0 <= i2 < k implies is_node_leaf(g, #[trigger] regions@[i2]) by {
            assert(nodes@[i2] == nodes@[i2]);
            assert(rs0[i2] == Region::Leaf(sg_nodes(g)[nodes@[i2] as nat]));
            assert(regions@[i2] == rs0[i2]);
            assert(nodes@.contains(nodes@[i2]));
            assert(sg_nodes(g).contains_key(nodes@[i2] as nat));
        }
        assert forall|x: nat| #[trigger] m.contains_key(x) implies region_cfg.nodes().contains_key(m[x]) && m[x] != region_cfg.vexit_spec()
            && regions@[region_cfg.nodes()[m[x]] as int] == Region::Leaf(sg_nodes(g)[x]) by {
            assert(x < u32::MAX);
            assert(nodes@.contains(x as usize));
            let kx = choose|kx: int| 0 <= kx < nodes@.len() && nodes@[kx] == x as usize;
            assert(nodes@[kx] == x as usize);
        }
        assert forall|x: nat, y: nat| #![trigger m[x], m[y]] m.contains_key(x) && m.contains_key(y) && m[x] == m[y] implies x == y by {
            assert(x < u32::MAX);
            assert(y < u32::MAX);
            assert(nodes@.contains(x as usize));
            assert(nodes@.contains(y as usize));
            let kx = choose|kx: int| 0 <= kx < nodes@.len() && nodes@[kx] == x as usize;
            let ky = choose|ky: int| 0 <= ky < nodes@.len() && nodes@[ky] == y as usize;
            assert(nodes@[kx] == x as usize);
            assert(nodes@[ky] == y as usize);
        }
        assert forall|e: nat| #[trigger] sg_edges(g).contains_key(e) implies edge_mirrored(*func, region_cfg, m, sg_edges(g)[e]) by {
            assert(e < u32::MAX);
            assert(edges@.contains(e as usize));
            let k = choose|k: int| 0 <= k < edges@.len() && edges@[k] == e as usize;
            assert(edges@[k] == e as usize);
            let ee = sg_edges(g)[e];
            assert(edge_mirrored(*func, rc1, m, ee));
            let f = choose|f: nat| #[trigger] rc1.edges().contains_key(f) && rc1.edges()[f].0 == m[ee.0] && rc1.edges()[f].1 == m[ee.1]
                && label_for(ee.2, *func, sg_nodes(g)[ee.0], rc1.edges()[f].2);
            assert(region_cfg.edges().contains_key(f));
        }
        assert(m.dom() =~= node_set(g));
        assert(mirrors(*func, region_cfg, regions@, m));
    }
    Ok((region_cfg, regions))
}

/// `r` is the leaf region of the block that some node of `g` carries.
pub open spec fn is_node_leaf(g: Sg, r: Region) -> bool {
    exists|x: nat| sg_nodes(g).contains_key(x) && r == Region::Leaf(sg_nodes(g)[x])
}

/// The block that node `x` of a function's graph carries.
fn sg_node_weight_of(g: &Sg, x: usize) -> (res: usize)
    requires
        crate::graph::sg_wf(*g),
        sg_nodes(*g).contains_key(x as nat),
    ensures
        res == sg_nodes(*g)[x as nat],
{
    crate::graph::node_weight(g, x).unwrap()
}

/// The regions of `old` stay the first regions of `new`, and none of the regions added after
/// them is a leaf.
pub open spec fn keeps_regions(old_regions: Seq<Region>, new_regions: Seq<Region>) -> bool {
    &&& new_regions.len() >= old_regions.len()
    &&& new_regions.take(old_regions.len() as int) == old_regions
    &&& forall|i: int| old_regions.len() <= i < new_regions.len() ==> !(#[trigger] new_regions[i] is Leaf)
}

proof fn lemma_keeps_regions_trans(a: Seq<Region>, b: Seq<Region>, c: Seq<Region>)
    requires
        keeps_regions(a, b),
        keeps_regions(b, c),
    ensures
        keeps_regions(a, c),
{
    assert(c.take(a.len() as int) =~= c.take(b.len() as int).take(a.len() as int));
    assert forall|i: int| a.len() <= i < c.len() implies !(#[trigger] c[i] is Leaf) by {
        if i < b.len() {
            assert(c.take(b.len() as int)[i] == c[i]);
        }
    }
}

proof fn lemma_keeps_regions_push(a: Seq<Region>, r: Region)
    requires
        !(r is Leaf),
    ensures
        keeps_regions(a, a.push(r)),
{
    assert(a.push(r).take(a.len() as int) =~= a);
}

/// Walks the nodes reached from the entry in post order and applies the first reduction found
/// at one of them: a loop, a sequence or a conditional; returns whether it applied one.
fn reduce_once(
    cfg: &mut RegionCfg,
    regions: &mut RegionStore,
    virtualized_edges: &mut Vec<VirtualizedEdge>,
    next_loop_index: &mut usize,
    budget: usize,
) -> (res: Result<bool, StructureError>)
    requires
        old(cfg).wf(old(regions)@.len()),
        old(regions).wf(),
        old(cfg).nodes().contains_key(old(cfg).vexit_spec() as nat),
    ensures
        res matches Err(e) ==> e != StructureError::UnreadableLabel,
        final(regions).wf(),
        final(cfg).wf(final(regions)@.len()),
        final(cfg).vexit_spec() == old(cfg).vexit_spec(),
        keeps_regions(old(regions)@, final(regions)@),
        res is Ok ==> final(cfg).nodes().contains_key(final(cfg).vexit_spec() as nat),
        res == Ok::<bool, StructureError>(false) ==> *final(cfg) == *old(cfg) && final(regions)@ == old(regions)@
            && no_reduction_left(*old(cfg)),
        *final(next_loop_index) >= *old(next_loop_index),
        res matches Err(StructureError::LoopBodyIrreducible { index }) ==> index >= *old(next_loop_index),
    decreases budget, 2nat,
{
    proof {
        cfg.inner_spec().lemma_wf();
        lemma_keeps_regions_push(regions@, Region::VirtualExit);
        assert(regions@.take(regions@.len() as int) =~= regions@);
    }
    match graph_size(cfg) {
        Some(_) => {},
        None => {
            return Err(StructureError::TooLarge);
        },
    }
    let entry = match cfg.entry() {
        Some(e) => e,
        None => {
            return Err(StructureError::NoEntry);
        },
    };
    let ghost g = cfg.sg();
    let order = sg_dfs_post_order(cfg.graph(), entry);
    let mut i: usize = 0;
    while i < order.len()
        invariant
            0 <= i <= order@.len(),
            *cfg == *old(cfg),
            *regions == *old(regions),
            g == cfg.sg(),
            cfg.wf(regions@.len()),
            regions.wf(),
            cfg.nodes().contains_key(cfg.vexit_spec() as nat),
            cfg.nodes().dom().len() + cfg.edges().dom().len() + 2 < 0x1000_0000,
            is_entry(g, entry as nat),
            forall|x: usize| #[trigger] order@.contains(x) <==> reaches(node_set(g), forward(g), entry as nat, x as nat),
            forall|j: int| 0 <= j < i ==> no_reduction_at(*cfg, #[trigger] order@[j] as nat),
            keeps_regions(regions@, regions@),
            *next_loop_index == *old(next_loop_index),
        decreases order@.len() - i,
    {
        let head = order[i];
        let found = find_reduction(cfg, head, *next_loop_index);
        match found {
            Err(e) => {
                return Err(e);
            },
            Ok(Some(Reduction::Cycle { target: _, raw_loop })) => {
                proof {
                    assert(is_source(g, entry as nat));
                }
                match reduce_cycle(cfg, regions, virtualized_edges, next_loop_index, raw_loop, budget) {
                    Ok(()) => {},
                    Err(e) => {
                        return Err(e);
                    },
                }
                return Ok(true);
            },
            Ok(Some(Reduction::Sequence(seq))) => {
                if !all_nodes_present(cfg, &seq) {
                    return Err(StructureError::MissingNode);
                }
                let ghost r0 = regions@;
                contract_seq(cfg, regions, seq.as_slice());
                proof {
                    assert(regions@.take(r0.len() as int) =~= regions@.drop_last());
                    cfg.inner_spec().lemma_wf();
                }
                if !contains_node(cfg.graph(), cfg.vexit()) {
                    return Err(StructureError::MissingNode);
                }
                return Ok(true);
            },
            Ok(Some(Reduction::If(s))) => {
                if !check_if_contractible(cfg, &s) {
                    return Err(StructureError::MissingEdge);
                }
                let ghost r0 = regions@;
                contract_if(cfg, regions, s);
                proof {
                    assert(regions@.take(r0.len() as int) =~= regions@.drop_last());
                    cfg.inner_spec().lemma_wf();
                }
                if !contains_node(cfg.graph(), cfg.vexit()) {
                    return Err(StructureError::MissingNode);
                }
                return Ok(true);
            },
            Ok(None) => {},
        }
        i = i + 1;
    }
    proof {
        assert forall|r: nat, x: nat|
            #![trigger is_entry(g, r), reaches(node_set(g), forward(g), r, x)]
            is_entry(g, r) && reaches(node_set(g), forward(g), r, x) implies no_reduction_at(*cfg, x) by {
            if r < entry as nat {
                assert(!is_source(g, r));
            } else if r > entry as nat {
                assert(!is_source(g, entry as nat));
            }
            crate::graph::lemma_reached_is_node(node_set(g), forward(g), r, x);
            assert(x < u32::MAX);
            assert(order@.contains(x as usize));
            let j = choose|j: int| 0 <= j < order@.len() && order@[j] == x as usize;
            assert(order@[j] as nat == x);
        }
    }
    Ok(false)
}

/// Structures the loop that `raw_loop` describes: picks its entry and exit, takes its other
/// edges out, reduces its body to one region in a graph of its own and contracts the loop into
/// one node of `cfg`.
fn reduce_cycle(
    cfg: &mut RegionCfg,
    regions: &mut RegionStore,
    virtualized_edges: &mut Vec<VirtualizedEdge>,
    next_loop_index: &mut usize,
    raw_loop: RawLoop,
    budget: usize,
) -> (res: Result<(), StructureError>)
    requires
        old(cfg).wf(old(regions)@.len()),
        old(regions).wf(),
        old(cfg).nodes().contains_key(old(cfg).vexit_spec() as nat),
        raw_loop.wf(old(cfg).sg()),
        sg_nodes(old(cfg).sg()).contains_key(raw_loop.head as nat),
        exists|x: nat| is_source(old(cfg).sg(), x),
        raw_loop.loop_index == *old(next_loop_index),
    ensures
        res matches Err(e) ==> e != StructureError::UnreadableLabel,
        final(regions).wf(),
        final(cfg).wf(final(regions)@.len()),
        final(cfg).vexit_spec() == old(cfg).vexit_spec(),
        keeps_regions(old(regions)@, final(regions)@),
        res is Ok ==> final(cfg).nodes().contains_key(final(cfg).vexit_spec() as nat),
        *final(next_loop_index) >= *old(next_loop_index),
        res matches Err(StructureError::LoopBodyIrreducible { index }) ==> index >= *old(next_loop_index),
    decreases budget, 1nat,
{
    proof {
        assert(regions@.take(regions@.len() as int) =~= regions@);
    }
    if raw_loop.entries.len() == 0 {
        return Err(StructureError::NoEntry);
    }
    if *next_loop_index == usize::MAX {
        return Err(StructureError::TooLarge);
    }
    let ghost n0 = regions@.len();
    let ghost r0 = regions@;
    let mut raw_loop = raw_loop;
    let (structured_loop, tail_edges) = find_loop(cfg, &mut raw_loop, Ghost(n0));
    *next_loop_index = *next_loop_index + 1;
    let mut k: usize = 0;
    while k < tail_edges.len()
        invariant
            0 <= k <= tail_edges@.len(),
        decreases tail_edges@.len() - k,
    {
        let t = &tail_edges[k];
        virtualized_edges.push(VirtualizedEdge { source: t.0, target: t.1, label: t.2.clone() });
        k = k + 1;
    }
    if budget == 0 {
        return Err(StructureError::NoProgress);
    }
    proof {
        cfg.inner_spec().lemma_wf();
    }
    match graph_size(cfg) {
        Some(_) => {},
        None => {
            return Err(StructureError::TooLarge);
        },
    }
    let mut body_cfg = match create_loop_body_cfg(cfg, &structured_loop, regions) {
        Ok(b) => b,
        Err(e) => {
            return Err(e);
        },
    };
    let ghost r1 = regions@;
    proof {
        lemma_wf_grow(*cfg, n0, regions@.len());
    }
    let body_region = match reduce_loop_body(
        &mut body_cfg,
        regions,
        virtualized_edges,
        next_loop_index,
        structured_loop.index,
        budget - 1,
    ) {
        Ok(r) => r,
        Err(e) => {
            proof {
                lemma_keeps_regions_trans(r0, r1, regions@);
                lemma_wf_grow(*cfg, n0, regions@.len());
            }
            return Err(e);
        },
    };
    proof {
        lemma_keeps_regions_trans(r0, r1, regions@);
        lemma_wf_grow(*cfg, n0, regions@.len());
        cfg.inner_spec().lemma_wf();
    }
    match graph_size(cfg) {
        Some(_) => {},
        None => {
            return Err(StructureError::TooLarge);
        },
    }
    collapse_loop_body(cfg, &structured_loop, body_region, Ghost(regions@.len()));
    proof {
        cfg.inner_spec().lemma_wf();
    }
    match structured_loop.loop_exit.exit_node {
        Some(x) => {
            if !contains_node(cfg.graph(), x) {
                return Err(StructureError::MissingNode);
            }
        },
        None => {},
    }
    proof {
        cfg.inner_spec().lemma_wf();
    }
    match graph_size(cfg) {
        Some(_) => {},
        None => {
            return Err(StructureError::TooLarge);
        },
    }
    let ghost r2 = regions@;
    contract_cyclic_region(cfg, regions, &structured_loop, body_region);
    proof {
        assert(regions@.take(r2.len() as int) =~= regions@.drop_last());
        lemma_keeps_regions_trans(r0, r2, regions@);
        cfg.inner_spec().lemma_wf();
    }
    if !contains_node(cfg.graph(), cfg.vexit()) {
        return Err(StructureError::MissingNode);
    }
    Ok(())
}

/// Reduces the graph of a loop's body until one region is left beside its virtual exit, and
/// returns that region; fails where no reduction applies before that.
fn reduce_loop_body(
    cfg: &mut RegionCfg,
    regions: &mut RegionStore,
    virtualized_edges: &mut Vec<VirtualizedEdge>,
    next_loop_index: &mut usize,
    loop_index: usize,
    budget: usize,
) -> (res: Result<RegionId, StructureError>)
    requires
        old(cfg).wf(old(regions)@.len()),
        old(regions).wf(),
        old(cfg).nodes().contains_key(old(cfg).vexit_spec() as nat),
        loop_index < *old(next_loop_index),
    ensures
        res matches Err(e) ==> e != StructureError::UnreadableLabel,
        final(regions).wf(),
        keeps_regions(old(regions)@, final(regions)@),
        res matches Ok(r) ==> r < final(regions)@.len(),
        res matches Ok(r) ==> final(cfg).nodes().dom().len() <= 2 && exists|x: nat| #[trigger] final(cfg).nodes().contains_key(x)
            && x != final(cfg).vexit_spec() && final(cfg).nodes()[x] == r,
        *final(next_loop_index) >= *old(next_loop_index),
        res matches Err(StructureError::LoopBodyIrreducible { index }) ==> index >= loop_index,
        res matches Err(StructureError::LoopBodyIrreducible { index }) && index == loop_index ==> final(cfg).nodes().dom().len()
            > 2 && no_reduction_left(*final(cfg)),
    decreases budget, 3nat,
{
    proof {
        assert(regions@.take(regions@.len() as int) =~= regions@);
    }
    loop
        invariant
            cfg.wf(regions@.len()),
            regions.wf(),
            cfg.nodes().contains_key(cfg.vexit_spec() as nat),
            keeps_regions(old(regions)@, regions@),
            *next_loop_index >= *old(next_loop_index),
            loop_index < *old(next_loop_index),
        ensures
            cfg.wf(regions@.len()),
            regions.wf(),
            keeps_regions(old(regions)@, regions@),
            cfg.nodes().dom().len() <= 2,
            *next_loop_index >= *old(next_loop_index),
        decreases cfg.nodes().dom().len() + cfg.edges().dom().len(),
    {
        proof {
            cfg.inner_spec().lemma_wf();
        }
        let nc = sg_node_count(cfg.graph());
        if nc <= 2 {
            break;
        }
        let before = match graph_size(cfg) {
            Some(s) => s,
            None => {
                return Err(StructureError::TooLarge);
            },
        };
        let ghost r0 = regions@;
        let ghost c0 = *cfg;
        let step = reduce_once(cfg, regions, virtualized_edges, next_loop_index, budget);
        proof {
            lemma_keeps_regions_trans(old(regions)@, r0, regions@);
            cfg.inner_spec().lemma_wf();
        }
        let progress = match step {
            Ok(p) => p,
            Err(e) => {
                return Err(e);
            },
        };
        if !progress {
            return Err(StructureError::LoopBodyIrreducible { index: loop_index });
        }
        let after = match graph_size(cfg) {
            Some(s) => s,
            None => {
                return Err(StructureError::TooLarge);
            },
        };
        if after >= before {
            return Err(StructureError::NoProgress);
        }
    }
    proof {
        cfg.inner_spec().lemma_wf();
    }
    let nodes = sg_node_indices(cfg.graph());
    let vexit = cfg.vexit();
    let mut i: usize = 0;
    while i < nodes.len()
        invariant
            0 <= i <= nodes@.len(),
            cfg.wf(regions@.len()),
            regions.wf(),
            keeps_regions(old(regions)@, regions@),
            cfg.nodes().dom().len() <= 2,
            vexit == cfg.vexit_spec(),
            *next_loop_index >= *old(next_loop_index),
            forall|x: usize| #[trigger] nodes@.contains(x) <==> sg_nodes(cfg.sg()).contains_key(x as nat),
        decreases nodes@.len() - i,
    {
        let x = nodes[i];
        if x != vexit {
            proof {
                assert(nodes@.contains(x));
                cfg.inner_spec().lemma_wf();
                assert(cfg.nodes().contains_key(x as nat));
            }
            let key = cfg.key_for_node(x).unwrap();
            return Ok(key);
        }
        i = i + 1;
    }
    Err(StructureError::MissingNode)
}

/// Structures the graph of `func`: builds its region graph, then applies reductions at the
/// nodes reached from the entry, in post order, until two nodes are left or none applies.
pub fn structure_cfg(func: &Function) -> (res: Result<StructuredCfg, StructureError>)
    requires
        func.wf(),
    ensures
        res matches Ok(s) ==> {
            let g = func.cfg_spec().sg();
            let k = sg_nodes(g).dom().len();
            &&& s.wf()
            &&& s.regions@.len() > k
            &&& s.regions@[k as int] == Region::VirtualExit
            &&& forall|i: int| 0 <= i < k ==> #[trigger] s.regions@[i] is Leaf
            &&& forall|x: nat| #[trigger] sg_nodes(g).contains_key(x) ==> exists|i: int|
                0 <= i < k && #[trigger] s.regions@[i] == Region::Leaf(sg_nodes(g)[x])
            &&& s.cfg.nodes().dom().len() <= 2 || no_reduction_left(s.cfg)
            &&& func.keys_in_arena() ==> crate::cfg_structuring::render::leaves_within(s.regions@, func.blocks_spec().len())
        },
        res matches Err(e) ==> (e == StructureError::UnreadableLabel ==> exists|f: nat| #[trigger] unreadable_edge(*func, f)),
        res is Ok ==> exists|x: nat| #[trigger] is_sink(func.cfg_spec().sg(), x),
{
    let (mut region_cfg, mut regions) = match build_region_cfg(func) {
        Ok(built) => built,
        Err(e) => {
            return Err(e);
        },
    };
    let ghost g = func.cfg_spec().sg();
    let ghost k = sg_nodes(g).dom().len();
    let ghost rs0 = regions@;
    let ghost rc0 = region_cfg;
    proof {
        assert(regions@.take(regions@.len() as int) =~= regions@);
        region_cfg.inner_spec().lemma_wf();
    }
    let mut next_loop_index: usize = 0;
    let mut virtualized_edges: Vec<VirtualizedEdge> = Vec::new();
    let budget = sg_node_count(region_cfg.graph());
    loop
        invariant
            region_cfg.wf(regions@.len()),
            regions.wf(),
            region_cfg.nodes().contains_key(region_cfg.vexit_spec() as nat),
            keeps_regions(rs0, regions@),
        ensures
            region_cfg.wf(regions@.len()),
            regions.wf(),
            region_cfg.nodes().contains_key(region_cfg.vexit_spec() as nat),
            keeps_regions(rs0, regions@),
            region_cfg.nodes().dom().len() <= 2 || no_reduction_left(region_cfg),
        decreases region_cfg.nodes().dom().len() + region_cfg.edges().dom().len(),
    {
        proof {
            region_cfg.inner_spec().lemma_wf();
        }
        let nc = sg_node_count(region_cfg.graph());
        if nc <= 2 {
            break;
        }
        let before = match graph_size(&region_cfg) {
            Some(s) => s,
            None => {
                return Err(StructureError::TooLarge);
            },
        };
        let ghost r0 = regions@;
        let step = reduce_once(&mut region_cfg, &mut regions, &mut virtualized_edges, &mut next_loop_index, budget);
        proof {
            lemma_keeps_regions_trans(rs0, r0, regions@);
            region_cfg.inner_spec().lemma_wf();
        }
        let progress = match step {
            Ok(p) => p,
            Err(e) => {
                return Err(e);
            },
        };
        if !progress {
            break;
        }
        let after = match graph_size(&region_cfg) {
            Some(s) => s,
            None => {
                return Err(StructureError::TooLarge);
            },
        };
        if after >= before {
            return Err(StructureError::NoProgress);
        }
    }
    proof {
        let m = choose|m: Map<nat, nat>| mirrors(*func, rc0, rs0, m);
        assert(regions@.take(rs0.len() as int) == rs0);
        assert forall|i: int| 0 <= i < rs0.len() implies regions@[i] == rs0[i] by {
            assert(regions@.take(rs0.len() as int)[i] == regions@[i]);
        }
        assert(regions@[k as int] == Region::VirtualExit);
        assert forall|i: int| 0 <= i < k implies #[trigger] regions@[i] is Leaf by {
            assert(regions@[i] == rs0[i]);
        }
        if func.keys_in_arena() {
            assert forall|i: int| 0 <= i < regions@.len() implies (#[trigger] regions@[i] matches Region::Leaf(b) ==> b
                < func.blocks_spec().len()) by {
                if i < k {
                    assert(regions@[i] == rs0[i]);
                    assert(is_node_leaf(g, rs0[i]));
                    let x = choose|x: nat| sg_nodes(g).contains_key(x) && rs0[i] == Region::Leaf(sg_nodes(g)[x]);
                    assert(func.cfg_spec().nodes().contains_key(x));
                } else if i == k {
                    assert(regions@[i] == rs0[i]);
                } else {
                    assert(!(regions@[i] is Leaf));
                }
            }
        }
        assert forall|x: nat| #[trigger] sg_nodes(g).contains_key(x) implies exists|i: int|
            0 <= i < k && #[trigger] regions@[i] == Region::Leaf(sg_nodes(g)[x]) by {
            assert(m.contains_key(x));
            let i = rc0.nodes()[m[x]] as int;
            assert(rc0.nodes().contains_key(m[x]));
            assert(i < rs0.len());
            assert(rs0[i] == Region::Leaf(sg_nodes(g)[x]));
            assert(i != k);
            assert(regions@[i] == rs0[i]);
        }
    }
    Ok(StructuredCfg { cfg: region_cfg, regions, virtualized_edges })
}

} // verus!
