use vstd::prelude::*;

use crate::cfg_recovery::cfg::{Condition, EdgeLabel, TailKind};
use crate::cfg_structuring::region::{
    label_ok, labels_ok, vec_contains, Region, RegionCfg, RegionDominanceView, RegionId, RegionStore, StructureError,
};
use crate::graph::{
    backward, edges_at, has_edge, neighbor_set, neighbors_directed, node_of_key, node_set, reaches,  sg_edges,
     sg_nodes, sg_reverse_dfs_avoiding, sg_wf, unique_keys, Direction, IndexedGraphView, IndexedGraphViewMut, Sg,
};

verus! {

broadcast use vstd::seq_lib::group_seq_properties;

/// The shape of a structured loop.
#[derive(Debug, Clone, Copy, PartialEq, Eq, Structural)]
pub enum LoopKind {
    While,
    DoWhile,
    NatLoop,
}

/// The single exit chosen for a loop: its kind, and the node, edge and label it leaves by.
#[derive(Debug)]
pub struct LoopExit {
    pub kind: LoopKind,
    pub exit_node: Option<usize>,
    pub exit_edge: Option<usize>,
    pub exit_label: Option<EdgeLabel>,
}

impl Clone for LoopExit {
    fn clone(&self) -> (res: Self)
        ensures
            res == *self,
    {
        LoopExit {
            kind: self.kind,
            exit_node: self.exit_node,
            exit_edge: self.exit_edge,
            exit_label: match &self.exit_label {
                Some(l) => Some(l.clone()),
                None => None,
            },
        }
    }
}

impl LoopExit {
    pub fn kind(&self) -> (res: LoopKind)
        ensures
            res == self.kind,
    {
        self.kind
    }

    pub fn exit_node(&self) -> (res: Option<usize>)
        ensures
            res == self.exit_node,
    {
        self.exit_node
    }

    pub fn exit_edge(&self) -> (res: Option<usize>)
        ensures
            res == self.exit_edge,
    {
        self.exit_edge
    }

    /// The exit node and edge, where both are known.
    pub fn exit(&self) -> (res: Option<(usize, usize)>)
        ensures
            res == (match (self.exit_node, self.exit_edge) {
                (Some(n), Some(e)) => Some((n, e)),
                _ => None,
            }),
    {
        match (self.exit_node, self.exit_edge) {
            (Some(n), Some(e)) => Some((n, e)),
            _ => None,
        }
    }

    /// The exit node and the label to leave the loop by, where both are known.
    pub open spec fn exit_target_and_label_spec(&self) -> Option<(usize, EdgeLabel)> {
        match (self.exit_node, self.exit_label) {
            (Some(n), Some(l)) => Some((n, l)),
            _ => None,
        }
    }

    /// The exit node and the label to leave the loop by, where both are known.
    pub fn exit_target_and_label(&self) -> (res: Option<(usize, EdgeLabel)>)
        ensures
            res == self.exit_target_and_label_spec(),
    {
        match (self.exit_node, &self.exit_label) {
            (Some(n), Some(l)) => Some((n, l.clone())),
            _ => None,
        }
    }
}

/// A loop as structuring records it: its index, its exit, its head and entry regions, the
/// regions of its body, and the condition under which it goes on.
#[derive(Debug)]
pub struct StructuredLoop {
    pub index: usize,
    pub loop_exit: LoopExit,
    pub head: RegionId,
    pub entry: RegionId,
    pub body: Vec<RegionId>,
    pub cond: Option<Condition>,
}

impl Clone for StructuredLoop {
    fn clone(&self) -> (res: Self)
        ensures
            res.index == self.index,
            res.loop_exit == self.loop_exit,
            res.head == self.head,
            res.entry == self.entry,
            res.body@ == self.body@,
            res.cond == self.cond,
    {
        StructuredLoop {
            index: self.index,
            loop_exit: self.loop_exit.clone(),
            head: self.head,
            entry: self.entry,
            body: self.body.clone(),
            cond: match &self.cond {
                Some(c) => Some(c.clone()),
                None => None,
            },
        }
    }
}

impl StructuredLoop {
    pub fn new(
        index: usize,
        loop_exit: LoopExit,
        head: RegionId,
        entry: RegionId,
        body: Vec<RegionId>,
        cond: Option<Condition>,
    ) -> (res: Self)
        ensures
            res.index == index,
            res.loop_exit == loop_exit,
            res.head == head,
            res.entry == entry,
            res.body == body,
            res.cond == cond,
    {
        StructuredLoop { index, loop_exit, head, entry, body, cond }
    }
}


/// The nodes of the loop that the back edge from `target` to `head` closes: `target` alone where
/// it is its own head, and otherwise the head with every node that reaches `target` without
/// passing through the head.
pub open spec fn loop_nodes(g: Sg, target: usize, head: usize) -> Set<nat> {
    if target == head {
        set![target as nat]
    } else {
        Set::new(|n: nat| reaches(node_set(g).remove(head as nat), backward(g), target as nat, n)).insert(head as nat)
    }
}

/// The nodes of `nodes` that some edge enters from outside them.
pub open spec fn entry_nodes(g: Sg, nodes: Seq<usize>) -> Set<usize> {
    Set::new(|n: usize| nodes.contains(n) && exists|p: usize| #[trigger] neighbor_set(g, n as nat, Direction::Incoming).contains(p as nat) && !nodes.contains(p))
}

/// The edges that leave `nodes`.
pub open spec fn exit_edge_set(g: Sg, nodes: Seq<usize>) -> Set<nat> {
    Set::new(|e: nat| sg_edges(g).contains_key(e) && nodes.contains(sg_edges(g)[e].0 as usize) && !nodes.contains(sg_edges(g)[e].1 as usize))
}

/// A loop as first found: its index, its nodes, its head, the nodes entered from outside, and
/// the edges that leave it.
pub struct RawLoop {
    pub loop_index: usize,
    pub nodes: Vec<usize>,
    pub head: usize,
    pub entries: Vec<usize>,
    pub exit_edges: Vec<usize>,
}

impl RawLoop {
    /// The entries and exits of a loop are those of its nodes in `g`.
    pub open spec fn wf(&self, g: Sg) -> bool {
        &&& self.nodes@.no_duplicates()
        &&& self.entries@.no_duplicates()
        &&& self.exit_edges@.no_duplicates()
        &&& forall|n: usize| #[trigger] self.entries@.contains(n) <==> entry_nodes(g, self.nodes@).contains(n)
        &&& forall|e: usize| #[trigger] self.exit_edges@.contains(e) <==> exit_edge_set(g, self.nodes@).contains(e as nat)
        &&& forall|i: int| 0 <= i < self.nodes@.len() ==> sg_nodes(g).contains_key(#[trigger] self.nodes@[i] as nat)
    }

    /// The loop of `nodes` with head `head`, with its entries and exits in `cfg`.
    pub fn new(cfg: &RegionCfg, loop_index: usize, nodes: Vec<usize>, head: usize) -> (res: Self)
        requires
            cfg.inner_spec().wf(),
            nodes@.no_duplicates(),
            forall|i: int| 0 <= i < nodes@.len() ==> sg_nodes(cfg.sg()).contains_key(#[trigger] nodes@[i] as nat),
        ensures
            res.wf(cfg.sg()),
            res.loop_index == loop_index,
            res.nodes == nodes,
            res.head == head,
    {
        let entries = extract_entry_nodes(cfg, &nodes);
        let exit_edges = extract_exit_edges(cfg, &nodes);
        RawLoop { loop_index, nodes, head, entries, exit_edges }
    }
}

/// The nodes of `nodes` that some edge enters from outside them.
pub(crate) fn extract_entry_nodes(cfg: &RegionCfg, nodes: &Vec<usize>) -> (res: Vec<usize>)
    requires
        cfg.inner_spec().wf(),
        nodes@.no_duplicates(),
    ensures
        res@.no_duplicates(),
        forall|n: usize| #[trigger] res@.contains(n) <==> entry_nodes(cfg.sg(), nodes@).contains(n),
{
    proof {
        cfg.inner_spec().lemma_wf();
    }
    let mut res: Vec<usize> = Vec::new();
    let mut i: usize = 0;
    while i < nodes.len()
        invariant
            cfg.inner_spec().wf(),
            0 <= i <= nodes@.len(),
            nodes@.no_duplicates(),
            res@.no_duplicates(),
            forall|n: usize| #[trigger] res@.contains(n) <==> (exists|k: int| 0 <= k < i && nodes@[k] == n) && entry_nodes(cfg.sg(), nodes@).contains(n),
        decreases nodes@.len() - i,
    {
        let node = nodes[i];
        proof {
            cfg.inner_spec().lemma_wf();
        }
        let preds = neighbors_directed(cfg.graph(), node, Direction::Incoming);
        let mut found = false;
        let mut j: usize = 0;
        while j < preds.len()
            invariant
                0 <= j <= preds@.len(),
                found == exists|k: int| 0 <= k < j && !nodes@.contains(#[trigger] preds@[k]),
            decreases preds@.len() - j,
        {
            if !vec_contains(nodes, preds[j]) {
                found = true;
            }
            j = j + 1;
        }
        let ghost before = res@;
        if found {
            proof {
                assert(!res@.contains(node)) by {
                    if res@.contains(node) {
                        let k = choose|k: int| 0 <= k < i && nodes@[k] == node;
                        assert(nodes@[k] == nodes@[i as int]);
                    }
                }
            }
            res.push(node);
        }
        proof {
            assert(nodes@.contains(node));
            assert(found == exists|p: usize| #[trigger] neighbor_set(cfg.sg(), node as nat, Direction::Incoming).contains(p as nat) && !nodes@.contains(p)) by {
                if found {
                    let k = choose|k: int| 0 <= k < j && !nodes@.contains(#[trigger] preds@[k]);
                    assert(preds@.contains(preds@[k]));
                }
                if exists|p: usize| #[trigger] neighbor_set(cfg.sg(), node as nat, Direction::Incoming).contains(p as nat) && !nodes@.contains(p) {
                    let p = choose|p: usize| #[trigger] neighbor_set(cfg.sg(), node as nat, Direction::Incoming).contains(p as nat) && !nodes@.contains(p);
                    assert(preds@.contains(p));
                    let k = choose|k: int| 0 <= k < preds@.len() && preds@[k] == p;
                }
            }
            assert forall|n: usize| #[trigger] res@.contains(n) <==> (exists|k: int| 0 <= k < i + 1 && nodes@[k] == n) && entry_nodes(cfg.sg(), nodes@).contains(n) by {
                if n == node {
                    assert(nodes@[i as int] == n);
                }
                if res@.contains(n) && n != node {
                    assert(before.contains(n));
                }
                if (exists|k: int| 0 <= k < i + 1 && nodes@[k] == n) && n != node {
                    let k = choose|k: int| 0 <= k < i + 1 && nodes@[k] == n;
                    assert(k < i);
                }
            }
        }
        i = i + 1;
    }
    proof {
        assert forall|n: usize| #[trigger] res@.contains(n) <==> entry_nodes(cfg.sg(), nodes@).contains(n) by {
            if entry_nodes(cfg.sg(), nodes@).contains(n) {
                let k = choose|k: int| 0 <= k < nodes@.len() && nodes@[k] == n;
            }
        }
    }
    res
}

/// The edges that leave `nodes`.
pub(crate) fn extract_exit_edges(cfg: &RegionCfg, nodes: &Vec<usize>) -> (res: Vec<usize>)
    requires
        cfg.inner_spec().wf(),
        nodes@.no_duplicates(),
    ensures
        res@.no_duplicates(),
        forall|e: usize| #[trigger] res@.contains(e) <==> exit_edge_set(cfg.sg(), nodes@).contains(e as nat),
{
    proof {
        cfg.inner_spec().lemma_wf();
    }
    let ghost g = cfg.sg();
    let mut res: Vec<usize> = Vec::new();
    let mut i: usize = 0;
    while i < nodes.len()
        invariant
            cfg.inner_spec().wf(),
            g == cfg.sg(),
            sg_wf(g),
            0 <= i <= nodes@.len(),
            nodes@.no_duplicates(),
            res@.no_duplicates(),
            forall|e: usize| #[trigger] res@.contains(e) <==> exit_edge_set(g, nodes@).contains(e as nat) && (exists|k: int|
                0 <= k < i && nodes@[k] as nat == sg_edges(g)[e as nat].0),
        decreases nodes@.len() - i,
    {
        let node = nodes[i];
        let edges = crate::graph::edges_directed(cfg.graph(), node, Direction::Outgoing);
        let ghost before = res@;
        let mut j: usize = 0;
        while j < edges.len()
            invariant
                sg_wf(g),
                g == cfg.sg(),
                0 <= j <= edges@.len(),
                0 <= i < nodes@.len(),
                node == nodes@[i as int],
                nodes@.no_duplicates(),
                edges@.no_duplicates(),
                forall|e: usize| #[trigger] edges@.contains(e) <==> edges_at(g, node as nat, Direction::Outgoing).contains(e as nat),
                res@.no_duplicates(),
                forall|e: usize| #[trigger] before.contains(e) ==> exit_edge_set(g, nodes@).contains(e as nat) && (exists|k: int|
                    0 <= k < i && nodes@[k] as nat == sg_edges(g)[e as nat].0),
                forall|e: usize| #[trigger] res@.contains(e) <==> before.contains(e) || ((exists|k: int| 0 <= k < j && edges@[k] == e)
                    && exit_edge_set(g, nodes@).contains(e as nat)),
            decreases edges@.len() - j,
        {
            let e = edges[j];
            proof {
                assert(edges@.contains(e));
            }
            let (_, b) = crate::graph::edge_endpoints(cfg.graph(), e).unwrap();
            if !vec_contains(nodes, b) {
                proof {
                    assert(!res@.contains(e)) by {
                        if res@.contains(e) {
                            if before.contains(e) {
                                let k = choose|k: int| 0 <= k < i && nodes@[k] as nat == sg_edges(g)[e as nat].0;
                                assert(nodes@[k] == nodes@[i as int]);
                            } else {
                                let k = choose|k: int| 0 <= k < j && edges@[k] == e;
                                assert(edges@[k] == edges@[j as int]);
                            }
                        }
                    }
                    assert(nodes@.contains(nodes@[i as int]));
                }
                res.push(e);
            }
            proof {
                assert(nodes@.contains(nodes@[i as int]));
                assert forall|x: usize| #[trigger] res@.contains(x) <==> before.contains(x) || ((exists|k: int| 0 <= k < j + 1 && edges@[k] == x)
                    && exit_edge_set(g, nodes@).contains(x as nat)) by {
                    if x == e {
                        assert(edges@[j as int] == x);
                    }
                }
            }
            j = j + 1;
        }
        proof {
            assert forall|x: usize| #[trigger] res@.contains(x) <==> exit_edge_set(g, nodes@).contains(x as nat) && (exists|k: int|
                0 <= k < i + 1 && nodes@[k] as nat == sg_edges(g)[x as nat].0) by {
                if res@.contains(x) && !before.contains(x) {
                    let k = choose|k: int| 0 <= k < edges@.len() && edges@[k] == x;
                    assert(edges@.contains(x));
                    assert(nodes@[i as int] as nat == sg_edges(g)[x as nat].0);
                }
                if exit_edge_set(g, nodes@).contains(x as nat) && (exists|k: int| 0 <= k < i + 1 && nodes@[k] as nat == sg_edges(g)[x as nat].0)
                    && !before.contains(x) {
                    let k = choose|k: int| 0 <= k < i + 1 && nodes@[k] as nat == sg_edges(g)[x as nat].0;
                    if k < i {
                    } else {
                        assert(edges_at(g, node as nat, Direction::Outgoing).contains(x as nat));
                        assert(edges@.contains(x));
                        let m = choose|m: int| 0 <= m < edges@.len() && edges@[m] == x;
                    }
                }
            }
        }
        i = i + 1;
    }
    proof {
        assert forall|e: usize| #[trigger] res@.contains(e) <==> exit_edge_set(g, nodes@).contains(e as nat) by {
            if exit_edge_set(g, nodes@).contains(e as nat) {
                assert(nodes@.contains(sg_edges(g)[e as nat].0 as usize));
                let k = choose|k: int| 0 <= k < nodes@.len() && nodes@[k] == sg_edges(g)[e as nat].0 as usize;
                assert(sg_edges(g)[e as nat].0 < u32::MAX);
            }
        }
    }
    res
}

/// A list without duplicates that holds exactly the members of a set of node indices has the
/// set's size.
pub proof fn lemma_list_set_len(s: Seq<usize>, set: Set<nat>)
    requires
        s.no_duplicates(),
        forall|x: usize| #[trigger] s.contains(x) <==> set.contains(x as nat),
        forall|x: nat| #[trigger] set.contains(x) ==> x < u32::MAX,
    ensures
        set.finite(),
        s.len() == set.len(),
{
    let m = s.map_values(|x: usize| x as nat);
    assert(m.no_duplicates()) by {
        assert forall|i: int, j: int| 0 <= i < m.len() && 0 <= j < m.len() && i != j implies m[i] != m[j] by {
            assert(s[i] != s[j]);
        }
    }
    assert(m.to_set() =~= set) by {
        assert forall|x: nat| m.to_set().contains(x) <==> set.contains(x) by {
            if m.to_set().contains(x) {
                let j = choose|j: int| 0 <= j < m.len() && m[j] == x;
                assert(s.contains(s[j]));
            }
            if set.contains(x) {
                assert(s.contains(x as usize));
                let j = choose|j: int| 0 <= j < s.len() && s[j] == x as usize;
                assert(m[j] == x);
            }
        }
    }
    m.unique_seq_to_set();
}

/// The loop of the smallest node set among those that the back edges from `target` close;
/// `target` must have a back edge.
pub fn find_smallest_loop(dominance: &RegionDominanceView<'_>, target: usize, index: usize) -> (res: RawLoop)
    requires
        dominance.wf(),
        exists|m: usize| neighbor_set(dominance.cfg_spec().sg(), target as nat, Direction::Outgoing).contains(m as nat)
            && #[trigger] dominance.dominates_spec(m, target),
    ensures
        res.wf(dominance.cfg_spec().sg()),
        res.loop_index == index,
        neighbor_set(dominance.cfg_spec().sg(), target as nat, Direction::Outgoing).contains(res.head as nat)
            && dominance.dominates_spec(res.head, target),
        forall|x: usize| #[trigger] res.nodes@.contains(x) <==> loop_nodes(dominance.cfg_spec().sg(), target, res.head).contains(x as nat),
        forall|h: usize| neighbor_set(dominance.cfg_spec().sg(), target as nat, Direction::Outgoing).contains(h as nat)
            && #[trigger] dominance.dominates_spec(h, target) ==> loop_nodes(dominance.cfg_spec().sg(), target, h).len() >= res.nodes@.len(),
{
    let cfg = dominance.cfg();
    let ghost g = cfg.sg();
    proof {
        cfg.inner_spec().lemma_wf();
    }
    let heads = dominance.backedge_targets(target);
    proof {
        let m = choose|m: usize| neighbor_set(g, target as nat, Direction::Outgoing).contains(m as nat) && #[trigger] dominance.dominates_spec(m, target);
        assert(heads@.contains(m));
    }
    let mut best: Option<RawLoop> = None;
    let mut i: usize = 0;
    while i < heads.len()
        invariant
            dominance.wf(),
            *cfg == dominance.cfg_spec(),
            g == cfg.sg(),
            sg_wf(g),
            0 <= i <= heads@.len(),
            heads@.len() > 0,
            forall|m: usize| #[trigger] heads@.contains(m) <==> neighbor_set(g, target as nat, Direction::Outgoing).contains(m as nat)
                && dominance.dominates_spec(m, target),
            i > 0 <==> best is Some,
            best matches Some(b) ==> {
                &&& b.wf(g)
                &&& b.loop_index == index
                &&& heads@.contains(b.head)
                &&& forall|x: usize| #[trigger] b.nodes@.contains(x) <==> loop_nodes(g, target, b.head).contains(x as nat)
                &&& forall|k: int| 0 <= k < i ==> loop_nodes(g, target, #[trigger] heads@[k]).len() >= b.nodes@.len()
            },
        decreases heads@.len() - i,
    {
        let head = heads[i];
        proof {
            assert(heads@.contains(head));
            crate::graph::lemma_edge_neighbor_is_node(g, target as nat, head as nat, Direction::Outgoing);
        }
        let nodes = loop_node_list(cfg, target, head);
        proof {
            assert forall|x: nat| #[trigger] loop_nodes(g, target, head).contains(x) implies x < u32::MAX by {
                if x != head as nat && x != target as nat {
                    crate::graph::lemma_reached_is_node(node_set(g).remove(head as nat), backward(g), target as nat, x);
                }
            }
            lemma_list_set_len(nodes@, loop_nodes(g, target, head));
        }
        let len = nodes.len();
        let candidate = RawLoop::new(cfg, index, nodes, head);
        let better = match &best {
            None => true,
            Some(b) => len < b.nodes.len(),
        };
        if better {
            best = Some(candidate);
        }
        proof {
            let b = best.unwrap();
            assert forall|k: int| 0 <= k < i + 1 implies loop_nodes(g, target, #[trigger] heads@[k]).len() >= b.nodes@.len() by {
            }
        }
        i = i + 1;
    }
    let res = best.unwrap();
    proof {
        assert forall|h: usize| neighbor_set(g, target as nat, Direction::Outgoing).contains(h as nat)
            && #[trigger] dominance.dominates_spec(h, target) implies loop_nodes(g, target, h).len() >= res.nodes@.len() by {
            assert(heads@.contains(h));
            let k = choose|k: int| 0 <= k < heads@.len() && heads@[k] == h;
        }
    }
    res
}

/// The nodes of the loop that the back edge from `target` to `head` closes.
fn loop_node_list(cfg: &RegionCfg, target: usize, head: usize) -> (res: Vec<usize>)
    requires
        cfg.inner_spec().wf(),
        sg_nodes(cfg.sg()).contains_key(target as nat),
        sg_nodes(cfg.sg()).contains_key(head as nat),
    ensures
        res@.no_duplicates(),
        forall|x: usize| #[trigger] res@.contains(x) <==> loop_nodes(cfg.sg(), target, head).contains(x as nat),
        forall|i: int| 0 <= i < res@.len() ==> sg_nodes(cfg.sg()).contains_key(#[trigger] res@[i] as nat),
{
    let ghost g = cfg.sg();
    proof {
        cfg.inner_spec().lemma_wf();
    }
    if target == head {
        let mut v: Vec<usize> = Vec::new();
        v.push(target);
        proof {
            assert forall|x: usize| #[trigger] v@.contains(x) <==> loop_nodes(g, target, head).contains(x as nat) by {
                if v@.contains(x) {
                    let k = choose|k: int| 0 <= k < v@.len() && v@[k] == x;
                }
                if loop_nodes(g, target, head).contains(x as nat) {
                    assert(v@[0] == x);
                }
            }
        }
        v
    } else {
        let mut v = sg_reverse_dfs_avoiding(cfg.graph(), target, head);
        let ghost before = v@;
        proof {
            assert(!v@.contains(head)) by {
                if v@.contains(head) {
                    crate::graph::lemma_reached_is_node(node_set(g).remove(head as nat), backward(g), target as nat, head as nat);
                }
            }
        }
        v.push(head);
        proof {
            assert forall|x: usize| #[trigger] v@.contains(x) <==> loop_nodes(g, target, head).contains(x as nat) by {
                if v@.contains(x) && x != head {
                    let k = choose|k: int| 0 <= k < v@.len() && v@[k] == x;
                    assert(before.contains(x));
                }
                if loop_nodes(g, target, head).contains(x as nat) && x != head {
                    assert(before.contains(x));
                    let k = choose|k: int| 0 <= k < before.len() && before[k] == x;
                    assert(v@[k] == x);
                }
                if x == head {
                    assert(v@[before.len() as int] == head);
                }
            }
            assert forall|i: int| 0 <= i < v@.len() implies sg_nodes(g).contains_key(#[trigger] v@[i] as nat) by {
                if i < before.len() {
                    assert(before.contains(before[i]));
                    crate::graph::lemma_reached_is_node(node_set(g).remove(head as nat), backward(g), target as nat, before[i] as nat);
                }
            }
            assert forall|p: int, q: int| 0 <= p < q < v@.len() implies v@[p] != v@[q] by {
                if q == before.len() {
                    assert(before.contains(before[p]));
                }
            }
        }
        v
    }
}

/// The edges into `node` from outside `nodes`.
pub open spec fn outside_in(g: Sg, node: usize, nodes: Seq<usize>) -> Set<nat> {
    edges_at(g, node as nat, Direction::Incoming).filter(|e: nat| !nodes.contains(sg_edges(g)[e].0 as usize))
}

/// The number of edges into `node` from outside `loop_nodes`.
pub(crate) fn count_edges_from_outside(cfg: &RegionCfg, node: usize, loop_nodes: &Vec<usize>) -> (res: usize)
    requires
        cfg.inner_spec().wf(),
    ensures
        res == outside_in(cfg.sg(), node, loop_nodes@).len(),
{
    proof {
        cfg.inner_spec().lemma_wf();
    }
    let ghost g = cfg.sg();
    let edges = crate::graph::edges_directed(cfg.graph(), node, Direction::Incoming);
    let ghost mut kept: Seq<nat> = Seq::empty();
    let mut count: usize = 0;
    let mut i: usize = 0;
    while i < edges.len()
        invariant
            sg_wf(g),
            g == cfg.sg(),
            0 <= i <= edges@.len(),
            edges@.no_duplicates(),
            forall|e: usize| #[trigger] edges@.contains(e) <==> edges_at(g, node as nat, Direction::Incoming).contains(e as nat),
            count == kept.len(),
            count <= i,
            kept.no_duplicates(),
            forall|e: nat| #[trigger] kept.contains(e) <==> (exists|j: int| 0 <= j < i && edges@[j] as nat == e) && !loop_nodes@.contains(
                sg_edges(g)[e].0 as usize,
            ),
        decreases edges@.len() - i,
    {
        let e = edges[i];
        proof {
            assert(edges@.contains(e));
        }
        let (a, _) = crate::graph::edge_endpoints(cfg.graph(), e).unwrap();
        let ghost before = kept;
        if !vec_contains(loop_nodes, a) {
            proof {
                assert(!kept.contains(e as nat)) by {
                    if kept.contains(e as nat) {
                        let j = choose|j: int| 0 <= j < i && edges@[j] as nat == e as nat;
                        assert(edges@[j] == edges@[i as int]);
                    }
                }
                kept = kept.push(e as nat);
            }
            count = count + 1;
        }
        proof {
            assert forall|x: nat| #[trigger] kept.contains(x) <==> (exists|j: int| 0 <= j < i + 1 && edges@[j] as nat == x) && !loop_nodes@.contains(
                sg_edges(g)[x].0 as usize,
            ) by {
                if x == e as nat {
                    assert(edges@[i as int] as nat == x);
                }
                if kept.contains(x) && x != e as nat {
                    assert(before.contains(x));
                }
                if before.contains(x) {
                    assert(kept.contains(x));
                }
            }
        }
        i = i + 1;
    }
    proof {
        let target = outside_in(g, node, loop_nodes@);
        assert(kept.to_set() =~= target) by {
            assert forall|e: nat| kept.to_set().contains(e) <==> target.contains(e) by {
                if target.contains(e) {
                    assert(e < u32::MAX);
                    assert(edges@.contains(e as usize));
                    let j = choose|j: int| 0 <= j < edges@.len() && edges@[j] == e as usize;
                    assert(kept.contains(e));
                }
                if kept.to_set().contains(e) {
                    assert(kept.contains(e));
                    let j = choose|j: int| 0 <= j < edges@.len() && edges@[j] as nat == e;
                    assert(edges@.contains(edges@[j]));
                }
            }
        }
        kept.unique_seq_to_set();
    }
    count
}

impl RawLoop {
    /// The entry with the most edges from outside the loop (the last such, in the order of
    /// `entries`); the loop must have an entry.
    pub fn most_likely_entry(&self, cfg: &RegionCfg) -> (res: usize)
        requires
            cfg.inner_spec().wf(),
            self.entries@.len() > 0,
        ensures
            self.entries@.contains(res),
            forall|x: usize| #[trigger] self.entries@.contains(x) ==> outside_in(cfg.sg(), res, self.nodes@).len() >= outside_in(
                cfg.sg(),
                x,
                self.nodes@,
            ).len(),
    {
        let mut best = self.entries[0];
        let mut best_count = count_edges_from_outside(cfg, best, &self.nodes);
        let mut i: usize = 1;
        while i < self.entries.len()
            invariant
                cfg.inner_spec().wf(),
                1 <= i <= self.entries@.len(),
                self.entries@.contains(best),
                best_count == outside_in(cfg.sg(), best, self.nodes@).len(),
                forall|k: int| 0 <= k < i ==> best_count >= outside_in(cfg.sg(), #[trigger] self.entries@[k], self.nodes@).len(),
            decreases self.entries@.len() - i,
        {
            let c = count_edges_from_outside(cfg, self.entries[i], &self.nodes);
            if c >= best_count {
                best = self.entries[i];
                best_count = c;
            }
            i = i + 1;
        }
        proof {
            assert forall|x: usize| #[trigger] self.entries@.contains(x) implies outside_in(cfg.sg(), best, self.nodes@).len() >= outside_in(
                cfg.sg(),
                x,
                self.nodes@,
            ).len() by {
                let k = choose|k: int| 0 <= k < self.entries@.len() && self.entries@[k] == x;
            }
        }
        best
    }

    /// The edges into the entries other than `entry` from outside the loop: the edges that
    /// structuring takes out to leave the loop a single entry.
    pub open spec fn to_virtualize(&self, g: Sg, entry: usize) -> Set<nat> {
        Set::new(
            |e: nat|
                sg_edges(g).contains_key(e) && self.entries@.contains(sg_edges(g)[e].1 as usize) && sg_edges(g)[e].1 != entry
                    && !self.nodes@.contains(sg_edges(g)[e].0 as usize),
        )
    }

    pub fn edges_to_virtualize(&self, cfg: &RegionCfg, entry: usize) -> (res: Vec<usize>)
        requires
            cfg.inner_spec().wf(),
            self.entries@.no_duplicates(),
        ensures
            res@.no_duplicates(),
            forall|e: usize| #[trigger] res@.contains(e) <==> self.to_virtualize(cfg.sg(), entry).contains(e as nat),
    {
        proof {
            cfg.inner_spec().lemma_wf();
        }
        let ghost g = cfg.sg();
        let mut res: Vec<usize> = Vec::new();
        let mut i: usize = 0;
        while i < self.entries.len()
            invariant
                sg_wf(g),
                g == cfg.sg(),
                0 <= i <= self.entries@.len(),
                self.entries@.no_duplicates(),
                res@.no_duplicates(),
                forall|e: usize| #[trigger] res@.contains(e) <==> self.to_virtualize(g, entry).contains(e as nat) && (exists|k: int|
                    0 <= k < i && self.entries@[k] as nat == sg_edges(g)[e as nat].1),
            decreases self.entries@.len() - i,
        {
            let node = self.entries[i];
            if node != entry {
                let edges = crate::graph::edges_directed(cfg.graph(), node, Direction::Incoming);
                let ghost before = res@;
                let mut j: usize = 0;
                while j < edges.len()
                    invariant
                        sg_wf(g),
                        g == cfg.sg(),
                        0 <= j <= edges@.len(),
                        0 <= i < self.entries@.len(),
                        node == self.entries@[i as int],
                        node != entry,
                        self.entries@.no_duplicates(),
                        edges@.no_duplicates(),
                        forall|e: usize| #[trigger] edges@.contains(e) <==> edges_at(g, node as nat, Direction::Incoming).contains(e as nat),
                        res@.no_duplicates(),
                        forall|e: usize| #[trigger] before.contains(e) ==> self.to_virtualize(g, entry).contains(e as nat) && (exists|k: int|
                            0 <= k < i && self.entries@[k] as nat == sg_edges(g)[e as nat].1),
                        forall|e: usize| #[trigger] res@.contains(e) <==> before.contains(e) || ((exists|k: int| 0 <= k < j && edges@[k] == e)
                            && self.to_virtualize(g, entry).contains(e as nat)),
                    decreases edges@.len() - j,
                {
                    let e = edges[j];
                    proof {
                        assert(edges@.contains(e));
                        assert(self.entries@.contains(self.entries@[i as int]));
                    }
                    let (a, _) = crate::graph::edge_endpoints(cfg.graph(), e).unwrap();
                    if !vec_contains(&self.nodes, a) {
                        proof {
                            assert(!res@.contains(e)) by {
                                if res@.contains(e) {
                                    if before.contains(e) {
                                        let k = choose|k: int| 0 <= k < i && self.entries@[k] as nat == sg_edges(g)[e as nat].1;
                                        assert(self.entries@[k] == self.entries@[i as int]);
                                    } else {
                                        let k = choose|k: int| 0 <= k < j && edges@[k] == e;
                                        assert(edges@[k] == edges@[j as int]);
                                    }
                                }
                            }
                        }
                        res.push(e);
                    }
                    proof {
                        assert forall|x: usize| #[trigger] res@.contains(x) <==> before.contains(x) || ((exists|k: int| 0 <= k < j + 1 && edges@[k] == x)
                            && self.to_virtualize(g, entry).contains(x as nat)) by {
                            if x == e {
                                assert(edges@[j as int] == x);
                            }
                        }
                    }
                    j = j + 1;
                }
                proof {
                    assert forall|x: usize| #[trigger] res@.contains(x) <==> self.to_virtualize(g, entry).contains(x as nat) && (exists|k: int|
                        0 <= k < i + 1 && self.entries@[k] as nat == sg_edges(g)[x as nat].1) by {
                        if res@.contains(x) && !before.contains(x) {
                            let k = choose|k: int| 0 <= k < edges@.len() && edges@[k] == x;
                            assert(edges@.contains(x));
                            assert(self.entries@[i as int] as nat == sg_edges(g)[x as nat].1);
                        }
                        if self.to_virtualize(g, entry).contains(x as nat) && (exists|k: int| 0 <= k < i + 1 && self.entries@[k] as nat
                            == sg_edges(g)[x as nat].1) && !before.contains(x) {
                            let k = choose|k: int| 0 <= k < i + 1 && self.entries@[k] as nat == sg_edges(g)[x as nat].1;
                            if k == i {
                                assert(edges_at(g, node as nat, Direction::Incoming).contains(x as nat));
                                assert(edges@.contains(x));
                                let m = choose|m: int| 0 <= m < edges@.len() && edges@[m] == x;
                            }
                        }
                    }
                }
            } else {
                proof {
                    assert forall|x: usize| #[trigger] res@.contains(x) <==> self.to_virtualize(g, entry).contains(x as nat) && (exists|k: int|
                        0 <= k < i + 1 && self.entries@[k] as nat == sg_edges(g)[x as nat].1) by {
                        if self.to_virtualize(g, entry).contains(x as nat) && (exists|k: int| 0 <= k < i + 1 && self.entries@[k] as nat
                            == sg_edges(g)[x as nat].1) {
                            let k = choose|k: int| 0 <= k < i + 1 && self.entries@[k] as nat == sg_edges(g)[x as nat].1;
                            assert(k != i);
                        }
                    }
                }
            }
            i = i + 1;
        }
        proof {
            assert forall|e: usize| #[trigger] res@.contains(e) <==> self.to_virtualize(g, entry).contains(e as nat) by {
                if self.to_virtualize(g, entry).contains(e as nat) {
                    let t = sg_edges(g)[e as nat].1;
                    assert(self.entries@.contains(t as usize));
                    let k = choose|k: int| 0 <= k < self.entries@.len() && self.entries@[k] == t as usize;
                    assert(t < u32::MAX);
                }
            }
        }
        res
    }
}

/// A record of an edge that structuring took out of the graph: its source and target regions
/// and the label it is rendered with.
pub type TailEdge = (RegionId, RegionId, EdgeLabel);

/// `rec` records edge `e` of `g` as a jump to its target.
pub open spec fn records_goto(g: Sg, e: nat, rec: TailEdge) -> bool {
    &&& rec.0 == sg_nodes(g)[sg_edges(g)[e].0]
    &&& rec.1 == sg_nodes(g)[sg_edges(g)[e].1]
    &&& rec.2 == EdgeLabel::Virtualized(TailKind::Goto { target: sg_nodes(g)[sg_edges(g)[e].1] })
}

/// Each record stands for an edge of `v`.
pub open spec fn gotos_recorded(g: Sg, v: Set<nat>, recs: Seq<TailEdge>) -> bool {
    forall|k: int| 0 <= k < recs.len() ==> #[trigger] recorded_from(g, v, recs[k])
}

/// `rec` stands for an edge of `v`.
pub open spec fn recorded_from(g: Sg, v: Set<nat>, rec: TailEdge) -> bool {
    exists|e: nat| v.contains(e) && #[trigger] records_goto(g, e, rec)
}

/// Leaves the loop a single entry, the one with the most edges from outside: every other edge
/// into the loop from outside is taken out and recorded as a jump. Returns the entry and the
/// records.
pub(crate) fn ensure_single_entry(cfg: &mut RegionCfg, raw_loop: &mut RawLoop, Ghost(n): Ghost<nat>) -> (res: (usize, Vec<TailEdge>))
    requires
        old(cfg).wf(n),
        old(raw_loop).wf(old(cfg).sg()),
        old(raw_loop).entries@.len() > 0,
    ensures
        *final(raw_loop) == *old(raw_loop),
        old(raw_loop).entries@.contains(res.0),
        forall|x: usize| #[trigger] old(raw_loop).entries@.contains(x) ==> outside_in(old(cfg).sg(), res.0, old(raw_loop).nodes@).len()
            >= outside_in(old(cfg).sg(), x, old(raw_loop).nodes@).len(),
        final(cfg).wf(n),
        final(cfg).vexit_spec() == old(cfg).vexit_spec(),
        final(cfg).nodes() == old(cfg).nodes(),
        final(cfg).edges() == old(cfg).edges().remove_keys(old(raw_loop).to_virtualize(old(cfg).sg(), res.0)),
        res.1@.len() == old(raw_loop).to_virtualize(old(cfg).sg(), res.0).len(),
        gotos_recorded(old(cfg).sg(), old(raw_loop).to_virtualize(old(cfg).sg(), res.0), res.1@),
        exit_edge_set(final(cfg).sg(), old(raw_loop).nodes@) == exit_edge_set(old(cfg).sg(), old(raw_loop).nodes@),
{
    let ghost g0 = cfg.sg();
    proof {
        cfg.inner_spec().lemma_wf();
    }
    let entry = raw_loop.most_likely_entry(cfg);
    let edges = raw_loop.edges_to_virtualize(cfg, entry);
    let ghost v = raw_loop.to_virtualize(g0, entry);
    let mut virtualized_edges: Vec<TailEdge> = Vec::new();
    let mut i: usize = 0;
    while i < edges.len()
        invariant
            0 <= i <= edges@.len(),
            cfg.wf(n),
            cfg.vexit_spec() == old(cfg).vexit_spec(),
            cfg.nodes() == sg_nodes(g0),
            g0 == old(cfg).sg(),
            sg_wf(g0),
            edges@.no_duplicates(),
            forall|e: usize| #[trigger] edges@.contains(e) <==> v.contains(e as nat),
            v == old(raw_loop).to_virtualize(g0, entry),
            *raw_loop == *old(raw_loop),
            cfg.edges() == sg_edges(g0).remove_keys(Set::new(|e: nat| exists|k: int| 0 <= k < i && edges@[k] as nat == e)),
            virtualized_edges@.len() == i,
            forall|k: int| 0 <= k < i ==> records_goto(g0, edges@[k] as nat, #[trigger] virtualized_edges@[k]),
        decreases edges@.len() - i,
    {
        let e = edges[i];
        proof {
            assert(edges@.contains(e));
            assert(v.contains(e as nat));
            assert(sg_edges(g0).contains_key(e as nat));
            assert(cfg.edges().contains_key(e as nat)) by {
                if exists|k: int| 0 <= k < i && edges@[k] as nat == e as nat {
                    let k = choose|k: int| 0 <= k < i && edges@[k] as nat == e as nat;
                    assert(edges@[k] == edges@[i as int]);
                }
            }
            cfg.inner_spec().lemma_wf();
        }
        let (source, target) = crate::graph::edge_endpoints(cfg.graph(), e).unwrap();
        let ghost before = cfg.edges();
        let removed = cfg.inner_mut_remove_edge(e, Ghost(n));
        let source_region = cfg.key_for_node(source).unwrap();
        let target_region = cfg.key_for_node(target).unwrap();
        virtualized_edges.push((source_region, target_region, EdgeLabel::Virtualized(TailKind::Goto { target: target_region })));
        proof {
            assert(cfg.edges() =~= sg_edges(g0).remove_keys(Set::new(|x: nat| exists|k: int| 0 <= k < i + 1 && edges@[k] as nat == x))) by {
                assert forall|x: nat| #[trigger] cfg.edges().contains_key(x) <==> sg_edges(g0).remove_keys(
                    Set::new(|y: nat| exists|k: int| 0 <= k < i + 1 && edges@[k] as nat == y),
                ).contains_key(x) by {
                    if x == e as nat {
                        assert(edges@[i as int] as nat == x);
                    }
                    if exists|k: int| 0 <= k < i + 1 && edges@[k] as nat == x {
                        let k = choose|k: int| 0 <= k < i + 1 && edges@[k] as nat == x;
                        if k < i {
                            assert(!before.contains_key(x));
                        }
                    }
                }
            }
            assert forall|k: int| 0 <= k < i + 1 implies records_goto(g0, edges@[k] as nat, #[trigger] virtualized_edges@[k]) by {
                if k == i {
                    assert(sg_edges(g0)[e as nat] == before[e as nat]);
                }
            }
        }
        i = i + 1;
    }
    proof {
        let done = Set::new(|e: nat| exists|k: int| 0 <= k < edges@.len() && edges@[k] as nat == e);
        assert(done =~= v) by {
            assert forall|x: nat| done.contains(x) <==> v.contains(x) by {
                if done.contains(x) {
                    let k = choose|k: int| 0 <= k < edges@.len() && edges@[k] as nat == x;
                    assert(edges@.contains(edges@[k]));
                }
                if v.contains(x) {
                    assert(x < u32::MAX);
                    assert(edges@.contains(x as usize));
                    let k = choose|k: int| 0 <= k < edges@.len() && edges@[k] == x as usize;
                }
            }
        }
        assert forall|x: nat| #[trigger] v.contains(x) implies x < u32::MAX by {}
        lemma_list_set_len(edges@, v);
        let recs = virtualized_edges@;
        assert(gotos_recorded(g0, v, recs)) by {
            assert forall|k: int| 0 <= k < recs.len() implies #[trigger] recorded_from(g0, v, recs[k]) by {
                assert(edges@.contains(edges@[k]));
                assert(v.contains(edges@[k] as nat));
                assert(records_goto(g0, edges@[k] as nat, recs[k]));
            }
        }
        assert(v == old(raw_loop).to_virtualize(old(cfg).sg(), entry));
        assert(exit_edge_set(cfg.sg(), raw_loop.nodes@) =~= exit_edge_set(g0, raw_loop.nodes@)) by {
            assert forall|x: nat| exit_edge_set(cfg.sg(), raw_loop.nodes@).contains(x) <==> exit_edge_set(g0, raw_loop.nodes@).contains(x) by {
                if exit_edge_set(g0, raw_loop.nodes@).contains(x) {
                    assert(!v.contains(x));
                }
            }
        }
    }
    (entry, virtualized_edges)
}

/// Edge `e` is the one picked from `set`: one that leads to `preferred` where some edge of the
/// set does, and the lowest-numbered edge otherwise.
pub open spec fn exit_picked(g: Sg, set: Set<nat>, preferred: Option<usize>, e: nat) -> bool {
    &&& set.contains(e)
    &&& if preferred matches Some(p) && exists|x: nat| set.contains(x) && sg_edges(g)[x].1 == p as nat {
        sg_edges(g)[e].1 == preferred.unwrap() as nat
    } else {
        forall|x: nat| #[trigger] set.contains(x) ==> e <= x
    }
}

/// Picks one edge of `edges`, which must not be empty: one that leads to `preferred` where one
/// does, and the lowest-numbered one otherwise.
pub(crate) fn pick_edge_deterministically(cfg: &RegionCfg, edges: &Vec<usize>, preferred_succ: Option<usize>) -> (res: usize)
    requires
        cfg.inner_spec().wf(),
        edges@.len() > 0,
        forall|i: int| 0 <= i < edges@.len() ==> cfg.edges().contains_key(#[trigger] edges@[i] as nat),
    ensures
        exit_picked(cfg.sg(), edge_set(edges@), preferred_succ, res as nat),
{
    let ghost g = cfg.sg();
    let ghost set = edge_set(edges@);
    proof {
        cfg.inner_spec().lemma_wf();
        lemma_edge_set(edges@);
    }
    match preferred_succ {
        Some(succ) => {
            let mut i: usize = 0;
            while i < edges.len()
                invariant
                    cfg.inner_spec().wf(),
                    g == cfg.sg(),
                    sg_wf(g),
                    0 <= i <= edges@.len(),
                    forall|k: int| 0 <= k < edges@.len() ==> cfg.edges().contains_key(#[trigger] edges@[k] as nat),
                    forall|k: int| 0 <= k < i ==> sg_edges(g)[#[trigger] edges@[k] as nat].1 != succ as nat,
                    set == edge_set(edges@),
                    preferred_succ == Some(succ),
                decreases edges@.len() - i,
            {
                let (_, target) = crate::graph::edge_endpoints(cfg.graph(), edges[i]).unwrap();
                if target == succ {
                    proof {
                        lemma_edge_set(edges@);
                        assert(edges@.contains(edges@[i as int]));
                        assert(set.contains(edges@[i as int] as nat));
                        assert(sg_edges(g)[edges@[i as int] as nat].1 == succ as nat);
                        assert(exists|x: nat| set.contains(x) && sg_edges(g)[x].1 == succ as nat);
                        assert(preferred_succ.unwrap() == succ);
                        assert(exit_picked(g, set, preferred_succ, edges@[i as int] as nat));
                    }
                    return edges[i];
                }
                i = i + 1;
            }
            proof {
                lemma_edge_set(edges@);
                assert(!exists|x: nat| set.contains(x) && sg_edges(g)[x].1 == succ as nat) by {
                    if exists|x: nat| set.contains(x) && sg_edges(g)[x].1 == succ as nat {
                        let x = choose|x: nat| set.contains(x) && sg_edges(g)[x].1 == succ as nat;
                        let k = choose|k: int| 0 <= k < edges@.len() && edges@[k] as nat == x;
                    }
                }
            }
        },
        None => {},
    }
    let mut best = edges[0];
    let mut i: usize = 1;
    while i < edges.len()
        invariant
            1 <= i <= edges@.len(),
            edges@.contains(best),
            forall|k: int| 0 <= k < i ==> best <= #[trigger] edges@[k],
        decreases edges@.len() - i,
    {
        if edges[i] < best {
            best = edges[i];
        }
        i = i + 1;
    }
    proof {
        lemma_edge_set(edges@);
        assert(set.contains(best as nat)) by {
            let k = choose|k: int| 0 <= k < edges@.len() && edges@[k] == best;
        }
        assert forall|x: nat| #[trigger] set.contains(x) implies best as nat <= x by {
            let k = choose|k: int| 0 <= k < edges@.len() && edges@[k] as nat == x;
        }
    }
    best
}

/// The edges of `set` whose source is in `sources`, as a list.
fn edges_from(cfg: &RegionCfg, set: &Vec<usize>, sources: &Vec<usize>) -> (res: Vec<usize>)
    requires
        cfg.inner_spec().wf(),
        forall|i: int| 0 <= i < set@.len() ==> cfg.edges().contains_key(#[trigger] set@[i] as nat),
    ensures
        forall|i: int| 0 <= i < res@.len() ==> cfg.edges().contains_key(#[trigger] res@[i] as nat),
        forall|e: usize| #[trigger] res@.contains(e) <==> set@.contains(e) && sources@.contains(sg_edges(cfg.sg())[e as nat].0 as usize),
{
    proof {
        cfg.inner_spec().lemma_wf();
    }
    let mut res: Vec<usize> = Vec::new();
    let mut i: usize = 0;
    while i < set.len()
        invariant
            cfg.inner_spec().wf(),
            crate::graph::sg_wf(cfg.sg()),
            0 <= i <= set@.len(),
            forall|k: int| 0 <= k < set@.len() ==> cfg.edges().contains_key(#[trigger] set@[k] as nat),
            forall|k: int| 0 <= k < res@.len() ==> cfg.edges().contains_key(#[trigger] res@[k] as nat),
            forall|e: usize| #[trigger] res@.contains(e) <==> (exists|k: int| 0 <= k < i && set@[k] == e) && sources@.contains(
                sg_edges(cfg.sg())[e as nat].0 as usize,
            ),
        decreases set@.len() - i,
    {
        let e = set[i];
        assert(cfg.edges().contains_key(e as nat));
        let (a, _) = crate::graph::edge_endpoints(cfg.graph(), e).unwrap();
        if vec_contains(sources, a) {
            res.push(e);
        }
        proof {
            assert forall|x: usize| #[trigger] res@.contains(x) <==> (exists|k: int| 0 <= k < i + 1 && set@[k] == x) && sources@.contains(
                sg_edges(cfg.sg())[x as nat].0 as usize,
            ) by {
                if x == e {
                    assert(set@[i as int] == x);
                }
            }
        }
        i = i + 1;
    }
    proof {
        assert forall|e: usize| #[trigger] res@.contains(e) <==> set@.contains(e) && sources@.contains(sg_edges(cfg.sg())[e as nat].0 as usize) by {
            if set@.contains(e) {
                let k = choose|k: int| 0 <= k < set@.len() && set@[k] == e;
            }
        }
    }
    res
}

/// The loop exit that a picked edge gives.
fn exit_for_edge(cfg: &RegionCfg, kind: LoopKind, edge: usize) -> (res: LoopExit)
    requires
        cfg.inner_spec().wf(),
        cfg.edges().contains_key(edge as nat),
    ensures
        res.kind == kind,
        res.exit_edge == Some(edge),
        res.exit_node == Some(sg_edges(cfg.sg())[edge as nat].1 as usize),
        res.exit_label == Some(sg_edges(cfg.sg())[edge as nat].2),
        sg_edges(cfg.sg())[edge as nat].1 < u32::MAX,
{
    proof {
        cfg.inner_spec().lemma_wf();
    }
    let (_, succ) = crate::graph::edge_endpoints(cfg.graph(), edge).unwrap();
    let label = crate::graph::edge_weight(cfg.graph(), edge).unwrap().clone();
    LoopExit { kind, exit_node: Some(succ), exit_edge: Some(edge), exit_label: Some(label) }
}

/// Edge set of a list of edge indices.
pub open spec fn edge_set(v: Seq<usize>) -> Set<nat> {
    v.map_values(|x: usize| x as nat).to_set()
}

pub proof fn lemma_edge_set(v: Seq<usize>)
    ensures
        forall|x: nat| #[trigger] edge_set(v).contains(x) <==> exists|k: int| 0 <= k < v.len() && v[k] as nat == x,
        forall|u: usize| #[trigger] v.contains(u) <==> edge_set(v).contains(u as nat),
        v.len() > 0 <==> !edge_set(v).is_empty(),
{
    let m = v.map_values(|y: usize| y as nat);
    assert forall|x: nat| #[trigger] edge_set(v).contains(x) <==> exists|k: int| 0 <= k < v.len() && v[k] as nat == x by {
        if edge_set(v).contains(x) {
            let k = choose|k: int| 0 <= k < m.len() && m[k] == x;
        }
        if exists|k: int| 0 <= k < v.len() && v[k] as nat == x {
            let k = choose|k: int| 0 <= k < v.len() && v[k] as nat == x;
            assert(m[k] == x);
        }
    }
    assert forall|u: usize| #[trigger] v.contains(u) <==> edge_set(v).contains(u as nat) by {
        if v.contains(u) {
            let k = choose|k: int| 0 <= k < v.len() && v[k] == u;
        }
        if edge_set(v).contains(u as nat) {
            let k = choose|k: int| 0 <= k < v.len() && v[k] as nat == u as nat;
        }
    }
    if v.len() > 0 {
        assert(edge_set(v).contains(v[0] as nat));
    }
    if !edge_set(v).is_empty() {
        let x = edge_set(v).choose();
        assert(edge_set(v).contains(x));
    }
}

/// How the exit of a loop is chosen: an exit edge from the head gives a while loop; else an
/// exit edge from a node with a back edge to the head gives a do-while loop; else any exit edge
/// gives a natural loop, and a loop without exit edges is a natural loop without exit. Among
/// several, `exit_picked` chooses, preferring the head's immediate post-dominator.
pub open spec fn exit_selected(d: RegionDominanceView, raw_loop: RawLoop, x: LoopExit) -> bool {
    let g = d.cfg_spec().sg();
    let head = raw_loop.head;
    let exits = edge_set(raw_loop.exit_edges@);
    let pref = if d.pdom_spec().contains_key(head) {
        Some(d.pdom_spec()[head])
    } else {
        None::<usize>
    };
    let w = exits.filter(|e: nat| sg_edges(g)[e].0 == head as nat);
    let dw = exits.filter(
        |e: nat|
            neighbor_set(g, head as nat, Direction::Incoming).contains(sg_edges(g)[e].0) && d.dominates_spec(head, sg_edges(g)[e].0 as usize),
    );
    let kind = if !w.is_empty() {
        LoopKind::While
    } else if !dw.is_empty() {
        LoopKind::DoWhile
    } else {
        LoopKind::NatLoop
    };
    let from = if !w.is_empty() {
        w
    } else if !dw.is_empty() {
        dw
    } else {
        exits
    };
    &&& x.kind == kind
    &&& if from.is_empty() {
        x.exit_node is None && x.exit_edge is None && x.exit_label is None
    } else {
        x.exit_edge matches Some(e) && exit_picked(g, from, pref, e as nat) && x.exit_node == Some(sg_edges(g)[e as nat].1 as usize)
            && x.exit_label == Some(sg_edges(g)[e as nat].2)
    }
}

/// The single exit of a loop: an exit edge from the head makes a while loop; else one from a
/// node with a back edge to the head makes a do-while loop; else any exit edge, or none, makes
/// a natural loop. Among several, the one leading to the head's immediate post-dominator is
/// preferred.
pub(crate) fn select_single_exit(dominance: &RegionDominanceView<'_>, raw_loop: &RawLoop) -> (res: Option<LoopExit>)
    requires
        dominance.wf(),
        forall|i: int| 0 <= i < raw_loop.exit_edges@.len() ==> dominance.cfg_spec().edges().contains_key(#[trigger] raw_loop.exit_edges@[i] as nat),
    ensures
        res matches Some(x) && exit_selected(*dominance, *raw_loop, x),
{
    let cfg = dominance.cfg();
    let preferred_succ = dominance.immediate_post_dominator(raw_loop.head);
    let mut heads: Vec<usize> = Vec::new();
    heads.push(raw_loop.head);
    let ghost g = cfg.sg();
    let ghost head = raw_loop.head;
    let ghost exits = edge_set(raw_loop.exit_edges@);
    let ghost w = exits.filter(|e: nat| sg_edges(g)[e].0 == head as nat);
    let ghost dw = exits.filter(
        |e: nat|
            neighbor_set(g, head as nat, Direction::Incoming).contains(sg_edges(g)[e].0) && dominance.dominates_spec(head, sg_edges(g)[e].0 as usize),
    );
    proof {
        cfg.inner_spec().lemma_wf();
        lemma_edge_set(raw_loop.exit_edges@);
    }
    let while_edges = edges_from(cfg, &raw_loop.exit_edges, &heads);
    proof {
        lemma_edge_set(while_edges@);
        assert(edge_set(while_edges@) =~= w) by {
            assert forall|x: nat| edge_set(while_edges@).contains(x) <==> w.contains(x) by {
                if edge_set(while_edges@).contains(x) {
                    let k = choose|k: int| 0 <= k < while_edges@.len() && while_edges@[k] as nat == x;
                    assert(while_edges@.contains(while_edges@[k]));
                    assert(heads@.contains(sg_edges(g)[x].0 as usize));
                    assert(sg_edges(g)[x].0 < u32::MAX);
                }
                if w.contains(x) {
                    let k = choose|k: int| 0 <= k < raw_loop.exit_edges@.len() && raw_loop.exit_edges@[k] as nat == x;
                    assert(raw_loop.exit_edges@.contains(raw_loop.exit_edges@[k]));
                    assert(heads@[0] == head);
                    assert(heads@.contains(sg_edges(g)[x].0 as usize));
                    assert(while_edges@.contains(raw_loop.exit_edges@[k]));
                }
            }
        }
    }
    if while_edges.len() > 0 {
        let edge = pick_edge_deterministically(cfg, &while_edges, preferred_succ);
        let res = exit_for_edge(cfg, LoopKind::While, edge);
        return Some(res);
    }
    let srcs = dominance.backedge_sources(raw_loop.head);
    let do_while_edges = edges_from(cfg, &raw_loop.exit_edges, &srcs);
    proof {
        lemma_edge_set(do_while_edges@);
        assert(edge_set(do_while_edges@) =~= dw) by {
            assert forall|x: nat| edge_set(do_while_edges@).contains(x) <==> dw.contains(x) by {
                if edge_set(do_while_edges@).contains(x) {
                    let k = choose|k: int| 0 <= k < do_while_edges@.len() && do_while_edges@[k] as nat == x;
                    assert(do_while_edges@.contains(do_while_edges@[k]));
                    assert(srcs@.contains(sg_edges(g)[x].0 as usize));
                    assert(sg_edges(g)[x].0 < u32::MAX);
                }
                if dw.contains(x) {
                    let k = choose|k: int| 0 <= k < raw_loop.exit_edges@.len() && raw_loop.exit_edges@[k] as nat == x;
                    assert(raw_loop.exit_edges@.contains(raw_loop.exit_edges@[k]));
                    assert(sg_edges(g)[x].0 < u32::MAX);
                    assert(srcs@.contains(sg_edges(g)[x].0 as usize));
                    assert(do_while_edges@.contains(raw_loop.exit_edges@[k]));
                }
            }
        }
    }
    if do_while_edges.len() > 0 {
        let edge = pick_edge_deterministically(cfg, &do_while_edges, preferred_succ);
        let res = exit_for_edge(cfg, LoopKind::DoWhile, edge);
        return Some(res);
    }
    if raw_loop.exit_edges.len() > 0 {
        let edge = pick_edge_deterministically(cfg, &raw_loop.exit_edges, preferred_succ);
        let res = exit_for_edge(cfg, LoopKind::NatLoop, edge);
        return Some(res);
    }
    Some(LoopExit { kind: LoopKind::NatLoop, exit_node: None, exit_edge: None, exit_label: None })
}

/// Node `node` lies in a loop body from `head` to its exit `succ`: `head` dominates it, `succ`
/// post-dominates it, and it is neither `succ` nor the virtual exit.
pub open spec fn in_loop_body(d: RegionDominanceView, head: usize, succ: usize, node: nat) -> bool {
    &&& sg_nodes(d.cfg_spec().sg()).contains_key(node)
    &&& d.dominates_spec(head, node as usize)
    &&& d.post_dominates_spec(succ, node as usize)
    &&& node != succ
    &&& node != d.cfg_spec().vexit_spec()
}

/// The regions of the loop body from `head` to its exit `succ`, in ascending order of node.
pub(crate) fn build_loop_body(dominance: &RegionDominanceView<'_>, head: usize, succ: usize) -> (res: Vec<RegionId>)
    requires
        dominance.wf(),
    ensures
        res@.no_duplicates(),
        forall|r: RegionId| #[trigger] res@.contains(r) <==> exists|x: nat| in_loop_body(*dominance, head, succ, x)
            && sg_nodes(dominance.cfg_spec().sg())[x] == r,
{
    let cfg = dominance.cfg();
    let ghost g = cfg.sg();
    proof {
        cfg.inner_spec().lemma_wf();
    }
    let nodes = crate::graph::sg_node_indices(cfg.graph());
    let mut res: Vec<RegionId> = Vec::new();
    let ghost mut picked: Seq<usize> = Seq::empty();
    let mut i: usize = 0;
    while i < nodes.len()
        invariant
            dominance.wf(),
            *cfg == dominance.cfg_spec(),
            g == cfg.sg(),
            sg_wf(g),
            crate::graph::unique_keys(g),
            0 <= i <= nodes@.len(),
            crate::graph::strictly_ascending(nodes@),
            forall|n: usize| #[trigger] nodes@.contains(n) <==> sg_nodes(g).contains_key(n as nat),
            res@ == picked.map_values(|n: usize| sg_nodes(g)[n as nat]),
            forall|n: usize| #[trigger] picked.contains(n) <==> (exists|k: int| 0 <= k < i && nodes@[k] == n) && in_loop_body(*dominance, head, succ, n as nat),
            forall|a: int, b: int| 0 <= a < b < picked.len() ==> picked[a] < picked[b],
            forall|a: int| 0 <= a < picked.len() ==> sg_nodes(g).contains_key(#[trigger] picked[a] as nat),
            forall|a: int| 0 <= a < picked.len() ==> exists|k: int| 0 <= k < i && nodes@[k] == #[trigger] picked[a],
        decreases nodes@.len() - i,
    {
        let node = nodes[i];
        proof {
            assert(nodes@.contains(node));
        }
        let ghost before = picked;
        if dominance.dominates(head, node) && dominance.post_dominates(succ, node) && node != succ && node != cfg.vexit() {
            let key = cfg.key_for_node(node).unwrap();
            res.push(key);
            proof {
                assert forall|a: int| 0 <= a < picked.len() implies picked[a] < node by {
                    let k = choose|k: int| 0 <= k < i && nodes@[k] == picked[a];
                }
                picked = picked.push(node);
                assert(res@ =~= picked.map_values(|n: usize| sg_nodes(g)[n as nat]));
            }
        }
        proof {
            assert forall|n: usize| #[trigger] picked.contains(n) <==> (exists|k: int| 0 <= k < i + 1 && nodes@[k] == n) && in_loop_body(*dominance, head, succ, n as nat) by {
                if n == node {
                    assert(nodes@[i as int] == n);
                }
                if picked.contains(n) && n != node {
                    assert(before.contains(n));
                }
                if before.contains(n) {
                    assert(picked.contains(n));
                }
            }
            assert forall|a: int| 0 <= a < picked.len() implies exists|k: int| 0 <= k < i + 1 && nodes@[k] == #[trigger] picked[a] by {
                if a < before.len() {
                    assert(picked[a] == before[a]);
                } else {
                    assert(nodes@[i as int] == picked[a]);
                }
            }
        }
        i = i + 1;
    }
    proof {
        assert forall|p: int, q: int| 0 <= p < q < res@.len() implies res@[p] != res@[q] by {
            assert(picked[p] < picked[q]);
            assert(res@[p] == sg_nodes(g)[picked[p] as nat]);
            assert(res@[q] == sg_nodes(g)[picked[q] as nat]);
        }
        assert forall|r: RegionId| #[trigger] res@.contains(r) <==> exists|x: nat| in_loop_body(*dominance, head, succ, x) && sg_nodes(g)[x] == r by {
            if res@.contains(r) {
                let k = choose|k: int| 0 <= k < res@.len() && res@[k] == r;
                assert(picked.contains(picked[k]));
            }
            if exists|x: nat| in_loop_body(*dominance, head, succ, x) && sg_nodes(g)[x] == r {
                let x = choose|x: nat| in_loop_body(*dominance, head, succ, x) && sg_nodes(g)[x] == r;
                assert(x < u32::MAX);
                assert(nodes@.contains(x as usize));
                let k = choose|k: int| 0 <= k < nodes@.len() && nodes@[k] == x as usize;
                assert(picked.contains(x as usize));
                let a = choose|a: int| 0 <= a < picked.len() && picked[a] == x as usize;
                assert(res@[a] == r);
            }
        }
    }
    res
}

/// The condition of the edge from the head to the entry, or else to `succ`.
pub(crate) fn extract_condition(cfg: &RegionCfg, head: usize, entry: usize, succ: Option<usize>) -> (res: Option<Condition>)
    requires
        cfg.inner_spec().wf(),
        labels_ok(cfg.sg()),
    ensures
        crate::graph::has_edge(cfg.sg(), head as nat, entry as nat) ==> exists|l: EdgeLabel|
            #[trigger] edge_labelled(cfg.sg(), head, entry, l) && crate::cfg_structuring::if_then::cond_matches(res, l),
        !crate::graph::has_edge(cfg.sg(), head as nat, entry as nat) ==> match succ {
            Some(s) => if crate::graph::has_edge(cfg.sg(), head as nat, s as nat) {
                exists|l: EdgeLabel| #[trigger] edge_labelled(cfg.sg(), head, s, l) && crate::cfg_structuring::if_then::cond_matches(res, l)
            } else {
                res is None
            },
            None => res is None,
        },
{
    match cfg.edge_label(head, entry) {
        Some(label) => {
            proof {
                let e = choose|e: nat| #[trigger] cfg.edges().contains_key(e) && cfg.edges()[e] == (head as nat, entry as nat, *label);
                assert(label_ok(sg_edges(cfg.sg())[e].2));
                assert(edge_labelled(cfg.sg(), head, entry, *label));
            }
            label.effective_condition()
        },
        None => match succ {
            Some(s) => match cfg.edge_label(head, s) {
                Some(label) => {
                    proof {
                        let e = choose|e: nat| #[trigger] cfg.edges().contains_key(e) && cfg.edges()[e] == (head as nat, s as nat, *label);
                        assert(label_ok(sg_edges(cfg.sg())[e].2));
                        assert(edge_labelled(cfg.sg(), head, s, *label));
                    }
                    label.effective_condition()
                },
                None => None,
            },
            None => None,
        },
    }
}

/// Some edge from `a` to `b` carries label `l`.
pub open spec fn edge_labelled(g: Sg, a: usize, b: usize, l: EdgeLabel) -> bool {
    exists|e: nat| #[trigger] sg_edges(g).contains_key(e) && sg_edges(g)[e] == (a as nat, b as nat, l)
}

/// `cond` is the negation of the condition under which an edge labelled `l` is taken.
pub open spec fn negated_cond_matches(cond: Option<Condition>, l: EdgeLabel) -> bool {
    match l {
        EdgeLabel::TrueBranch(Some(c)) => cond matches Some(r) && r.op_view() == (if c.op_view() == ">="@ {
            "<"@
        } else {
            crate::cfg_recovery::cfg::negated_operator(c.op_view())
        }) && r.lhs_view() == c.lhs_view() && r.rhs_view() == c.rhs_view(),
        EdgeLabel::FalseBranch(Some(c)) => cond matches Some(r) && r.op_view() == c.op_view() && r.lhs_view() == c.lhs_view()
            && r.rhs_view() == c.rhs_view(),
        _ => cond is None,
    }
}

/// The condition under which a loop goes on, given the label of its exit edge.
fn continue_condition(label: Option<&EdgeLabel>) -> (res: Option<Condition>)
    requires
        label matches Some(l) ==> label_ok(*l),
    ensures
        match label {
            Some(l) => negated_cond_matches(res, *l),
            None => res is None,
        },
{
    match label {
        Some(EdgeLabel::TrueBranch(Some(c))) => {
            if c.operator_is(">=") {
                Some(c.with_less_than())
            } else {
                Some(c.negate())
            }
        },
        Some(EdgeLabel::FalseBranch(Some(c))) => Some(c.clone()),
        _ => None,
    }
}

impl StructuredLoop {
    /// The structured loop of `raw_loop` with exit `loop_exit`, entry node `entry` and body
    /// `body`; its condition is the negated condition of the exit edge for a while or do-while
    /// loop, and for a natural loop that of the edge from the head to the entry (or else to the
    /// exit).
    pub fn build_from_raw_loop(
        cfg: &RegionCfg,
        raw_loop: &RawLoop,
        loop_exit: LoopExit,
        entry: usize,
        body: Vec<RegionId>,
    ) -> (res: Self)
        requires
            cfg.inner_spec().wf(),
            labels_ok(cfg.sg()),
            sg_nodes(cfg.sg()).contains_key(raw_loop.head as nat),
            sg_nodes(cfg.sg()).contains_key(entry as nat),
        ensures
            res.index == raw_loop.loop_index,
            res.loop_exit == loop_exit,
            res.head == sg_nodes(cfg.sg())[raw_loop.head as nat],
            res.entry == sg_nodes(cfg.sg())[entry as nat],
            res.body == body,
            loop_exit.kind != LoopKind::NatLoop ==> match loop_exit.exit_edge {
                Some(e) => if sg_edges(cfg.sg()).contains_key(e as nat) {
                    negated_cond_matches(res.cond, sg_edges(cfg.sg())[e as nat].2)
                } else {
                    res.cond is None
                },
                None => res.cond is None,
            },
    {
        proof {
            cfg.inner_spec().lemma_wf();
        }
        let head_region = cfg.key_for_node(raw_loop.head).unwrap();
        let entry_region = cfg.key_for_node(entry).unwrap();
        let cond = match loop_exit.kind {
            LoopKind::DoWhile | LoopKind::While => match loop_exit.exit_edge {
                Some(edge) => {
                    let w = crate::graph::edge_weight(cfg.graph(), edge);
                    proof {
                        if sg_edges(cfg.sg()).contains_key(edge as nat) {
                            assert(label_ok(sg_edges(cfg.sg())[edge as nat].2));
                        }
                    }
                    continue_condition(w)
                },
                None => None,
            },
            LoopKind::NatLoop => extract_condition(cfg, raw_loop.head, entry, loop_exit.exit_node),
        };
        Self::new(raw_loop.loop_index, loop_exit, head_region, entry_region, body, cond)
    }
}

/// The edges of `h` are edges of `g`, unchanged.
pub open spec fn edges_kept_subset(g: Sg, h: Sg) -> bool {
    forall|e: nat| #[trigger] sg_edges(h).contains_key(e) ==> sg_edges(g).contains_key(e) && sg_edges(h)[e] == sg_edges(g)[e]
}

/// The kind of tail that edge `e` of `g` is, for a loop with head `head`, exit node
/// `exit_node`, exit edge `exit_edge` and body `body`: an edge out of a body region, other than
/// the exit edge, to the head, to the exit node, or out of the body. `None` for any other edge.
pub open spec fn tail_kind(g: Sg, e: nat, head: usize, exit_node: usize, exit_edge: usize, body: Seq<RegionId>) -> Option<TailKind> {
    let s = sg_edges(g)[e].0;
    let t = sg_edges(g)[e].1;
    if !sg_edges(g).contains_key(e) || e == exit_edge || !body.contains(sg_nodes(g)[s]) {
        None
    } else if t == head {
        Some(TailKind::Continue)
    } else if t == exit_node {
        Some(TailKind::Break)
    } else if !body.contains(sg_nodes(g)[t]) {
        Some(TailKind::Goto { target: sg_nodes(g)[t] })
    } else {
        None
    }
}

/// `r` records tail edge `e` of `g`: the regions it runs between and its label.
pub open spec fn records_tail(g: Sg, e: nat, r: TailEdge, head: usize, exit_node: usize, exit_edge: usize, body: Seq<RegionId>) -> bool {
    &&& tail_kind(g, e, head, exit_node, exit_edge, body) is Some
    &&& r.0 == sg_nodes(g)[sg_edges(g)[e].0]
    &&& r.1 == sg_nodes(g)[sg_edges(g)[e].1]
    &&& r.2 == EdgeLabel::Virtualized(tail_kind(g, e, head, exit_node, exit_edge, body).unwrap())
}

/// The records of the tail edges of `g`.
pub open spec fn tail_records(g: Sg, head: usize, exit_node: usize, exit_edge: usize, body: Seq<RegionId>) -> Set<TailEdge> {
    Set::new(|r: TailEdge| exists|e: nat| #[trigger] records_tail(g, e, r, head, exit_node, exit_edge, body))
}

/// In the records of a loop's tail edges, each leaves a region of the body; a `continue` goes
/// back to the loop's head, a `break` goes to its exit node, a `goto` names the region outside
/// the body that it goes to; and where the exit node is not the head, every tail to the exit
/// node is a `break`.
pub proof fn lemma_tail_labels(g: Sg, head: usize, exit_node: usize, exit_edge: usize, body: Seq<RegionId>, r: TailEdge)
    requires
        sg_wf(g),
        unique_keys(g),
        sg_nodes(g).contains_key(head as nat),
        sg_nodes(g).contains_key(exit_node as nat),
        tail_records(g, head, exit_node, exit_edge, body).contains(r),
    ensures
        body.contains(r.0),
        r.2 == EdgeLabel::Virtualized(TailKind::Continue) ==> r.1 == sg_nodes(g)[head as nat],
        r.2 == EdgeLabel::Virtualized(TailKind::Break) ==> r.1 == sg_nodes(g)[exit_node as nat],
        r.2 matches EdgeLabel::Virtualized(TailKind::Goto { target }) ==> target == r.1 && !body.contains(r.1),
        r.1 == sg_nodes(g)[exit_node as nat] && exit_node != head ==> r.2 == EdgeLabel::Virtualized(TailKind::Break),
{
    let e = choose|e: nat| #[trigger] records_tail(g, e, r, head, exit_node, exit_edge, body);
    let t = sg_edges(g)[e].1;
    assert(sg_nodes(g).contains_key(t));
    if r.1 == sg_nodes(g)[exit_node as nat] && exit_node != head {
        assert(t == exit_node as nat);
    }
    if t == head as nat {
        assert(r.1 == sg_nodes(g)[head as nat]);
    }
}

/// Some tail edge of `g` runs from node `a` to node `b`.
pub open spec fn tail_between(g: Sg, a: nat, b: nat, head: usize, exit_node: usize, exit_edge: usize, body: Seq<RegionId>) -> bool {
    exists|e: nat| #[trigger] tail_kind(g, e, head, exit_node, exit_edge, body) is Some && sg_edges(g)[e].0 == a && sg_edges(g)[e].1 == b
}

/// A tail edge found: its source and target nodes, its record.
type TailFound = (usize, usize, RegionId, RegionId, EdgeLabel);

/// `c` is what was found of tail edge `e` of `g`.
spec fn found_tail(g: Sg, e: nat, c: TailFound, head: usize, exit_node: usize, exit_edge: usize, body: Seq<RegionId>) -> bool {
    &&& c.0 == sg_edges(g)[e].0
    &&& c.1 == sg_edges(g)[e].1
    &&& records_tail(g, e, (c.2, c.3, c.4), head, exit_node, exit_edge, body)
}

/// Tail edge `e` of `g` is among the first `k` of `found`.
spec fn tail_found(g: Sg, e: nat, found: Seq<TailFound>, k: int, head: usize, exit_node: usize, exit_edge: usize, body: Seq<RegionId>) -> bool {
    exists|m: int| 0 <= m < k && #[trigger] found_tail(g, e, found[m], head, exit_node, exit_edge, body)
}

/// One of the first `k` of `found` runs from node `a` to node `b`.
spec fn pair_found(found: Seq<TailFound>, k: int, a: nat, b: nat) -> bool {
    exists|m: int| 0 <= m < k && (#[trigger] found[m]).0 == a && found[m].1 == b
}

/// Each of `found` was found of the tail edge of `g` at the same position of `wit`.
spec fn witnessed(g: Sg, found: Seq<TailFound>, wit: Seq<nat>, head: usize, exit_node: usize, exit_edge: usize, body: Seq<RegionId>) -> bool {
    &&& wit.len() == found.len()
    &&& forall|k: int| 0 <= k < found.len() ==> #[trigger] found_tail(g, wit[k], found[k], head, exit_node, exit_edge, body)
}

/// `found` holds the tail edges of `g` that leave the first `i` of `body`, and no others.
spec fn found_upto(g: Sg, found: Seq<TailFound>, wit: Seq<nat>, i: int, head: usize, exit_node: usize, exit_edge: usize, body: Seq<RegionId>) -> bool {
    &&& witnessed(g, found, wit, head, exit_node, exit_edge, body)
    &&& forall|e: nat| #[trigger] tail_kind(g, e, head, exit_node, exit_edge, body) is Some && body.take(i).contains(sg_nodes(g)[sg_edges(g)[e].0])
        ==> tail_found(g, e, found, found.len() as int, head, exit_node, exit_edge, body)
}

/// Adds to `found` the tail edges that leave `node`, the node of body region `region`.
fn find_region_tails(
    cfg: &RegionCfg,
    node: usize,
    head: usize,
    exit_node: usize,
    exit_edge: usize,
    body: &Vec<RegionId>,
    found: &mut Vec<TailFound>,
    Ghost(w0): Ghost<Seq<nat>>,
    Ghost(n): Ghost<nat>,
) -> (wit: Ghost<Seq<nat>>)
    requires
        cfg.wf(n),
        sg_nodes(cfg.sg()).contains_key(node as nat),
        body@.contains(sg_nodes(cfg.sg())[node as nat]),
        witnessed(cfg.sg(), old(found)@, w0, head, exit_node, exit_edge, body@),
    ensures
        witnessed(cfg.sg(), final(found)@, wit@, head, exit_node, exit_edge, body@),
        forall|e: nat| tail_found(cfg.sg(), e, old(found)@, old(found)@.len() as int, head, exit_node, exit_edge, body@)
            ==> #[trigger] tail_found(cfg.sg(), e, final(found)@, final(found)@.len() as int, head, exit_node, exit_edge, body@),
        forall|e: nat| #[trigger] tail_kind(cfg.sg(), e, head, exit_node, exit_edge, body@) is Some && sg_edges(cfg.sg())[e].0 == node
            ==> tail_found(cfg.sg(), e, final(found)@, final(found)@.len() as int, head, exit_node, exit_edge, body@),
{
    let ghost g0 = cfg.sg();
    let ghost bs = body@;
    let ghost f0 = found@;
    let ghost mut wit = w0;
    proof {
        cfg.inner_spec().lemma_wf();
    }
    let edges = crate::graph::edges_directed(cfg.graph(), node, Direction::Outgoing);
    let mut j: usize = 0;
    while j < edges.len()
        invariant
            cfg.wf(n),
            cfg.sg() == g0,
            sg_wf(g0),
            bs == body@,
            0 <= j <= edges@.len(),
            sg_nodes(g0).contains_key(node as nat),
            bs.contains(sg_nodes(g0)[node as nat]),
            forall|e: usize| #[trigger] edges@.contains(e) <==> edges_at(g0, node as nat, Direction::Outgoing).contains(e as nat),
            witnessed(g0, found@, wit, head, exit_node, exit_edge, bs),
            forall|e: nat| tail_found(g0, e, f0, f0.len() as int, head, exit_node, exit_edge, bs)
                ==> #[trigger] tail_found(g0, e, found@, found@.len() as int, head, exit_node, exit_edge, bs),
            forall|jj: int| 0 <= jj < j && #[trigger] tail_kind(g0, edges@[jj] as nat, head, exit_node, exit_edge, bs) is Some
                ==> tail_found(g0, edges@[jj] as nat, found@, found@.len() as int, head, exit_node, exit_edge, bs),
        decreases edges@.len() - j,
    {
        let e = edges[j];
        proof {
            assert(edges@.contains(e));
        }
        let ghost before = found@;
        if e != exit_edge {
            let (_, target) = crate::graph::edge_endpoints(cfg.graph(), e).unwrap();
            let target_region = cfg.key_for_node(target).unwrap();
            let tail = if target == head {
                Some(TailKind::Continue)
            } else if target == exit_node {
                Some(TailKind::Break)
            } else if !vec_contains(body, target_region) {
                Some(TailKind::Goto { target: target_region })
            } else {
                None
            };
            proof {
                assert(sg_edges(g0)[e as nat].0 == node as nat);
                assert(tail == tail_kind(g0, e as nat, head, exit_node, exit_edge, bs));
            }
            match tail {
                Some(t) => {
                    let region = cfg.key_for_node(node).unwrap();
                    found.push((node, target, region, target_region, EdgeLabel::Virtualized(t)));
                    proof {
                        assert(found_tail(g0, e as nat, found@[before.len() as int], head, exit_node, exit_edge, bs));
                        wit = wit.push(e as nat);
                    }
                },
                None => {},
            }
        } else {
            proof {
                assert(tail_kind(g0, e as nat, head, exit_node, exit_edge, bs) is None);
            }
        }
        proof {
            assert forall|k: int| 0 <= k < found@.len() implies #[trigger] found_tail(g0, wit[k], found@[k], head, exit_node, exit_edge, bs) by {
                if k < before.len() {
                    assert(found@[k] == before[k]);
                }
            }
            assert forall|e2: nat| tail_found(g0, e2, before, before.len() as int, head, exit_node, exit_edge, bs) implies #[trigger] tail_found(
                g0,
                e2,
                found@,
                found@.len() as int,
                head,
                exit_node,
                exit_edge,
                bs,
            ) by {
                let m = choose|m: int| 0 <= m < before.len() && #[trigger] found_tail(g0, e2, before[m], head, exit_node, exit_edge, bs);
                assert(found@[m] == before[m]);
            }
            assert forall|jj: int| 0 <= jj < j + 1 && #[trigger] tail_kind(g0, edges@[jj] as nat, head, exit_node, exit_edge, bs) is Some
                implies tail_found(g0, edges@[jj] as nat, found@, found@.len() as int, head, exit_node, exit_edge, bs) by {
                if jj == j as int {
                    assert(found_tail(g0, e as nat, found@[before.len() as int], head, exit_node, exit_edge, bs));
                } else {
                    assert(tail_found(g0, edges@[jj] as nat, before, before.len() as int, head, exit_node, exit_edge, bs));
                }
            }
        }
        j = j + 1;
    }
    proof {
        assert forall|e: nat| #[trigger] tail_kind(g0, e, head, exit_node, exit_edge, bs) is Some && sg_edges(g0)[e].0 == node
            implies tail_found(g0, e, found@, found@.len() as int, head, exit_node, exit_edge, bs) by {
            assert(edges_at(g0, node as nat, Direction::Outgoing).contains(e));
            assert(edges@.contains(e as usize));
            let jj = choose|jj: int| 0 <= jj < edges@.len() && edges@[jj] == e as usize;
            assert(tail_kind(g0, edges@[jj] as nat, head, exit_node, exit_edge, bs) is Some);
        }
    }
    Ghost(wit)
}

/// The tail edges that leave the regions of `body`.
fn find_tails(cfg: &RegionCfg, head: usize, exit_node: usize, exit_edge: usize, body: &Vec<RegionId>, Ghost(n): Ghost<nat>) -> (res: (Vec<TailFound>, Ghost<Seq<nat>>))
    requires
        cfg.wf(n),
        forall|i: int| 0 <= i < body@.len() ==> node_of_key(cfg.sg(), #[trigger] body@[i]).is_some(),
    ensures
        found_upto(cfg.sg(), res.0@, res.1@, body@.len() as int, head, exit_node, exit_edge, body@),
{
    let ghost g0 = cfg.sg();
    let ghost bs = body@;
    proof {
        cfg.inner_spec().lemma_wf();
    }
    let mut found: Vec<TailFound> = Vec::new();
    let ghost mut wit: Seq<nat> = Seq::empty();
    let mut i: usize = 0;
    while i < body.len()
        invariant
            cfg.wf(n),
            cfg.sg() == g0,
            sg_wf(g0),
            unique_keys(g0),
            bs == body@,
            0 <= i <= body@.len(),
            forall|k: int| 0 <= k < body@.len() ==> node_of_key(g0, #[trigger] body@[k]).is_some(),
            found_upto(g0, found@, wit, i as int, head, exit_node, exit_edge, bs),
        decreases body@.len() - i,
    {
        let region = body[i];
        proof {
            assert(node_of_key(g0, body@[i as int]).is_some());
        }
        let node = cfg.node_for_key(region).unwrap();
        proof {
            assert(sg_nodes(g0).contains_key(node as nat) && sg_nodes(g0)[node as nat] == region);
            assert(bs.contains(bs[i as int]));
        }
        let ghost f0 = found@;
        let w1 = find_region_tails(cfg, node, head, exit_node, exit_edge, body, &mut found, Ghost(wit), Ghost(n));
        proof {
            wit = w1@;
        }
        proof {
            assert forall|e: nat| #[trigger] tail_kind(g0, e, head, exit_node, exit_edge, bs) is Some && bs.take(i + 1).contains(sg_nodes(g0)[sg_edges(g0)[e].0])
                implies tail_found(g0, e, found@, found@.len() as int, head, exit_node, exit_edge, bs) by {
                let src = sg_edges(g0)[e].0;
                let w = choose|w: int| 0 <= w < i + 1 && #[trigger] bs.take(i + 1)[w] == sg_nodes(g0)[src];
                if w < i {
                    assert(bs.take(i as int)[w] == bs.take(i + 1)[w]);
                    assert(bs.take(i as int).contains(sg_nodes(g0)[src]));
                    assert(tail_found(g0, e, f0, f0.len() as int, head, exit_node, exit_edge, bs));
                } else {
                    assert(sg_nodes(g0)[src] == sg_nodes(g0)[node as nat]);
                    assert(src == node as nat);
                }
            }
        }
        i = i + 1;
    }
    (found, Ghost(wit))
}

/// Takes out of `cfg` every edge between the two nodes of one of `found`, and returns the
/// records of `found`.
fn remove_found_tails(cfg: &mut RegionCfg, found: &Vec<TailFound>, Ghost(n): Ghost<nat>) -> (res: Vec<TailEdge>)
    requires
        old(cfg).wf(n),
    ensures
        final(cfg).wf(n),
        final(cfg).vexit_spec() == old(cfg).vexit_spec(),
        final(cfg).nodes() == old(cfg).nodes(),
        edges_kept_subset(old(cfg).sg(), final(cfg).sg()),
        final(cfg).edges().dom().len() <= old(cfg).edges().dom().len(),
        res@.len() == found@.len(),
        forall|m: int| 0 <= m < found@.len() ==> #[trigger] res@[m] == (found@[m].2, found@[m].3, found@[m].4),
        forall|e: nat| #[trigger] sg_edges(final(cfg).sg()).contains_key(e) <==> sg_edges(old(cfg).sg()).contains_key(e)
            && !pair_found(found@, found@.len() as int, sg_edges(old(cfg).sg())[e].0, sg_edges(old(cfg).sg())[e].1),
{
    let ghost g0 = cfg.sg();
    let mut records: Vec<TailEdge> = Vec::new();
    let mut k: usize = 0;
    while k < found.len()
        invariant
            cfg.wf(n),
            cfg.vexit_spec() == old(cfg).vexit_spec(),
            cfg.nodes() == sg_nodes(g0),
            g0 == old(cfg).sg(),
            edges_kept_subset(g0, cfg.sg()),
            cfg.edges().dom().len() <= sg_edges(g0).dom().len(),
            0 <= k <= found@.len(),
            records@.len() == k,
            forall|m: int| 0 <= m < k ==> #[trigger] records@[m] == (found@[m].2, found@[m].3, found@[m].4),
            forall|e: nat| #[trigger] sg_edges(cfg.sg()).contains_key(e) <==> sg_edges(g0).contains_key(e) && !pair_found(found@, k as int, sg_edges(g0)[e].0, sg_edges(g0)[e].1),
        decreases found@.len() - k,
    {
        let entry = &found[k];
        let source = entry.0;
        let target = entry.1;
        let source_region = entry.2;
        let target_region = entry.3;
        let label = entry.4.clone();
        loop
            invariant
                cfg.wf(n),
                cfg.vexit_spec() == old(cfg).vexit_spec(),
                cfg.nodes() == sg_nodes(g0),
                edges_kept_subset(g0, cfg.sg()),
                cfg.edges().dom().len() <= sg_edges(g0).dom().len(),
                0 <= k < found@.len(),
                source == found@[k as int].0,
                target == found@[k as int].1,
                forall|e: nat| #[trigger] sg_edges(cfg.sg()).contains_key(e) ==> sg_edges(g0).contains_key(e) && !pair_found(found@, k as int, sg_edges(g0)[e].0, sg_edges(g0)[e].1),
                forall|e: nat| #[trigger] sg_edges(g0).contains_key(e) && !pair_found(found@, k + 1, sg_edges(g0)[e].0, sg_edges(g0)[e].1) ==> sg_edges(cfg.sg()).contains_key(e),
            ensures
                cfg.wf(n),
                cfg.vexit_spec() == old(cfg).vexit_spec(),
                cfg.nodes() == sg_nodes(g0),
                edges_kept_subset(g0, cfg.sg()),
                cfg.edges().dom().len() <= sg_edges(g0).dom().len(),
                forall|e: nat| #[trigger] sg_edges(cfg.sg()).contains_key(e) <==> sg_edges(g0).contains_key(e) && !pair_found(found@, k + 1, sg_edges(g0)[e].0, sg_edges(g0)[e].1),
            decreases cfg.edges().dom().len(),
        {
            proof {
                cfg.inner_spec().lemma_wf();
            }
            match crate::graph::find_edge(cfg.graph(), source, target) {
                Some(edge) => {
                    let ghost before = cfg.edges();
                    cfg.inner_mut_remove_edge(edge, Ghost(n));
                    proof {
                        assert(before.dom().contains(edge as nat));
                        assert(cfg.edges().dom() =~= before.dom().remove(edge as nat));
                        assert forall|e: nat| #[trigger] sg_edges(g0).contains_key(e) && !pair_found(found@, k + 1, sg_edges(g0)[e].0, sg_edges(g0)[e].1)
                            implies sg_edges(cfg.sg()).contains_key(e) by {
                            if e == edge as nat {
                                assert(pair_found(found@, k + 1, sg_edges(g0)[e].0, sg_edges(g0)[e].1));
                            }
                        }
                    }
                },
                None => {
                    proof {
                        assert forall|e: nat| #[trigger] sg_edges(cfg.sg()).contains_key(e) implies sg_edges(g0).contains_key(e) && !pair_found(found@, k + 1, sg_edges(g0)[e].0, sg_edges(g0)[e].1) by {
                            if pair_found(found@, k + 1, sg_edges(g0)[e].0, sg_edges(g0)[e].1) {
                                let m = choose|m: int| 0 <= m < k + 1 && (#[trigger] found@[m]).0 == sg_edges(g0)[e].0 && found@[m].1 == sg_edges(g0)[e].1;
                                if m < k {
                                    assert(pair_found(found@, k as int, sg_edges(g0)[e].0, sg_edges(g0)[e].1));
                                } else {
                                    assert(has_edge(cfg.sg(), source as nat, target as nat));
                                }
                            }
                        }
                    }
                    break;
                },
            }
        }
        records.push((source_region, target_region, label));
        k = k + 1;
    }
    records
}

/// The records of all tail edges found are the records of the tail edges of `g0`, and the
/// node pairs found are those that tail edges run between.
proof fn lemma_tails_recorded(
    g0: Sg,
    f: Seq<TailFound>,
    wit: Seq<nat>,
    res: Seq<TailEdge>,
    head: usize,
    exit_node: usize,
    exit_edge: usize,
    bs: Seq<RegionId>,
)
    requires
        found_upto(g0, f, wit, bs.len() as int, head, exit_node, exit_edge, bs),
        res.len() == f.len(),
        forall|m: int| 0 <= m < f.len() ==> #[trigger] res[m] == (f[m].2, f[m].3, f[m].4),
    ensures
        forall|e: nat| #[trigger] tail_kind(g0, e, head, exit_node, exit_edge, bs) is Some ==> exists|k: int|
            0 <= k < res.len() && #[trigger] records_tail(g0, e, res[k], head, exit_node, exit_edge, bs),
        forall|k: int| 0 <= k < res.len() ==> tail_records(g0, head, exit_node, exit_edge, bs).contains(#[trigger] res[k]),
        forall|k: int| 0 <= k < res.len() ==> bs.contains(#[trigger] res[k].0) && res[k].2 is Virtualized,
        forall|a: nat, b: nat| #[trigger] pair_found(f, f.len() as int, a, b) <==> tail_between(g0, a, b, head, exit_node, exit_edge, bs),
{
    lemma_tails_all_recorded(g0, f, wit, res, head, exit_node, exit_edge, bs);
    lemma_records_sound(g0, f, wit, res, head, exit_node, exit_edge, bs);
    lemma_pairs_found(g0, f, wit, head, exit_node, exit_edge, bs);
}

proof fn lemma_tails_all_recorded(
    g0: Sg,
    f: Seq<TailFound>,
    wit: Seq<nat>,
    res: Seq<TailEdge>,
    head: usize,
    exit_node: usize,
    exit_edge: usize,
    bs: Seq<RegionId>,
)
    requires
        found_upto(g0, f, wit, bs.len() as int, head, exit_node, exit_edge, bs),
        res.len() == f.len(),
        forall|m: int| 0 <= m < f.len() ==> #[trigger] res[m] == (f[m].2, f[m].3, f[m].4),
    ensures
        forall|e: nat| #[trigger] tail_kind(g0, e, head, exit_node, exit_edge, bs) is Some ==> exists|k: int|
            0 <= k < res.len() && #[trigger] records_tail(g0, e, res[k], head, exit_node, exit_edge, bs),
{
    let len = f.len() as int;
    assert(bs.take(bs.len() as int) =~= bs);
    assert forall|e: nat| #[trigger] tail_kind(g0, e, head, exit_node, exit_edge, bs) is Some implies exists|k2: int|
        0 <= k2 < res.len() && #[trigger] records_tail(g0, e, res[k2], head, exit_node, exit_edge, bs) by {
        assert(bs.take(bs.len() as int).contains(sg_nodes(g0)[sg_edges(g0)[e].0]));
        let m = choose|m: int| 0 <= m < len && #[trigger] found_tail(g0, e, f[m], head, exit_node, exit_edge, bs);
        assert(res[m] == (f[m].2, f[m].3, f[m].4));
        assert(records_tail(g0, e, res[m], head, exit_node, exit_edge, bs));
    }
}

proof fn lemma_records_sound(
    g0: Sg,
    f: Seq<TailFound>,
    wit: Seq<nat>,
    res: Seq<TailEdge>,
    head: usize,
    exit_node: usize,
    exit_edge: usize,
    bs: Seq<RegionId>,
)
    requires
        witnessed(g0, f, wit, head, exit_node, exit_edge, bs),
        res.len() == f.len(),
        forall|m: int| 0 <= m < f.len() ==> #[trigger] res[m] == (f[m].2, f[m].3, f[m].4),
    ensures
        forall|k: int| 0 <= k < res.len() ==> tail_records(g0, head, exit_node, exit_edge, bs).contains(#[trigger] res[k]),
        forall|k: int| 0 <= k < res.len() ==> bs.contains(#[trigger] res[k].0) && res[k].2 is Virtualized,
{
    assert forall|k2: int| 0 <= k2 < res.len() implies tail_records(g0, head, exit_node, exit_edge, bs).contains(#[trigger] res[k2]) by {
        assert(found_tail(g0, wit[k2], f[k2], head, exit_node, exit_edge, bs));
        assert(res[k2] == (f[k2].2, f[k2].3, f[k2].4));
        assert(records_tail(g0, wit[k2], res[k2], head, exit_node, exit_edge, bs));
    }
    assert forall|k2: int| 0 <= k2 < res.len() implies bs.contains(#[trigger] res[k2].0) && res[k2].2 is Virtualized by {
        assert(found_tail(g0, wit[k2], f[k2], head, exit_node, exit_edge, bs));
        assert(res[k2] == (f[k2].2, f[k2].3, f[k2].4));
    }
}

/// The node pairs found are those that tail edges run between.
proof fn lemma_pairs_found(g0: Sg, f: Seq<TailFound>, wit: Seq<nat>, head: usize, exit_node: usize, exit_edge: usize, bs: Seq<RegionId>)
    requires
        found_upto(g0, f, wit, bs.len() as int, head, exit_node, exit_edge, bs),
    ensures
        forall|a: nat, b: nat| #[trigger] pair_found(f, f.len() as int, a, b) <==> tail_between(g0, a, b, head, exit_node, exit_edge, bs),
{
    let len = f.len() as int;
    assert(bs.take(bs.len() as int) =~= bs);
    assert forall|a: nat, b: nat| #[trigger] pair_found(f, len, a, b) <==> tail_between(g0, a, b, head, exit_node, exit_edge, bs) by {
        if pair_found(f, len, a, b) {
            let m = choose|m: int| 0 <= m < len && (#[trigger] f[m]).0 == a && f[m].1 == b;
            let e = wit[m];
            assert(found_tail(g0, e, f[m], head, exit_node, exit_edge, bs));
            assert(tail_kind(g0, e, head, exit_node, exit_edge, bs) is Some);
        }
        if tail_between(g0, a, b, head, exit_node, exit_edge, bs) {
            let e = choose|e: nat| #[trigger] tail_kind(g0, e, head, exit_node, exit_edge, bs) is Some && sg_edges(g0)[e].0 == a && sg_edges(g0)[e].1 == b;
            assert(bs.take(bs.len() as int).contains(sg_nodes(g0)[sg_edges(g0)[e].0]));
            let m = choose|m: int| 0 <= m < len && #[trigger] found_tail(g0, e, f[m], head, exit_node, exit_edge, bs);
            assert(f[m].0 == a && f[m].1 == b);
        }
    }
}

/// Takes out every edge that leaves a body region other than by the exit edge and does not
/// stay in the body: those to the head become `continue`, those to the exit node `break`, and
/// the rest jumps to their target. Every edge between the same two nodes as such an edge goes
/// with it. Returns a record of each.
pub(crate) fn virtualize_loop_tails(
    cfg: &mut RegionCfg,
    raw_loop: &mut RawLoop,
    loop_exit: &LoopExit,
    body: &Vec<RegionId>,
    Ghost(n): Ghost<nat>,
) -> (res: Vec<TailEdge>)
    requires
        old(cfg).wf(n),
        forall|i: int| 0 <= i < body@.len() ==> node_of_key(old(cfg).sg(), #[trigger] body@[i]).is_some(),
    ensures
        *final(raw_loop) == *old(raw_loop),
        final(cfg).wf(n),
        final(cfg).vexit_spec() == old(cfg).vexit_spec(),
        final(cfg).nodes() == old(cfg).nodes(),
        edges_kept_subset(old(cfg).sg(), final(cfg).sg()),
        final(cfg).edges().dom().len() <= old(cfg).edges().dom().len(),
        forall|k: int| 0 <= k < res@.len() ==> body@.contains(#[trigger] res@[k].0) && res@[k].2 is Virtualized,
        match (loop_exit.exit_node, loop_exit.exit_edge) {
            (Some(x), Some(xe)) => {
                &&& forall|e: nat| #[trigger] tail_kind(old(cfg).sg(), e, old(raw_loop).head, x, xe, body@) is Some ==> exists|k: int|
                    0 <= k < res@.len() && #[trigger] records_tail(old(cfg).sg(), e, res@[k], old(raw_loop).head, x, xe, body@)
                &&& forall|k: int| 0 <= k < res@.len() ==> tail_records(old(cfg).sg(), old(raw_loop).head, x, xe, body@).contains(#[trigger] res@[k])
                &&& forall|e: nat| #[trigger] sg_edges(final(cfg).sg()).contains_key(e) <==> sg_edges(old(cfg).sg()).contains_key(e) && !tail_between(
                    old(cfg).sg(),
                    sg_edges(old(cfg).sg())[e].0,
                    sg_edges(old(cfg).sg())[e].1,
                    old(raw_loop).head,
                    x,
                    xe,
                    body@,
                )
            },
            _ => res@.len() == 0 && *final(cfg) == *old(cfg),
        },
{
    let ghost g0 = cfg.sg();
    let ghost bs = body@;
    let (exit_node, exit_edge) = match loop_exit.exit() {
        Some(p) => p,
        None => {
            return Vec::new();
        },
    };
    let head = raw_loop.head;
    let (found, wit) = find_tails(cfg, head, exit_node, exit_edge, body, Ghost(n));
    let res = remove_found_tails(cfg, &found, Ghost(n));
    proof {
        lemma_tails_recorded(g0, found@, wit@, res@, head, exit_node, exit_edge, bs);
        assert(exit_node == loop_exit.exit_node.unwrap() && exit_edge == loop_exit.exit_edge.unwrap());
        assert(head == old(raw_loop).head);
        assert(g0 == old(cfg).sg());
        assert(bs == body@);
        assert(forall|k: int| 0 <= k < res@.len() ==> body@.contains(#[trigger] res@[k].0) && res@[k].2 is Virtualized);
        assert(forall|e: nat| #[trigger] tail_kind(g0, e, head, exit_node, exit_edge, bs) is Some ==> exists|k: int|
            0 <= k < res@.len() && #[trigger] records_tail(g0, e, res@[k], head, exit_node, exit_edge, bs));
        assert(forall|k: int| 0 <= k < res@.len() ==> tail_records(g0, head, exit_node, exit_edge, bs).contains(#[trigger] res@[k]));
        assert forall|e: nat| #[trigger] sg_edges(cfg.sg()).contains_key(e) <==> sg_edges(g0).contains_key(e) && !tail_between(
            g0,
            sg_edges(g0)[e].0,
            sg_edges(g0)[e].1,
            head,
            exit_node,
            exit_edge,
            bs,
        ) by {
            assert(pair_found(found@, found@.len() as int, sg_edges(g0)[e].0, sg_edges(g0)[e].1) <==> tail_between(g0, sg_edges(g0)[e].0, sg_edges(g0)[e].1, head, exit_node, exit_edge, bs));
        }
    }
    res
}

/// Finds the structure of `raw_loop`: leaves it a single entry, picks its exit and body, and
/// takes out its other tails. Returns the structured loop and the records of every edge taken
/// out.
pub fn find_loop(cfg: &mut RegionCfg, raw_loop: &mut RawLoop, Ghost(n): Ghost<nat>) -> (res: (StructuredLoop, Vec<TailEdge>))
    requires
        old(cfg).wf(n),
        old(cfg).nodes().contains_key(old(cfg).vexit_spec() as nat),
        old(raw_loop).wf(old(cfg).sg()),
        old(raw_loop).entries@.len() > 0,
        sg_nodes(old(cfg).sg()).contains_key(old(raw_loop).head as nat),
        exists|x: nat| crate::cfg_structuring::region::is_source(old(cfg).sg(), x),
    ensures
        *final(raw_loop) == *old(raw_loop),
        final(cfg).wf(n),
        final(cfg).vexit_spec() == old(cfg).vexit_spec(),
        final(cfg).nodes() == old(cfg).nodes(),
        edges_kept_subset(old(cfg).sg(), final(cfg).sg()),
        res.0.index == old(raw_loop).loop_index,
        res.0.head == sg_nodes(old(cfg).sg())[old(raw_loop).head as nat],
        old(raw_loop).entries@.contains(node_of_key(old(cfg).sg(), res.0.entry).unwrap() as usize),
        node_of_key(old(cfg).sg(), res.0.entry).is_some(),
        res.0.body@.no_duplicates(),
        forall|i: int| 0 <= i < res.0.body@.len() ==> node_of_key(final(cfg).sg(), #[trigger] res.0.body@[i]).is_some(),
        res.0.loop_exit.exit_node matches Some(x) ==> final(cfg).nodes().contains_key(x as nat),
        res.0.loop_exit.exit_label matches Some(l) ==> label_ok(l),
{
    let ghost g0 = cfg.sg();
    proof {
        cfg.inner_spec().lemma_wf();
    }
    let (single_entry, mut tail_edges) = ensure_single_entry(cfg, raw_loop, Ghost(n));
    proof {
        cfg.inner_spec().lemma_wf();
        let x = choose|x: nat| crate::cfg_structuring::region::is_source(g0, x);
        assert(crate::cfg_structuring::region::is_source(cfg.sg(), x)) by {
            assert(edges_at(cfg.sg(), x, Direction::Incoming) =~= Set::empty()) by {
                assert forall|e: nat| !edges_at(cfg.sg(), x, Direction::Incoming).contains(e) by {
                    if edges_at(cfg.sg(), x, Direction::Incoming).contains(e) {
                        assert(sg_edges(g0).contains_key(e));
                        assert(edges_at(g0, x, Direction::Incoming).contains(e));
                    }
                }
            }
        }
        assert(raw_loop.entries@.contains(single_entry));
        assert(entry_nodes(g0, raw_loop.nodes@).contains(single_entry));
        let k = choose|k: int| 0 <= k < raw_loop.nodes@.len() && raw_loop.nodes@[k] == single_entry;
        assert(sg_nodes(g0).contains_key(raw_loop.nodes@[k] as nat));
        assert forall|i: int| 0 <= i < raw_loop.exit_edges@.len() implies cfg.edges().contains_key(#[trigger] raw_loop.exit_edges@[i] as nat) by {
            assert(raw_loop.exit_edges@.contains(raw_loop.exit_edges@[i]));
            assert(exit_edge_set(cfg.sg(), raw_loop.nodes@).contains(raw_loop.exit_edges@[i] as nat));
        }
    }
    let (loop_exit, body) = {
        let dominance = cfg.compute_dominance().unwrap();
        let loop_exit = select_single_exit(&dominance, raw_loop).unwrap();
        let body = match loop_exit.exit_node() {
            Some(exit_node) => build_loop_body(&dominance, single_entry, exit_node),
            None => {
                let b = crate::cfg_structuring::if_then::keys_of_nodes(cfg, &raw_loop.nodes);
                proof {
                    crate::cfg_structuring::if_then::lemma_keys_distinct(cfg.sg(), raw_loop.nodes@);
                }
                b
            },
        };
        proof {
            assert forall|i: int| 0 <= i < body@.len() implies node_of_key(cfg.sg(), #[trigger] body@[i]).is_some() by {
                match loop_exit.exit_node {
                    Some(x) => {
                        assert(body@.contains(body@[i]));
                        let y = choose|y: nat| in_loop_body(dominance, single_entry, x, y) && sg_nodes(cfg.sg())[y] == body@[i];
                        assert(sg_nodes(cfg.sg()).contains_key(y));
                    },
                    None => {
                        assert(sg_nodes(cfg.sg()).contains_key(raw_loop.nodes@[i] as nat));
                    },
                }
            }
            match loop_exit.exit_edge {
                Some(e) => {
                    assert(cfg.edges().contains_key(e as nat));
                    assert(label_ok(sg_edges(cfg.sg())[e as nat].2));
                },
                None => {},
            }
        }
        (loop_exit, body)
    };
    let ghost g1 = cfg.sg();
    let virtualized_tail_edges = virtualize_loop_tails(cfg, raw_loop, &loop_exit, &body, Ghost(n));
    let mut k: usize = 0;
    while k < virtualized_tail_edges.len()
        invariant
            0 <= k <= virtualized_tail_edges@.len(),
        decreases virtualized_tail_edges@.len() - k,
    {
        let t = &virtualized_tail_edges[k];
        tail_edges.push((t.0, t.1, t.2.clone()));
        k = k + 1;
    }
    proof {
        cfg.inner_spec().lemma_wf();
        assert forall|i: int| 0 <= i < body@.len() implies node_of_key(cfg.sg(), #[trigger] body@[i]).is_some() by {
            assert(node_of_key(g1, body@[i]).is_some());
            let y = choose|y: nat| sg_nodes(g1).contains_key(y) && #[trigger] sg_nodes(g1)[y] == body@[i];
            assert(sg_nodes(cfg.sg()).contains_key(y) && sg_nodes(cfg.sg())[y] == body@[i]);
        }
        assert forall|e: nat| #[trigger] sg_edges(cfg.sg()).contains_key(e) implies sg_edges(g0).contains_key(e) && sg_edges(cfg.sg())[e]
            == sg_edges(g0)[e] by {
            assert(sg_edges(g1).contains_key(e));
        }
    }
    let structured_loop = StructuredLoop::build_from_raw_loop(cfg, raw_loop, loop_exit, single_entry, body);
    proof {
        let c = choose|c: nat| sg_nodes(g0).contains_key(c) && #[trigger] sg_nodes(g0)[c] == structured_loop.entry;
        assert(sg_nodes(g0)[single_entry as nat] == structured_loop.entry);
        assert(crate::graph::unique_keys(g0));
        assert(sg_nodes(g0)[c] == sg_nodes(g0)[single_entry as nat]);
    }
    (structured_loop, tail_edges)
}

/// `h` is `g` with node `b` replaced by the new node `v`: the edges away from `b` stay as they
/// are, every edge into `b` from another node is an edge into `v` instead, `v` leads to the
/// exit `x` with label `l` where there is one (and `x` is not `b`), and there is no other edge.
pub open spec fn loop_contracted(g: Sg, h: Sg, b: nat, v: nat, exit: Option<(usize, EdgeLabel)>) -> bool {
    &&& forall|e: nat| #[trigger] sg_edges(g).contains_key(e) && sg_edges(g)[e].0 != b && sg_edges(g)[e].1 != b ==> sg_edges(h).contains_key(e)
        && sg_edges(h)[e] == sg_edges(g)[e]
    &&& forall|e: nat| #[trigger] sg_edges(g).contains_key(e) && sg_edges(g)[e].1 == b && sg_edges(g)[e].0 != b ==> crate::graph::has_edge(
        h,
        sg_edges(g)[e].0,
        v,
    )
    &&& match exit {
        Some((x, l)) => x as nat != b ==> exists|e: nat| #[trigger] sg_edges(h).contains_key(e) && sg_edges(h)[e] == (v, x as nat, l),
        None => true,
    }
    &&& forall|e: nat| #[trigger] sg_edges(h).contains_key(e) ==> {
        ||| sg_edges(g).contains_key(e) && sg_edges(h)[e] == sg_edges(g)[e] && sg_edges(g)[e].0 != b && sg_edges(g)[e].1 != b
        ||| sg_edges(h)[e].1 == v && sg_edges(h)[e].0 != b && exists|y: nat|
            #[trigger] sg_edges(g).contains_key(y) && sg_edges(g)[y].1 == b && sg_edges(g)[y].0 == sg_edges(h)[e].0
                && sg_edges(g)[y].2 == sg_edges(h)[e].2
        ||| exit matches Some((x, l)) && sg_edges(h)[e] == (v, x as nat, l)
    }
}

/// Replaces the node of the loop body by a node of a new loop region over it, which takes the
/// edges into the body and leads to the loop's exit; returns the new region.
pub fn contract_cyclic_region(
    cfg: &mut RegionCfg,
    regions: &mut RegionStore,
    structured_loop: &StructuredLoop,
    body: RegionId,
) -> (res: RegionId)
    requires
        old(cfg).wf(old(regions)@.len()),
        old(regions).wf(),
        old(cfg).nodes().dom().len() + old(cfg).edges().dom().len() + 2 < 0x1000_0000,
        node_of_key(old(cfg).sg(), body).is_some(),
        structured_loop.loop_exit.exit_node matches Some(x) ==> old(cfg).nodes().contains_key(x as nat),
        structured_loop.loop_exit.exit_label matches Some(l) ==> label_ok(l),
    ensures
        final(regions).wf(),
        res == old(regions)@.len(),
        final(regions)@.len() == old(regions)@.len() + 1,
        final(regions)@.drop_last() == old(regions)@,
        final(regions)@.last() matches Region::Loop { kind, meta, body: b } && kind == structured_loop.loop_exit.kind && b == body
            && meta.index == structured_loop.index && meta.head == structured_loop.head && meta.entry == structured_loop.entry,
        final(cfg).wf(final(regions)@.len()),
        final(cfg).vexit_spec() == old(cfg).vexit_spec(),
        node_of_key(final(cfg).sg(), res) matches Some(v) && !old(cfg).nodes().contains_key(v) && final(cfg).nodes() == old(cfg).nodes().remove(
            node_of_key(old(cfg).sg(), body).unwrap(),
        ).insert(v, res) && loop_contracted(
            old(cfg).sg(),
            final(cfg).sg(),
            node_of_key(old(cfg).sg(), body).unwrap(),
            v,
            structured_loop.loop_exit.exit_target_and_label_spec(),
        ),
        final(cfg).nodes().dom().len() + final(cfg).edges().dom().len() <= old(cfg).nodes().dom().len() + old(cfg).edges().dom().len() + 2,
{
    contract_loop(cfg, regions, structured_loop, body)
}

fn contract_loop(cfg: &mut RegionCfg, regions: &mut RegionStore, structured_loop: &StructuredLoop, body_region: RegionId) -> (res: RegionId)
    requires
        old(cfg).wf(old(regions)@.len()),
        old(regions).wf(),
        old(cfg).nodes().dom().len() + old(cfg).edges().dom().len() + 2 < 0x1000_0000,
        node_of_key(old(cfg).sg(), body_region).is_some(),
        structured_loop.loop_exit.exit_node matches Some(x) ==> old(cfg).nodes().contains_key(x as nat),
        structured_loop.loop_exit.exit_label matches Some(l) ==> label_ok(l),
    ensures
        final(regions).wf(),
        res == old(regions)@.len(),
        final(regions)@.len() == old(regions)@.len() + 1,
        final(regions)@.drop_last() == old(regions)@,
        final(regions)@.last() matches Region::Loop { kind, meta, body: b } && kind == structured_loop.loop_exit.kind && b == body_region
            && meta.index == structured_loop.index && meta.head == structured_loop.head && meta.entry == structured_loop.entry,
        final(cfg).wf(final(regions)@.len()),
        final(cfg).vexit_spec() == old(cfg).vexit_spec(),
        node_of_key(final(cfg).sg(), res) matches Some(v) && !old(cfg).nodes().contains_key(v) && final(cfg).nodes() == old(cfg).nodes().remove(
            node_of_key(old(cfg).sg(), body_region).unwrap(),
        ).insert(v, res) && loop_contracted(
            old(cfg).sg(),
            final(cfg).sg(),
            node_of_key(old(cfg).sg(), body_region).unwrap(),
            v,
            structured_loop.loop_exit.exit_target_and_label_spec(),
        ),
        final(cfg).nodes().dom().len() + final(cfg).edges().dom().len() <= old(cfg).nodes().dom().len() + old(cfg).edges().dom().len() + 2,
{
    let ghost nodes0 = cfg.nodes();
    let ghost g0 = cfg.sg();
    let ghost exit_spec = structured_loop.loop_exit.exit_target_and_label_spec();
    proof {
        cfg.inner_spec().lemma_wf();
    }
    let body_node = cfg.node_for_key(body_region).unwrap();
    let loop_region = Region::Loop { kind: structured_loop.loop_exit.kind(), meta: structured_loop.clone(), body: body_region };
    let (loop_id, loop_node) = cfg.add_region(regions, loop_region);
    let ghost n = regions@.len();
    let ghost g1 = cfg.sg();
    proof {
        assert(cfg.nodes().dom() =~= nodes0.dom().insert(loop_node as nat));
        cfg.inner_spec().lemma_wf();
    }
    cfg.redirect_edges(body_node, loop_node, Direction::Incoming, Ghost(n));
    let ghost g2 = cfg.sg();
    proof {
        let m = crate::cfg_structuring::region::moved_edges(g1, body_node, Seq::empty(), Direction::Incoming);
        assert forall|e: nat| #[trigger] sg_edges(g2).contains_key(e) implies sg_edges(g2)[e].0 != loop_node as nat by {
            if sg_edges(g1).contains_key(e) && !m.contains(e) {
                assert(sg_edges(g0).contains_key(e));
                assert(nodes0.contains_key(sg_edges(g0)[e].0));
            } else {
                let x = choose|x: nat| #[trigger] m.contains(x) && (sg_edges(g2)[e].0, sg_edges(g2)[e].1)
                    == crate::cfg_structuring::region::moved_ends(g1, x, loop_node, Direction::Incoming) && sg_edges(g2)[e].2 == sg_edges(g1)[x].2;
                assert(sg_edges(g0).contains_key(x));
                assert(nodes0.contains_key(sg_edges(g0)[x].0));
            }
        }
    }
    match structured_loop.loop_exit.exit_target_and_label() {
        Some((exit_node, edge_label)) => {
            loop
                invariant
                    cfg.wf(n),
                    cfg.vexit_spec() == old(cfg).vexit_spec(),
                    cfg.nodes() == nodes0.insert(loop_node as nat, loop_id),
                    cfg.nodes().dom().len() + cfg.edges().dom().len() <= nodes0.dom().len() + old(cfg).edges().dom().len() + 1,
                    forall|e: nat| #[trigger] sg_edges(cfg.sg()).contains_key(e) ==> sg_edges(g2).contains_key(e) && sg_edges(cfg.sg())[e]
                        == sg_edges(g2)[e],
                    forall|e: nat| #[trigger] sg_edges(g2).contains_key(e) && sg_edges(g2)[e].0 != body_node ==> sg_edges(cfg.sg()).contains_key(e),
                decreases cfg.edges().dom().len(),
            {
                proof {
                    cfg.inner_spec().lemma_wf();
                }
                match crate::graph::find_edge(cfg.graph(), body_node, exit_node) {
                    Some(edge) => {
                        let ghost before = cfg.edges();
                        cfg.inner_mut_remove_edge(edge, Ghost(n));
                        proof {
                            assert(before.dom().contains(edge as nat));
                            assert(cfg.edges().dom() =~= before.dom().remove(edge as nat));
                        }
                    },
                    None => {
                        break;
                    },
                }
            }
            proof {
                cfg.inner_spec().lemma_wf();
                assert(!crate::graph::has_edge(cfg.sg(), loop_node as nat, exit_node as nat)) by {
                    if crate::graph::has_edge(cfg.sg(), loop_node as nat, exit_node as nat) {
                        let e = choose|e: nat| #[trigger] sg_edges(cfg.sg()).contains_key(e) && sg_edges(cfg.sg())[e].0 == loop_node as nat
                            && sg_edges(cfg.sg())[e].1 == exit_node as nat;
                        assert(sg_edges(g2).contains_key(e));
                    }
                }
            }
            if crate::graph::find_edge(cfg.graph(), loop_node, exit_node).is_none() {
                let ghost before = cfg.edges();
                let added = cfg.add_edge(loop_node, exit_node, edge_label, Ghost(n));
                proof {
                    assert(cfg.edges().dom().len() == before.dom().len() + 1);
                    assert(sg_edges(cfg.sg()).contains_key(added as nat));
                }
            }
        },
        None => {},
    }
    let ghost g4 = cfg.sg();
    proof {
        cfg.inner_spec().lemma_wf();
        assert forall|e: nat| #[trigger] sg_edges(g4).contains_key(e) implies (sg_edges(g2).contains_key(e) && sg_edges(g4)[e] == sg_edges(g2)[e])
            || (exit_spec matches Some((x, l)) && sg_edges(g4)[e] == (loop_node as nat, x as nat, l)) by {
        }
        assert forall|e: nat| #[trigger] sg_edges(g2).contains_key(e) && sg_edges(g2)[e].0 != body_node implies sg_edges(g4).contains_key(e)
            && sg_edges(g4)[e] == sg_edges(g2)[e] by {
        }
    }
    let ghost before = cfg.sg();
    let r = cfg.remove_node_by_index(body_node, Ghost(n));
    proof {
        assert(r is Ok);
        let kept = sg_edges(before).dom().filter(|e: nat| sg_edges(before)[e].0 != body_node && sg_edges(before)[e].1 != body_node);
        vstd::set_lib::lemma_len_subset(kept, sg_edges(before).dom());
        assert(cfg.edges().dom() =~= kept);
        assert(cfg.nodes() =~= nodes0.remove(body_node as nat).insert(loop_node as nat, loop_id));
        assert(cfg.nodes()[loop_node as nat] == loop_id);
        cfg.inner_spec().lemma_wf();
        let c = choose|c: nat| sg_nodes(cfg.sg()).contains_key(c) && #[trigger] sg_nodes(cfg.sg())[c] == loop_id;
        assert(sg_nodes(cfg.sg())[c] == sg_nodes(cfg.sg())[loop_node as nat]);
        assert(node_of_key(cfg.sg(), loop_id) == Some(loop_node as nat));
        assert(nodes0.dom().remove(body_node as nat).len() == nodes0.dom().len() - 1);
        assert(cfg.nodes().dom() =~= nodes0.dom().remove(body_node as nat).insert(loop_node as nat));
        lemma_loop_contracted(g0, g1, g2, g4, cfg.sg(), body_node, loop_node, exit_spec);
    }
    loop_id
}

/// The steps of loop contraction, put together: `g1` adds node `v` to `g0`, `g2` redirects the
/// edges into `b` to `v`, `g4` drops edges that leave `b` and adds the exit edge, and `g5`
/// removes `b`.
proof fn lemma_loop_contracted(g0: Sg, g1: Sg, g2: Sg, g4: Sg, g5: Sg, b: usize, v: usize, exit: Option<(usize, EdgeLabel)>)
    requires
        sg_wf(g0),
        sg_edges(g1) == sg_edges(g0),
        sg_nodes(g0).contains_key(b as nat),
        !sg_nodes(g0).contains_key(v as nat),
        crate::cfg_structuring::region::redirected(g1, g2, b, v, Seq::empty(), Direction::Incoming),
        forall|e: nat| #[trigger] sg_edges(g4).contains_key(e) ==> (sg_edges(g2).contains_key(e) && sg_edges(g4)[e] == sg_edges(g2)[e])
            || (exit matches Some((x, l)) && sg_edges(g4)[e] == (v as nat, x as nat, l)),
        forall|e: nat| #[trigger] sg_edges(g2).contains_key(e) && sg_edges(g2)[e].0 != b ==> sg_edges(g4).contains_key(e)
            && sg_edges(g4)[e] == sg_edges(g2)[e],
        exit matches Some((x, l)) ==> exists|e: nat| #[trigger] sg_edges(g4).contains_key(e) && sg_edges(g4)[e] == (v as nat, x as nat, l),
        sg_edges(g5) == sg_edges(g4).restrict(sg_edges(g4).dom().filter(|e: nat| sg_edges(g4)[e].0 != b && sg_edges(g4)[e].1 != b)),
    ensures
        loop_contracted(g0, g5, b as nat, v as nat, exit),
{
    let m = crate::cfg_structuring::region::moved_edges(g1, b, Seq::empty(), Direction::Incoming);
    assert forall|e: nat| #[trigger] sg_edges(g0).contains_key(e) && sg_edges(g0)[e].0 != b && sg_edges(g0)[e].1 != b implies sg_edges(g5).contains_key(e)
        && sg_edges(g5)[e] == sg_edges(g0)[e] by {
        assert(!m.contains(e));
        assert(sg_edges(g2).contains_key(e));
        assert(sg_edges(g4).contains_key(e));
    }
    assert forall|e: nat| #[trigger] sg_edges(g0).contains_key(e) && sg_edges(g0)[e].1 == b && sg_edges(g0)[e].0 != b implies crate::graph::has_edge(
        g5,
        sg_edges(g0)[e].0,
        v as nat,
    ) by {
        assert(m.contains(e));
        assert(crate::graph::has_edge(g2, sg_edges(g0)[e].0, v as nat));
        let w = choose|w: nat| #[trigger] sg_edges(g2).contains_key(w) && sg_edges(g2)[w].0 == sg_edges(g0)[e].0 && sg_edges(g2)[w].1 == v as nat;
        assert(sg_edges(g4).contains_key(w));
        assert(sg_edges(g0).contains_key(e) ==> sg_nodes(g0).contains_key(sg_edges(g0)[e].0));
        assert(sg_edges(g5).contains_key(w));
    }
    if exit is Some {
        let (x, l) = exit.unwrap();
        if x as nat != b as nat {
            let w = choose|w: nat| #[trigger] sg_edges(g4).contains_key(w) && sg_edges(g4)[w] == (v as nat, x as nat, l);
            assert(v != b) by {
                assert(sg_nodes(g0).contains_key(b as nat));
            }
            assert(sg_edges(g5).contains_key(w));
        }
    }
    assert forall|e: nat| #[trigger] sg_edges(g5).contains_key(e) implies {
        ||| sg_edges(g0).contains_key(e) && sg_edges(g5)[e] == sg_edges(g0)[e] && sg_edges(g0)[e].0 != b && sg_edges(g0)[e].1 != b
        ||| sg_edges(g5)[e].1 == v && sg_edges(g5)[e].0 != b && exists|y: nat|
            #[trigger] sg_edges(g0).contains_key(y) && sg_edges(g0)[y].1 == b && sg_edges(g0)[y].0 == sg_edges(g5)[e].0
                && sg_edges(g0)[y].2 == sg_edges(g5)[e].2
        ||| exit matches Some((x, l)) && sg_edges(g5)[e] == (v as nat, x as nat, l)
    } by {
        assert(sg_edges(g4).contains_key(e));
        if sg_edges(g2).contains_key(e) && sg_edges(g4)[e] == sg_edges(g2)[e] {
            if !(sg_edges(g1).contains_key(e) && !m.contains(e)) {
                let y = choose|y: nat| #[trigger] m.contains(y) && (sg_edges(g2)[e].0, sg_edges(g2)[e].1)
                    == crate::cfg_structuring::region::moved_ends(g1, y, v, Direction::Incoming) && sg_edges(g2)[e].2 == sg_edges(g1)[y].2;
                assert(sg_edges(g0).contains_key(y));
            }
        }
    }
}

} // verus!
