use vstd::prelude::*;

use crate::cfg_recovery::cfg::EdgeLabel;
use crate::graph::{
    forward, lemma_reached_is_node, node_of_key, node_set, reachable_from, reaches, sg_add_edge, sg_dfs, sg_edges,
    sg_keep_nodes, sg_nodes, sg_wf, unique_keys, IndexedGraph, IndexedGraphView,
    IndexedGraphViewMut, Sg,
};
use crate::llir::{Block, BlockArena, BlockId, Function, Instruction, Terminator};

verus! {

/// The interprocedural control-flow graph of a lifted program: every block, and the edges
/// between them, keyed by block id.
pub struct Icfg {
    blocks: BlockArena,
    inner: IndexedGraph,
}

impl IndexedGraphView for Icfg {
    closed spec fn inner_spec(&self) -> IndexedGraph {
        self.inner
    }

    fn inner(&self) -> (res: &IndexedGraph) {
        &self.inner
    }
}

impl IndexedGraphViewMut for Icfg {
    fn inner_mut(&mut self) -> (res: &mut IndexedGraph) {
        &mut self.inner
    }
}

/// The graph restricted to the nodes in `keep`, with the edges between them.
pub open spec fn restricted_nodes(g: Sg, keep: Set<nat>) -> Map<nat, usize> {
    sg_nodes(g).restrict(keep)
}

pub open spec fn restricted_edges(g: Sg, keep: Set<nat>) -> Map<nat, (nat, nat, EdgeLabel)> {
    sg_edges(g).restrict(
        sg_edges(g).dom().filter(|e: nat| keep.contains(sg_edges(g)[e].0) && keep.contains(sg_edges(g)[e].1)),
    )
}

/// The subgraph of `graph` on the nodes that `start` reaches, under the same indices.
pub(crate) fn reachable_subgraph(graph: &Sg, start: usize) -> (res: Sg)
    requires
        sg_wf(*graph),
        sg_nodes(*graph).contains_key(start as nat),
    ensures
        sg_wf(res),
        sg_nodes(res) == restricted_nodes(*graph, reachable_from(*graph, start as nat)),
        sg_edges(res) == restricted_edges(*graph, reachable_from(*graph, start as nat)),
{
    let order = sg_dfs(graph, start);
    proof {
        assert forall|j: int| 0 <= j < order@.len() implies #[trigger] order@[j] < u32::MAX by {
            assert(order@.contains(order@[j]));
            lemma_reached_is_node(node_set(*graph), forward(*graph), start as nat, order@[j] as nat);
        }
    }
    let mut max: usize = start;
    let mut i: usize = 0;
    while i < order.len()
        invariant
            0 <= i <= order@.len(),
            max < u32::MAX,
            forall|j: int| 0 <= j < order@.len() ==> #[trigger] order@[j] < u32::MAX,
            forall|j: int| 0 <= j < i ==> #[trigger] order@[j] <= max,
        decreases order@.len() - i,
    {
        if order[i] > max {
            max = order[i];
        }
        i = i + 1;
    }
    let mut keep: Vec<bool> = Vec::new();
    let mut k: usize = 0;
    while k <= max
        invariant
            0 <= k <= max + 1,
            max < u32::MAX,
            keep@.len() == k,
            forall|j: int| 0 <= j < k ==> !#[trigger] keep@[j],
        decreases max + 1 - k,
    {
        keep.push(false);
        k = k + 1;
    }
    let mut i: usize = 0;
    while i < order.len()
        invariant
            0 <= i <= order@.len(),
            keep@.len() == max + 1,
            forall|j: int| 0 <= j < order@.len() ==> #[trigger] order@[j] <= max,
            forall|x: int| 0 <= x < keep@.len() ==> (#[trigger] keep@[x] <==> exists|j: int| 0 <= j < i && order@[j] == x),
        decreases order@.len() - i,
    {
        let n = order[i];
        keep.set(n, true);
        proof {
            assert forall|x: int| 0 <= x < keep@.len() implies (#[trigger] keep@[x] <==> exists|j: int| 0 <= j < i + 1 && order@[j] == x) by {
                if x == n {
                    assert(order@[i as int] == x);
                }
            }
        }
        i = i + 1;
    }
    let res = sg_keep_nodes(graph, &keep);
    proof {
        let r = reachable_from(*graph, start as nat);
        let f = sg_nodes(*graph).dom().filter(|n: nat| n < keep@.len() && keep@[n as int]);
        assert forall|n: nat| #[trigger] sg_nodes(*graph).contains_key(n) implies (f.contains(n) <==> r.contains(n)) by {
            if r.contains(n) {
                assert(n < u32::MAX);
                assert(order@.contains(n as usize));
                let j = choose|j: int| 0 <= j < order@.len() && order@[j] == n as usize;
                assert(keep@[n as int]);
            }
            if f.contains(n) {
                let j = choose|j: int| 0 <= j < order@.len() && order@[j] == n;
                assert(order@.contains(order@[j]));
            }
        }
        assert(sg_nodes(*graph).dom().intersect(f) =~= sg_nodes(*graph).dom().intersect(r));
        assert(sg_nodes(res) =~= restricted_nodes(*graph, r));
        let ef = sg_edges(*graph).dom().filter(
            |e: nat|
                sg_edges(*graph)[e].0 < keep@.len() && keep@[sg_edges(*graph)[e].0 as int]
                    && sg_edges(*graph)[e].1 < keep@.len() && keep@[sg_edges(*graph)[e].1 as int],
        );
        let er = sg_edges(*graph).dom().filter(|e: nat| r.contains(sg_edges(*graph)[e].0) && r.contains(sg_edges(*graph)[e].1));
        assert forall|e: nat| #[trigger] sg_edges(*graph).contains_key(e) implies (ef.contains(e) <==> er.contains(e)) by {
            let a = sg_edges(*graph)[e].0;
            let b = sg_edges(*graph)[e].1;
            assert(sg_nodes(*graph).contains_key(a) && sg_nodes(*graph).contains_key(b));
            assert(f.contains(a) <==> r.contains(a));
            assert(f.contains(b) <==> r.contains(b));
        }
        assert(ef =~= er);
    }
    res
}

/// A walk from `start` to `n` along the edges of `g`.
pub open spec fn is_walk_witness(g: Sg, start: nat, n: nat, p: Seq<nat>) -> bool {
    crate::graph::is_walk(node_set(g), forward(g), p) && p[0] == start && p.last() == n
}

impl Icfg {
    pub closed spec fn blocks_spec(&self) -> Seq<Block> {
        self.blocks@
    }

    /// The arena and the graph are well formed, every block has a node keyed by its id, every
    /// node carries the id of a block, and each block's id is its position.
    pub closed spec fn wf(&self) -> bool {
        &&& self.blocks.wf()
        &&& self.inner.wf()
        &&& self.inner.nodes().dom().len() == self.blocks@.len()
        &&& forall|n: nat| #[trigger] self.inner.nodes().contains_key(n) ==> self.inner.nodes()[n] < self.blocks@.len()
        &&& forall|k: usize| k < self.blocks@.len() ==> #[trigger] node_of_key(self.inner.sg(), k).is_some()
        &&& forall|i: int| 0 <= i < self.blocks@.len() ==> (#[trigger] self.blocks@[i]).id_spec() == i
    }

    pub proof fn lemma_wf(&self)
        requires
            self.wf(),
        ensures
            self.inner_spec().wf(),
            forall|k: usize| k < self.blocks_spec().len() ==> #[trigger] node_of_key(self.inner_spec().sg(), k).is_some(),
            forall|i: int| 0 <= i < self.blocks_spec().len() ==> (#[trigger] self.blocks_spec()[i]).id_spec() == i,
            forall|n: nat| #[trigger] self.inner_spec().nodes().contains_key(n) ==> self.inner_spec().nodes()[n] < self.blocks_spec().len(),
    {
    }

    /// An empty graph.
    pub fn new() -> (res: Self)
        ensures
            res.wf(),
            res.blocks_spec().len() == 0,
            res.inner_spec().nodes().dom() == Set::<nat>::empty(),
            res.inner_spec().edges().dom() == Set::<nat>::empty(),
    {
        let res = Icfg { blocks: BlockArena::new(), inner: IndexedGraph::new() };
        proof {
            assert(res.inner.nodes().dom() =~= Set::<nat>::empty());
        }
        res
    }

    /// The graph over the blocks; each node carries the id of its block.
    pub fn graph(&self) -> (res: &Sg)
        ensures
            *res == self.inner_spec().sg(),
    {
        self.inner.graph()
    }

    pub fn block(&self, id: BlockId) -> (res: Option<&Block>)
        requires
            self.wf(),
        ensures
            res == (if id < self.blocks_spec().len() {
                Some(&self.blocks_spec()[id as int])
            } else {
                None
            }),
    {
        self.blocks.get(id)
    }

    /// The blocks, in the order of their ids.
    pub fn blocks(&self) -> (res: Vec<&Block>)
        requires
            self.wf(),
        ensures
            res@.len() == self.blocks_spec().len(),
            forall|i: int| 0 <= i < res@.len() ==> *res@[i] == #[trigger] self.blocks_spec()[i],
    {
        let mut res: Vec<&Block> = Vec::new();
        let n = self.blocks.len();
        let mut i: usize = 0;
        while i < n
            invariant
                self.blocks.wf(),
                n == self.blocks@.len(),
                0 <= i <= n,
                res@.len() == i,
                forall|j: int| 0 <= j < i ==> *res@[j] == #[trigger] self.blocks@[j],
            decreases n - i,
        {
            res.push(self.blocks.get(i).unwrap());
            i = i + 1;
        }
        res
    }

    /// Sets the label of block `id`; the block must exist.
    pub fn set_block_label(&mut self, id: BlockId, label: &str)
        requires
            old(self).wf(),
            id < old(self).blocks_spec().len(),
        ensures
            final(self).wf(),
            final(self).inner_spec() == old(self).inner_spec(),
            final(self).blocks_spec().len() == old(self).blocks_spec().len(),
            forall|i: int| 0 <= i < old(self).blocks_spec().len() && i != id ==> #[trigger] final(self).blocks_spec()[i] == old(self).blocks_spec()[i],
            final(self).blocks_spec()[id as int].label_spec() == Some(label@),
            final(self).blocks_spec()[id as int].id_spec() == old(self).blocks_spec()[id as int].id_spec(),
            final(self).blocks_spec()[id as int].start_spec() == old(self).blocks_spec()[id as int].start_spec(),
            final(self).blocks_spec()[id as int].end_spec() == old(self).blocks_spec()[id as int].end_spec(),
            final(self).blocks_spec()[id as int].instructions_spec() == old(self).blocks_spec()[id as int].instructions_spec(),
            final(self).blocks_spec()[id as int].terminator_spec() == old(self).blocks_spec()[id as int].terminator_spec(),
            final(self).blocks_spec()[id as int].phis_spec() == old(self).blocks_spec()[id as int].phis_spec(),
    {
        let b = self.blocks.get_mut(id);
        b.set_label(label);
    }

    /// Adds a block of `insns` ended by `term` under the next id, with a node for it, and
    /// returns that node.
    pub fn add_block(&mut self, insns: Vec<Instruction>, term: Terminator) -> (res: usize)
        requires
            old(self).wf(),
            old(self).blocks_spec().len() < u32::MAX - 1,
        ensures
            final(self).wf(),
            final(self).blocks_spec().len() == old(self).blocks_spec().len() + 1,
            final(self).blocks_spec().drop_last() == old(self).blocks_spec(),
            final(self).blocks_spec().last().label_spec() is None,
            final(self).blocks_spec().last().instructions_spec() == insns@,
            final(self).blocks_spec().last().terminator_spec() == term,
            final(self).blocks_spec().last().start_spec() == (if insns@.len() > 0 {
                insns@[0].addr
            } else {
                term.addr
            }),
            final(self).blocks_spec().last().phis_spec().len() == 0,
            !old(self).inner_spec().nodes().contains_key(res as nat),
            final(self).inner_spec().nodes() == old(self).inner_spec().nodes().insert(
                res as nat,
                old(self).blocks_spec().len() as usize,
            ),
            final(self).inner_spec().edges() == old(self).inner_spec().edges(),
    {
        let id = self.blocks.len();
        proof {
            if node_of_key(self.inner.sg(), id).is_some() {
                let n = choose|n: nat| sg_nodes(self.inner.sg()).contains_key(n) && #[trigger] sg_nodes(self.inner.sg())[n] == id;
                assert(self.inner.nodes().contains_key(n));
            }
        }
        let block = Block::new(id, None, insns, term);
        self.blocks.allocate(block);
        let node = self.inner.add_node(id);
        proof {
            let g = self.inner.sg();
            let og = old(self).inner.sg();
            old(self).inner.lemma_wf();
            assert(self.inner.nodes().dom() =~= old(self).inner.nodes().dom().insert(node as nat));
            assert forall|i: usize| i < self.blocks@.len() implies #[trigger] node_of_key(g, i).is_some() by {
                if i < id {
                    assert(node_of_key(og, i).is_some());
                    let n = choose|n: nat| sg_nodes(og).contains_key(n) && #[trigger] sg_nodes(og)[n] == i;
                    assert(sg_nodes(g).contains_key(n) && sg_nodes(g)[n] == i);
                } else {
                    assert(sg_nodes(g).contains_key(node as nat) && sg_nodes(g)[node as nat] == i);
                }
            }
            assert forall|i: int| 0 <= i < self.blocks@.len() implies (#[trigger] self.blocks@[i]).id_spec() == i by {
                if i < id {
                    assert(self.blocks@[i] == old(self).blocks@[i]);
                }
            }
            assert(self.blocks@.drop_last() =~= old(self).blocks@);
        }
        node
    }

    /// Adds an edge from node `a` to node `b`.
    pub fn add_edge(&mut self, a: usize, b: usize, label: EdgeLabel) -> (res: usize)
        requires
            old(self).wf(),
            old(self).inner_spec().nodes().contains_key(a as nat),
            old(self).inner_spec().nodes().contains_key(b as nat),
            old(self).inner_spec().edges().dom().len() < u32::MAX - 1,
        ensures
            final(self).wf(),
            final(self).blocks_spec() == old(self).blocks_spec(),
            final(self).inner_spec().nodes() == old(self).inner_spec().nodes(),
            !old(self).inner_spec().edges().contains_key(res as nat),
            final(self).inner_spec().edges() == old(self).inner_spec().edges().insert(res as nat, (a as nat, b as nat, label)),
    {
        let e = self.inner.add_edge(a, b, label);
        proof {
            assert forall|k: usize| #[trigger] node_of_key(self.inner.sg(), k) == node_of_key(old(self).inner.sg(), k) by {
            }
        }
        e
    }

    /// The function whose entry is the first block, in the order of ids, labelled `label`;
    /// `None` where no block carries that label.
    pub fn extract_function_by_label(self, label: &str) -> (res: Option<Function>)
        requires
            self.wf(),
        ensures
            res.is_some() <==> exists|i: int| 0 <= i < self.blocks_spec().len()
                && #[trigger] self.blocks_spec()[i].label_spec() == Some(label@),
            res matches Some(f) ==> exists|i: int|
                0 <= i < self.blocks_spec().len() && #[trigger] self.blocks_spec()[i].label_spec() == Some(label@)
                && (forall|j: int| 0 <= j < i ==> self.blocks_spec()[j].label_spec() != Some(label@))
                && self.is_extraction(i as usize, f),
    {
        let wanted = String::from_str(label);
        let mut found: Option<usize> = None;
        let mut i: usize = 0;
        let n = self.blocks.len();
        while i < n
            invariant
                self.wf(),
                n == self.blocks_spec().len(),
                0 <= i <= n,
                wanted@ == label@,
                found is Some ==> i == n,
                found is None ==> forall|j: int| 0 <= j < i ==> self.blocks_spec()[j].label_spec() != Some(label@),
                found matches Some(id) ==> id < n && self.blocks_spec()[id as int].label_spec() == Some(label@)
                    && forall|j: int| 0 <= j < id ==> self.blocks_spec()[j].label_spec() != Some(label@),
            decreases n - i,
        {
            let b = self.blocks.get(i).unwrap();
            let hit = match b.label() {
                Some(l) => {
                    let l = String::from_str(l);
                    l == wanted
                },
                None => false,
            };
            if hit {
                assert(self.blocks_spec()[i as int].label_spec() == Some(label@));
                found = Some(i);
                i = n;
            } else {
                i = i + 1;
            }
        }
        match found {
            Some(id) => self.extract_function(id),
            None => None,
        }
    }

    /// `f` is the function that extraction from block `id` gives: named by the block's label
    /// (`entry` where it has none), with every block, the subgraph that the block's node
    /// reaches, and that node as entry.
    pub open spec fn is_extraction(&self, id: usize, f: Function) -> bool {
        let g = self.inner_spec().sg();
        let entry = node_of_key(g, id).unwrap();
        &&& f.wf()
        &&& f.name_spec() == (match self.blocks_spec()[id as int].label_spec() {
            Some(l) => l,
            None => "entry"@,
        })
        &&& f.blocks_spec() == self.blocks_spec()
        &&& f.entry_spec() as nat == entry
        &&& f.cfg_spec().nodes() == restricted_nodes(g, reachable_from(g, entry))
        &&& f.cfg_spec().edges() == restricted_edges(g, reachable_from(g, entry))
        &&& f.keys_in_arena()
        &&& f.blocks_indexed()
    }

    /// The function whose entry is block `id`: its blocks and the part of the graph that the
    /// entry reaches; `None` where there is no such block.
    pub fn extract_function(self, id: BlockId) -> (res: Option<Function>)
        requires
            self.wf(),
        ensures
            res.is_some() <==> id < self.blocks_spec().len(),
            res matches Some(f) ==> self.is_extraction(id, f),
    {
        let ghost old_self = self;
        let name = match self.blocks.get(id) {
            None => {
                return None;
            },
            Some(b) => match b.label() {
                Some(l) => String::from_str(l),
                None => String::from_str("entry"),
            },
        };
        proof {
            reveal_strlit("entry");
            self.inner.lemma_wf();
        }
        let entry_node = match self.inner.node_for_key(id) {
            Some(n) => n,
            None => {
                return None;
            },
        };
        let func_graph = reachable_subgraph(self.inner.graph(), entry_node);
        proof {
            let g = self.inner.sg();
            assert forall|a: nat, b: nat|
                #![trigger sg_nodes(func_graph)[a], sg_nodes(func_graph)[b]]
                sg_nodes(func_graph).contains_key(a) && sg_nodes(func_graph).contains_key(b)
                    && sg_nodes(func_graph)[a] == sg_nodes(func_graph)[b] implies a == b by {
                assert(sg_nodes(g)[a] == sg_nodes(g)[b]);
            }
        }
        let cfg = IndexedGraph::from_graph(func_graph);
        proof {
            let g = self.inner.sg();
            let r = reachable_from(g, entry_node as nat);
            // The entry reaches itself.
            assert(is_walk_witness(g, entry_node as nat, entry_node as nat, seq![entry_node as nat]));
            assert(crate::graph::is_walk(node_set(g), forward(g), seq![entry_node as nat]));
            assert(r.contains(entry_node as nat));
            assert(sg_nodes(func_graph).contains_key(entry_node as nat));
            assert(sg_nodes(func_graph)[entry_node as nat] == id);
        }
        let f = Function::new(name, id, self.blocks, cfg);
        proof {
            let g = old_self.inner.sg();
            let c = cfg.sg();
            let n = choose|n: nat| sg_nodes(c).contains_key(n) && #[trigger] sg_nodes(c)[n] == id;
            assert(n == entry_node as nat) by {
                assert(sg_nodes(c)[entry_node as nat] == id);
            }
            assert forall|m: nat| #[trigger] f.cfg_spec().nodes().contains_key(m) implies f.cfg_spec().nodes()[m] < f.blocks_spec().len() by {
                assert(sg_nodes(g).contains_key(m));
            }
        }
        Some(f)
    }
}

} // verus!
