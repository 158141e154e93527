use vstd::prelude::*;

use std::collections::HashMap;

use id_arena::{Arena, DefaultArenaBehavior, Id};

use crate::cfg_recovery::cfg::{Condition, EdgeLabel};
use crate::cfg_structuring::cycle::{LoopKind, StructuredLoop};
use crate::graph::{
    chain_reaches_root, edges_at, forward, backward, is_dominator_tree, neighbor_set, neighbors_directed,
    node_of_key, node_set, sg_edges, sg_externals, sg_immediate_dominators,
    sg_immediate_post_dominators, sg_nodes, sg_wf, Direction, GraphError, IndexedGraph,
    IndexedGraphView, IndexedGraphViewMut, Sg,
};
use crate::llir::BlockId;

verus! {

broadcast use vstd::std_specs::hash::group_hash_axioms, vstd::seq_lib::group_seq_properties;

/// Identifier of a region: its index in the region store.
pub type RegionId = usize;

/// A region of a structured control-flow graph: a block, or a structure over other regions.
#[derive(Debug)]
pub enum Region {
    Leaf(BlockId),
    Sequence(Vec<RegionId>),
    If {
        head: RegionId,
        then_br: Vec<RegionId>,
        else_br: Option<Vec<RegionId>>,
        join: RegionId,
        cond: Option<Condition>,
    },
    Loop { kind: LoopKind, meta: StructuredLoop, body: RegionId },
    VirtualExit,
}

/// Why structuring stopped.
#[derive(Debug, Clone, Copy, PartialEq, Eq, Structural)]
pub enum StructureError {
    /// The graph has no node without outgoing edges.
    NoExit,
    /// The graph has no node without incoming edges.
    NoEntry,
    /// A node that structuring expected is missing.
    MissingNode,
    /// No pattern applies to the body of the loop with this index.
    LoopBodyIrreducible { index: usize },
    /// The entry of a loop body still has incoming edges.
    LoopBodyEntry,
    /// A reduction left the graph as large as it was.
    NoProgress,
    /// The graph has grown too large to index.
    TooLarge,
    /// An edge that structuring expected is missing.
    MissingEdge,
    /// An edge label carries a condition whose operator cannot be negated.
    UnreadableLabel,
}

/// An `id_arena::Arena` of Region.
pub type RegionArenaInner = Arena<Region, DefaultArenaBehavior<Region>>;

/// The items of an arena of Region, in allocation order.
pub uninterp spec fn region_arena_items(a: RegionArenaInner) -> Seq<Region>;

/// The number that tells an arena of Region apart from the others.
pub uninterp spec fn region_arena_tag(a: RegionArenaInner) -> u32;

/// The position that an id of an arena of Region names.
pub uninterp spec fn region_id_index(id: Id<Region>) -> usize;

/// The arena that an id of Region belongs to.
pub uninterp spec fn region_id_tag(id: Id<Region>) -> u32;

/// `Arena::new`: an empty arena.
#[verifier::external_body]
fn region_arena_new() -> (res: RegionArenaInner)
    ensures
        region_arena_items(res).len() == 0,
{
    Arena::new()
}

/// `Arena::alloc`: appends `item` and returns its id, the arena's tag with the item's position.
#[verifier::external_body]
fn region_arena_alloc(a: &mut RegionArenaInner, item: Region) -> (res: Id<Region>)
    ensures
        region_arena_items(*final(a)) == region_arena_items(*old(a)).push(item),
        region_arena_tag(*final(a)) == region_arena_tag(*old(a)),
        region_id_index(res) == region_arena_items(*old(a)).len(),
        region_id_tag(res) == region_arena_tag(*old(a)),
{
    a.alloc(item)
}

/// `Arena::get`: the item that an id of this arena names.
#[verifier::external_body]
fn region_arena_get(a: &RegionArenaInner, id: Id<Region>) -> (res: Option<&Region>)
    ensures
        res == (if region_id_tag(id) == region_arena_tag(*a) && region_id_index(id) < region_arena_items(*a).len() {
            Some(&region_arena_items(*a)[region_id_index(id) as int])
        } else {
            None
        }),
{
    a.get(id)
}

/// Storage of Region that allocation numbers from zero, backed by an `id_arena::Arena`.
pub struct RegionStore {
    arena: RegionArenaInner,
    ids: Vec<Id<Region>>,
}

impl View for RegionStore {
    type V = Seq<Region>;

    closed spec fn view(&self) -> Seq<Region> {
        region_arena_items(self.arena)
    }
}

impl RegionStore {
    pub closed spec fn wf(&self) -> bool {
        &&& self.ids@.len() == region_arena_items(self.arena).len()
        &&& forall|i: int| 0 <= i < self.ids@.len() ==> region_id_index(#[trigger] self.ids@[i]) == i
            && region_id_tag(self.ids@[i]) == region_arena_tag(self.arena)
    }

    pub fn new() -> (res: Self)
        ensures
            res.wf(),
            res@.len() == 0,
    {
        RegionStore { arena: region_arena_new(), ids: Vec::new() }
    }

    /// A store holds no more regions than a `usize` counts.
    pub proof fn lemma_len_fits(&self)
        requires
            self.wf(),
        ensures
            self@.len() <= usize::MAX,
    {
        assert(self.ids.len() == self.ids@.len());
    }

    pub fn len(&self) -> (res: usize)
        requires
            self.wf(),
        ensures
            res == self@.len(),
    {
        self.ids.len()
    }

    /// Stores `item` under the next position, which it returns.
    pub fn allocate(&mut self, item: Region) -> (res: usize)
        requires
            old(self).wf(),
        ensures
            final(self).wf(),
            res == old(self)@.len(),
            final(self)@ == old(self)@.push(item),
    {
        let i = self.ids.len();
        let id = region_arena_alloc(&mut self.arena, item);
        self.ids.push(id);
        proof {
            assert forall|k: int| 0 <= k < self.ids@.len() implies region_id_index(#[trigger] self.ids@[k]) == k
                && region_id_tag(self.ids@[k]) == region_arena_tag(self.arena) by {
                if k < i {
                    assert(self.ids@[k] == old(self).ids@[k]);
                }
            }
        }
        i
    }

    pub fn get(&self, i: usize) -> (res: Option<&Region>)
        requires
            self.wf(),
        ensures
            res == (if i < self@.len() {
                Some(&self@[i as int])
            } else {
                None
            }),
    {
        if i < self.ids.len() {
            region_arena_get(&self.arena, self.ids[i])
        } else {
            None
        }
    }
}

/// A strictly ascending list of members of a finite set is no longer than the set.
pub proof fn lemma_ascending_len(s: Seq<usize>, dom: Set<nat>)
    requires
        dom.finite(),
        crate::graph::strictly_ascending(s),
        forall|j: int| 0 <= j < s.len() ==> dom.contains(#[trigger] s[j] as nat),
    ensures
        s.len() <= dom.len(),
{
    let m = s.map_values(|x: usize| x as nat);
    assert(m.no_duplicates()) by {
        assert forall|i: int, j: int| 0 <= i < m.len() && 0 <= j < m.len() && i != j implies m[i] != m[j] by {
            if i < j {
                assert(s[i] < s[j]);
            } else {
                assert(s[j] < s[i]);
            }
        }
    }
    m.unique_seq_to_set();
    assert(m.to_set().subset_of(dom)) by {
        assert forall|x: nat| m.to_set().contains(x) implies dom.contains(x) by {
            let j = choose|j: int| 0 <= j < m.len() && m[j] == x;
            assert(dom.contains(s[j] as nat));
        }
    }
    vstd::set_lib::lemma_len_subset(m.to_set(), dom);
}

/// Whether `v` holds `x`.
pub(crate) fn vec_contains(v: &Vec<usize>, x: usize) -> (res: bool)
    ensures
        res == v@.contains(x),
{
    let mut i: usize = 0;
    while i < v.len()
        invariant
            0 <= i <= v@.len(),
            forall|k: int| 0 <= k < i ==> v@[k] != x,
        decreases v@.len() - i,
    {
        if v[i] == x {
            return true;
        }
        i = i + 1;
    }
    false
}

/// The edges that redirecting moves: those at `target` in direction `dir` whose far end is not
/// excluded.
pub open spec fn moved_edges(g: Sg, target: usize, exclude: Seq<usize>, dir: Direction) -> Set<nat> {
    edges_at(g, target as nat, dir).filter(|e: nat| !exclude.contains(crate::graph::far_end(g, e, dir) as usize))
}

/// The ends that a moved edge `e` gets.
pub open spec fn moved_ends(g: Sg, e: nat, new_target: usize, dir: Direction) -> (nat, nat) {
    match dir {
        Direction::Incoming => (sg_edges(g)[e].0, new_target as nat),
        Direction::Outgoing => (new_target as nat, sg_edges(g)[e].1),
    }
}

/// `h` is `g` with the moved edges among `done` redirected.
pub open spec fn redirected_upto(
    g: Sg,
    h: Sg,
    target: usize,
    new_target: usize,
    exclude: Seq<usize>,
    dir: Direction,
    done: Seq<nat>,
) -> bool {
    let m = moved_edges(g, target, exclude, dir);
    &&& forall|e: nat| #[trigger] sg_edges(g).contains_key(e) && !(m.contains(e) && done.contains(e))
        ==> sg_edges(h).contains_key(e) && sg_edges(h)[e] == sg_edges(g)[e]
    &&& forall|e: nat| #[trigger] sg_edges(h).contains_key(e) ==> (sg_edges(g).contains_key(e) && !(m.contains(e)
        && done.contains(e))) || exists|x: nat|
        m.contains(x) && #[trigger] done.contains(x) && (sg_edges(h)[e].0, sg_edges(h)[e].1) == moved_ends(g, x, new_target, dir)
            && sg_edges(h)[e].2 == sg_edges(g)[x].2
    &&& forall|x: nat| m.contains(x) && #[trigger] done.contains(x) ==> crate::graph::has_edge(
        h,
        moved_ends(g, x, new_target, dir).0,
        moved_ends(g, x, new_target, dir).1,
    )
}

/// `h` is `g` with every moved edge redirected: the other edges stay as they are, every edge of
/// `h` is such an edge or carries the new ends and the label of a moved one, and the new ends of
/// every moved edge are linked.
pub open spec fn redirected(g: Sg, h: Sg, target: usize, new_target: usize, exclude: Seq<usize>, dir: Direction) -> bool {
    let m = moved_edges(g, target, exclude, dir);
    &&& forall|e: nat| #[trigger] sg_edges(g).contains_key(e) && !m.contains(e) ==> sg_edges(h).contains_key(e)
        && sg_edges(h)[e] == sg_edges(g)[e]
    &&& forall|e: nat| #[trigger] sg_edges(h).contains_key(e) ==> (sg_edges(g).contains_key(e) && !m.contains(e)) || exists|x: nat|
        #[trigger] m.contains(x) && (sg_edges(h)[e].0, sg_edges(h)[e].1) == moved_ends(g, x, new_target, dir) && sg_edges(h)[e].2
            == sg_edges(g)[x].2
    &&& forall|x: nat| #[trigger] m.contains(x) ==> crate::graph::has_edge(
        h,
        moved_ends(g, x, new_target, dir).0,
        moved_ends(g, x, new_target, dir).1,
    )
}

proof fn lemma_redirect_start(g: Sg, target: usize, new_target: usize, exclude: Seq<usize>, dir: Direction)
    ensures
        redirected_upto(g, g, target, new_target, exclude, dir, Seq::empty()),
{
}

/// An edge whose far end is excluded stays where it is.
proof fn lemma_redirect_step_kept(
    g: Sg,
    h: Sg,
    target: usize,
    new_target: usize,
    exclude: Seq<usize>,
    dir: Direction,
    done: Seq<nat>,
    e: nat,
)
    requires
        redirected_upto(g, h, target, new_target, exclude, dir, done),
        !moved_edges(g, target, exclude, dir).contains(e),
    ensures
        redirected_upto(g, h, target, new_target, exclude, dir, done.push(e)),
{
    let m = moved_edges(g, target, exclude, dir);
    let d2 = done.push(e);
    assert forall|x: nat| #[trigger] m.contains(x) ==> (d2.contains(x) <==> done.contains(x)) by {
        if m.contains(x) && d2.contains(x) && x != e {
            let k = choose|k: int| 0 <= k < d2.len() && d2[k] == x;
            assert(done[k] == x);
        }
        if done.contains(x) {
            let k = choose|k: int| 0 <= k < done.len() && done[k] == x;
            assert(d2[k] == x);
        }
    }
}

/// A moved edge whose new ends are already linked is dropped.
proof fn lemma_redirect_step_dropped(
    g: Sg,
    before: Sg,
    after: Sg,
    target: usize,
    new_target: usize,
    exclude: Seq<usize>,
    dir: Direction,
    done: Seq<nat>,
    e: nat,
)
    requires
        redirected_upto(g, before, target, new_target, exclude, dir, done),
        moved_edges(g, target, exclude, dir).contains(e),
        !done.contains(e),
        sg_edges(after) == sg_edges(before).remove(e),
        crate::graph::has_edge(after, moved_ends(g, e, new_target, dir).0, moved_ends(g, e, new_target, dir).1),
    ensures
        redirected_upto(g, after, target, new_target, exclude, dir, done.push(e)),
{
    let m = moved_edges(g, target, exclude, dir);
    let d2 = done.push(e);
    assert forall|x: nat| (#[trigger] d2.contains(x)) <==> (done.contains(x) || x == e) by {
        if d2.contains(x) && x != e {
            let k = choose|k: int| 0 <= k < d2.len() && d2[k] == x;
            if k < done.len() {
                assert(done[k] == x);
            } else {
                assert(x == e);
            }
        }
        if done.contains(x) {
            let k = choose|k: int| 0 <= k < done.len() && done[k] == x;
            assert(d2[k] == x);
        }
        if x == e {
            assert(d2[done.len() as int] == e);
        }
    }
    assert forall|x: nat| #[trigger] sg_edges(after).contains_key(x) implies (sg_edges(g).contains_key(x) && !(m.contains(x)
        && d2.contains(x))) || exists|y: nat|
        m.contains(y) && #[trigger] d2.contains(y) && (sg_edges(after)[x].0, sg_edges(after)[x].1) == moved_ends(g, y, new_target, dir)
            && sg_edges(after)[x].2 == sg_edges(g)[y].2 by {
        assert(sg_edges(before).contains_key(x));
        if !(sg_edges(g).contains_key(x) && !(m.contains(x) && done.contains(x))) {
            let y = choose|y: nat|
                m.contains(y) && #[trigger] done.contains(y) && (sg_edges(before)[x].0, sg_edges(before)[x].1) == moved_ends(g, y, new_target, dir)
                    && sg_edges(before)[x].2 == sg_edges(g)[y].2;
            assert(d2.contains(y));
        }
    }
    assert forall|x: nat| m.contains(x) && #[trigger] d2.contains(x) implies crate::graph::has_edge(
        after,
        moved_ends(g, x, new_target, dir).0,
        moved_ends(g, x, new_target, dir).1,
    ) by {
        if x != e {
            assert(done.contains(x));
            let p = moved_ends(g, x, new_target, dir);
            let w = choose|w: nat| #[trigger] sg_edges(before).contains_key(w) && sg_edges(before)[w].0 == p.0 && sg_edges(before)[w].1 == p.1;
            if w != e {
                assert(sg_edges(after).contains_key(w));
            } else {
                assert(sg_edges(before)[e] == sg_edges(g)[e]);
                assert(moved_ends(g, e, new_target, dir) == p);
            }
        }
    }
}

/// A moved edge whose new ends are not yet linked gets a new edge with its label.
proof fn lemma_redirect_step_added(
    g: Sg,
    before: Sg,
    mid: Sg,
    after: Sg,
    target: usize,
    new_target: usize,
    exclude: Seq<usize>,
    dir: Direction,
    done: Seq<nat>,
    e: nat,
    fresh: nat,
)
    requires
        redirected_upto(g, before, target, new_target, exclude, dir, done),
        moved_edges(g, target, exclude, dir).contains(e),
        !done.contains(e),
        sg_edges(mid) == sg_edges(before).remove(e),
        !sg_edges(mid).contains_key(fresh),
        sg_edges(after) == sg_edges(mid).insert(
            fresh,
            (moved_ends(g, e, new_target, dir).0, moved_ends(g, e, new_target, dir).1, sg_edges(g)[e].2),
        ),
    ensures
        redirected_upto(g, after, target, new_target, exclude, dir, done.push(e)),
{
    let m = moved_edges(g, target, exclude, dir);
    let d2 = done.push(e);
    assert forall|x: nat| (#[trigger] d2.contains(x)) <==> (done.contains(x) || x == e) by {
        if d2.contains(x) && x != e {
            let k = choose|k: int| 0 <= k < d2.len() && d2[k] == x;
            if k < done.len() {
                assert(done[k] == x);
            } else {
                assert(x == e);
            }
        }
        if done.contains(x) {
            let k = choose|k: int| 0 <= k < done.len() && done[k] == x;
            assert(d2[k] == x);
        }
        if x == e {
            assert(d2[done.len() as int] == e);
        }
    }
    assert forall|x: nat| #[trigger] sg_edges(after).contains_key(x) implies (sg_edges(g).contains_key(x) && !(m.contains(x)
        && d2.contains(x))) || exists|y: nat|
        m.contains(y) && #[trigger] d2.contains(y) && (sg_edges(after)[x].0, sg_edges(after)[x].1) == moved_ends(g, y, new_target, dir)
            && sg_edges(after)[x].2 == sg_edges(g)[y].2 by {
        if x == fresh {
            assert(d2.contains(e));
        } else {
            assert(sg_edges(before).contains_key(x));
            if !(sg_edges(g).contains_key(x) && !(m.contains(x) && done.contains(x))) {
                let y = choose|y: nat|
                    m.contains(y) && #[trigger] done.contains(y) && (sg_edges(before)[x].0, sg_edges(before)[x].1) == moved_ends(g, y, new_target, dir)
                        && sg_edges(before)[x].2 == sg_edges(g)[y].2;
                assert(d2.contains(y));
            }
        }
    }
    assert forall|x: nat| m.contains(x) && #[trigger] d2.contains(x) implies crate::graph::has_edge(
        after,
        moved_ends(g, x, new_target, dir).0,
        moved_ends(g, x, new_target, dir).1,
    ) by {
        if x == e {
            assert(sg_edges(after).contains_key(fresh));
        } else {
            assert(done.contains(x));
            let p = moved_ends(g, x, new_target, dir);
            let w = choose|w: nat| #[trigger] sg_edges(before).contains_key(w) && sg_edges(before)[w].0 == p.0 && sg_edges(before)[w].1 == p.1;
            if w != e {
                assert(sg_edges(mid).contains_key(w));
                assert(w != fresh);
                assert(sg_edges(after).contains_key(w));
            } else {
                assert(sg_edges(before)[e] == sg_edges(g)[e]);
                assert(sg_edges(after).contains_key(fresh));
            }
        }
    }
}

/// Once every edge at the target has been handled, the redirection is complete.
proof fn lemma_redirected_done(
    g: Sg,
    h: Sg,
    target: usize,
    new_target: usize,
    exclude: Seq<usize>,
    dir: Direction,
    list: Seq<usize>,
    done: Seq<nat>,
)
    requires
        redirected_upto(g, h, target, new_target, exclude, dir, done),
        done == list.map_values(|u: usize| u as nat),
        forall|e: usize| #[trigger] list.contains(e) <==> edges_at(g, target as nat, dir).contains(e as nat),
        sg_wf(g),
    ensures
        redirected(g, h, target, new_target, exclude, dir),
{
    let m = moved_edges(g, target, exclude, dir);
    assert forall|x: nat| #[trigger] m.contains(x) implies done.contains(x) by {
        assert(x < u32::MAX);
        assert(edges_at(g, target as nat, dir).contains((x as usize) as nat));
        assert(list.contains(x as usize));
        let k = choose|k: int| 0 <= k < list.len() && list[k] == x as usize;
        assert(done[k] == x);
    }
}

/// Node `x` of `g` has no incoming edge.
pub open spec fn is_source(g: Sg, x: nat) -> bool {
    sg_nodes(g).contains_key(x) && edges_at(g, x, Direction::Incoming).is_empty()
}

/// Node `x` of `g` has no outgoing edge.
pub open spec fn is_sink(g: Sg, x: nat) -> bool {
    sg_nodes(g).contains_key(x) && edges_at(g, x, Direction::Outgoing).is_empty()
}

pub open spec fn labels_ok(g: Sg) -> bool {
    forall|e: nat| #[trigger] sg_edges(g).contains_key(e) ==> label_ok(sg_edges(g)[e].2)
}

/// An unconditional edge's label is fine.
pub proof fn lemma_label_ok_unconditional()
    ensures
        label_ok(EdgeLabel::Unconditional),
{
}

pub open spec fn label_ok(l: EdgeLabel) -> bool {
    match l {
        EdgeLabel::TrueBranch(Some(c)) => crate::cfg_recovery::cfg::known_operator(c.op_view()) || c.op_view() == ">="@,
        EdgeLabel::FalseBranch(Some(c)) => crate::cfg_recovery::cfg::known_operator(c.op_view()),
        _ => true,
    }
}

/// Whether an edge label can be carried through structuring: its condition, where it has one,
/// can be read and negated.
pub(crate) fn label_readable(l: &EdgeLabel) -> (res: bool)
    ensures
        res == label_ok(*l),
{
    match l {
        EdgeLabel::TrueBranch(Some(c)) => c.operator_known() || c.operator_is(">="),
        EdgeLabel::FalseBranch(Some(c)) => c.operator_known(),
        _ => true,
    }
}

/// A control-flow graph over regions, with the virtual exit node that every exit leads to.
pub struct RegionCfg {
    inner: IndexedGraph,
    vexit: usize,
}

impl IndexedGraphView for RegionCfg {
    closed spec fn inner_spec(&self) -> IndexedGraph {
        self.inner
    }

    fn inner(&self) -> (res: &IndexedGraph) {
        &self.inner
    }
}

impl IndexedGraphViewMut for RegionCfg {
    fn inner_mut(&mut self) -> (res: &mut IndexedGraph) {
        &mut self.inner
    }
}

impl RegionCfg {
    pub closed spec fn vexit_spec(&self) -> usize {
        self.vexit
    }

    pub open spec fn sg(&self) -> Sg {
        self.inner_spec().sg()
    }

    pub open spec fn nodes(&self) -> Map<nat, usize> {
        self.inner_spec().nodes()
    }

    pub open spec fn edges(&self) -> Map<nat, (nat, nat, EdgeLabel)> {
        self.inner_spec().edges()
    }

    /// The keyed graph is well formed, its labels can be read, and every key names one of the
    /// first `n` regions.
    pub open spec fn wf(&self, n: nat) -> bool {
        &&& self.inner_spec().wf()
        &&& labels_ok(self.sg())
        &&& forall|x: nat| #[trigger] self.nodes().contains_key(x) ==> self.nodes()[x] < n
    }

    /// There is room for a few more nodes and edges.
    pub open spec fn room(&self) -> bool {
        self.nodes().dom().len() + self.edges().dom().len() < 0x1000_0000
    }

    /// An empty graph without a virtual exit yet.
    pub fn with_capacity(nodes: usize, edges: usize) -> (res: Self)
        ensures
            res.wf(0),
            res.nodes().dom() == Set::<nat>::empty(),
            res.edges().dom() == Set::<nat>::empty(),
            res.vexit_spec() == usize::MAX,
    {
        let inner = IndexedGraph::with_capacity(nodes, edges);
        proof {
            inner.lemma_wf();
        }
        RegionCfg { inner, vexit: usize::MAX }
    }

    pub fn graph(&self) -> (res: &Sg)
        ensures
            *res == self.sg(),
    {
        self.inner.graph()
    }

    pub fn vexit(&self) -> (res: usize)
        ensures
            res == self.vexit_spec(),
    {
        self.vexit
    }

    /// Stores `region` and adds a node for it; returns its id and node.
    pub(crate) fn add_region(&mut self, regions: &mut RegionStore, region: Region) -> (res: (RegionId, usize))
        requires
            old(self).wf(old(regions)@.len()),
            old(regions).wf(),
            old(self).nodes().dom().len() < u32::MAX - 1,
        ensures
            final(regions).wf(),
            final(regions)@ == old(regions)@.push(region),
            res.0 == old(regions)@.len(),
            final(self).wf(final(regions)@.len()),
            !old(self).nodes().contains_key(res.1 as nat),
            final(self).nodes() == old(self).nodes().insert(res.1 as nat, res.0),
            final(self).edges() == old(self).edges(),
            final(self).vexit_spec() == old(self).vexit_spec(),
    {
        let id = regions.allocate(region);
        proof {
            if node_of_key(self.inner.sg(), id).is_some() {
                let n = choose|n: nat| sg_nodes(self.inner.sg()).contains_key(n) && #[trigger] sg_nodes(self.inner.sg())[n] == id;
                assert(self.nodes().contains_key(n));
            }
        }
        let node = self.inner.add_node(id);
        (id, node)
    }

    /// Adds a node for region `id`, which has none yet.
    pub(crate) fn add_existing_region(&mut self, id: RegionId, Ghost(n): Ghost<nat>) -> (res: usize)
        requires
            old(self).wf(n),
            id < n,
            node_of_key(old(self).sg(), id).is_none(),
            old(self).nodes().dom().len() < u32::MAX - 1,
        ensures
            final(self).wf(n),
            !old(self).nodes().contains_key(res as nat),
            final(self).nodes() == old(self).nodes().insert(res as nat, id),
            final(self).edges() == old(self).edges(),
            final(self).vexit_spec() == old(self).vexit_spec(),
    {
        self.inner.add_node(id)
    }

    /// Adds a virtual exit node and an edge to it from every node without outgoing edges; fails
    /// where there is no such node.
    pub(crate) fn add_vexit(&mut self, regions: &mut RegionStore) -> (res: Result<usize, StructureError>)
        requires
            old(self).wf(old(regions)@.len()),
            old(regions).wf(),
            old(self).room(),
        ensures
            final(regions).wf(),
            final(self).wf(final(regions)@.len()),
            res is Err ==> *final(self) == *old(self),
            res is Err ==> final(regions)@ == old(regions)@,
            res is Err ==> forall|x: nat| #[trigger] old(self).nodes().contains_key(x) ==> !is_sink(old(self).sg(), x),
            match res {
                Err(err) => err == StructureError::NoExit,
                Ok(v) => {
                    &&& v == final(self).vexit_spec()
                    &&& exists|x: nat| #[trigger] is_sink(old(self).sg(), x)
                    &&& final(regions)@ == old(regions)@.push(Region::VirtualExit)
                    &&& !old(self).nodes().contains_key(v as nat)
                    &&& final(self).nodes() == old(self).nodes().insert(v as nat, old(regions)@.len() as usize)
                    &&& forall|e: nat| #[trigger] old(self).edges().contains_key(e) ==> final(self).edges().contains_key(e)
                        && final(self).edges()[e] == old(self).edges()[e]
                    &&& forall|e: nat| #[trigger] final(self).edges().contains_key(e) && !old(self).edges().contains_key(e)
                        ==> is_sink(old(self).sg(), final(self).edges()[e].0) && final(self).edges()[e].1 == v
                        && final(self).edges()[e].2 == EdgeLabel::Unconditional
                    &&& forall|x: nat| #[trigger] is_sink(old(self).sg(), x) ==> crate::graph::has_edge(final(self).sg(), x, v as nat)
                    &&& final(self).edges().dom().len() <= old(self).edges().dom().len() + old(self).nodes().dom().len()
                },
            },
    {
        proof {
            self.inner.lemma_wf();
        }
        let exits = sg_externals(self.inner.graph(), Direction::Outgoing);
        if exits.len() == 0 {
            proof {
                assert forall|x: nat| #[trigger] old(self).nodes().contains_key(x) implies !is_sink(old(self).sg(), x) by {
                    assert(x < u32::MAX);
                    if is_sink(old(self).sg(), x) {
                        assert(sg_nodes(old(self).sg()).contains_key((x as usize) as nat));
                        assert(exits@.contains(x as usize));
                        assert(exits@.len() > 0);
                    }
                }
            }
            return Err(StructureError::NoExit);
        }
        let ghost g0 = self.sg();
        let ghost n0 = self.nodes().dom().len();
        let ghost e0 = self.edges().dom().len();
        proof {
            assert(exits@.contains(exits@[0]));
            assert(is_sink(g0, exits@[0] as nat));
            assert forall|j: int| 0 <= j < exits@.len() implies sg_nodes(g0).dom().contains(#[trigger] exits@[j] as nat) by {
                assert(exits@.contains(exits@[j]));
            }
            lemma_ascending_len(exits@, sg_nodes(g0).dom());
        }
        let (rid, vexit) = self.add_region(regions, Region::VirtualExit);
        self.vexit = vexit;
        let mut i: usize = 0;
        while i < exits.len()
            invariant
                0 <= i <= exits@.len(),
                self.wf(regions@.len()),
                self.vexit == vexit,
                !sg_nodes(g0).contains_key(vexit as nat),
                self.nodes() == sg_nodes(g0).insert(vexit as nat, rid),
                rid == old(regions)@.len(),
                regions@ == old(regions)@.push(Region::VirtualExit),
                regions.wf(),
                sg_wf(g0),
                n0 == sg_nodes(g0).dom().len(),
                e0 == sg_edges(g0).dom().len(),
                n0 + e0 < 0x1000_0000,
                crate::graph::strictly_ascending(exits@),
                forall|n: usize| #[trigger] exits@.contains(n) <==> is_sink(g0, n as nat),
                forall|j: int| 0 <= j < exits@.len() ==> sg_nodes(g0).dom().contains(#[trigger] exits@[j] as nat),
                self.edges().dom().len() == e0 + i,
                forall|e: nat| #[trigger] sg_edges(g0).contains_key(e) ==> self.edges().contains_key(e) && self.edges()[e] == sg_edges(g0)[e],
                forall|e: nat| #[trigger] self.edges().contains_key(e) && !sg_edges(g0).contains_key(e)
                    ==> (exists|j: int| 0 <= j < i && exits@[j] as nat == self.edges()[e].0) && self.edges()[e].1 == vexit
                    && self.edges()[e].2 == EdgeLabel::Unconditional,
                forall|j: int| 0 <= j < i ==> crate::graph::has_edge(self.sg(), #[trigger] exits@[j] as nat, vexit as nat),
                exits@.len() <= n0,
            decreases exits@.len() - i,
        {
            proof {
                assert(exits@.contains(exits@[i as int]));
                lemma_ascending_len(exits@, sg_nodes(g0).dom());
                assert(sg_nodes(self.sg()).contains_key(exits@[i as int] as nat));
                self.inner.lemma_wf();
            }
            let x = exits[i];
            let ghost before = self.edges();
            let ghost before_sg = self.sg();
            let e_new = self.inner.add_edge(x, vexit, EdgeLabel::Unconditional);
            proof {
                assert forall|e: nat| #[trigger] self.edges().contains_key(e) && !sg_edges(g0).contains_key(e)
                    implies (exists|j: int| 0 <= j < i + 1 && exits@[j] as nat == self.edges()[e].0) && self.edges()[e].1 == vexit
                    && self.edges()[e].2 == EdgeLabel::Unconditional by {
                    if !before.contains_key(e) {
                        assert(exits@[i as int] as nat == self.edges()[e].0);
                    }
                }
                assert forall|j: int| 0 <= j < i + 1 implies crate::graph::has_edge(self.sg(), #[trigger] exits@[j] as nat, vexit as nat) by {
                    if j < i {
                        assert(crate::graph::has_edge(before_sg, exits@[j] as nat, vexit as nat));
                        let e = choose|e: nat| #[trigger] sg_edges(before_sg).contains_key(e) && sg_edges(before_sg)[e].0 == exits@[j] as nat
                            && sg_edges(before_sg)[e].1 == vexit as nat;
                        assert(sg_edges(self.sg()).contains_key(e));
                    } else {
                        assert(sg_edges(self.sg()).contains_key(e_new as nat));
                    }
                }
                assert(self.edges().dom() =~= before.dom().insert(e_new as nat));
            }
            i = i + 1;
        }
        proof {
            assert forall|e: nat| #[trigger] self.edges().contains_key(e) && !sg_edges(g0).contains_key(e)
                implies is_sink(g0, self.edges()[e].0) by {
                let j = choose|j: int| 0 <= j < exits@.len() && exits@[j] as nat == self.edges()[e].0;
                assert(exits@.contains(exits@[j]));
            }
            assert forall|x: nat| #[trigger] is_sink(g0, x) implies crate::graph::has_edge(self.sg(), x, vexit as nat) by {
                assert(x < u32::MAX);
                assert(exits@.contains(x as usize));
                let j = choose|j: int| 0 <= j < exits@.len() && exits@[j] == x as usize;
                assert(crate::graph::has_edge(self.sg(), exits@[j] as nat, vexit as nat));
            }
        }
        Ok(vexit)
    }

    /// Removes node `node` with its edges; fails where there is no such node.
    pub(crate) fn remove_node_by_index(&mut self, node: usize, Ghost(n): Ghost<nat>) -> (res: Result<(), StructureError>)
        requires
            old(self).wf(n),
        ensures
            final(self).wf(n),
            final(self).vexit_spec() == old(self).vexit_spec(),
            res is Ok <==> old(self).nodes().contains_key(node as nat),
            res is Err ==> res == Err::<(), StructureError>(StructureError::MissingNode) && *final(self) == *old(self),
            res is Ok ==> final(self).nodes() == old(self).nodes().remove(node as nat),
            res is Ok ==> final(self).edges() == old(self).edges().restrict(
                old(self).edges().dom().filter(|e: nat| old(self).edges()[e].0 != node && old(self).edges()[e].1 != node),
            ),
    {
        let key = match self.inner.key_for_node(node) {
            Some(k) => k,
            None => {
                return Err(StructureError::MissingNode);
            },
        };
        proof {
            self.inner.lemma_wf();
            let g = self.sg();
            assert(crate::graph::unique_keys(g));
            let c = choose|c: nat| sg_nodes(g).contains_key(c) && #[trigger] sg_nodes(g)[c] == key;
            assert(sg_nodes(g)[c] == sg_nodes(g)[node as nat]);
            assert(node_of_key(g, key) == Some(node as nat));
        }
        match self.inner.remove_node(key) {
            Ok(()) => {
                proof {
                    let g = self.sg();
                    assert forall|e: nat| #[trigger] sg_edges(g).contains_key(e) implies label_ok(sg_edges(g)[e].2) by {
                        assert(sg_edges(old(self).sg()).contains_key(e));
                    }
                    assert forall|x: nat| #[trigger] self.nodes().contains_key(x) implies self.nodes()[x] < n by {
                        assert(old(self).nodes().contains_key(x));
                    }
                }
                Ok(())
            },
            Err(_) => Err(StructureError::MissingNode),
        }
    }

    /// The first node, by index, without incoming edges.
    pub fn entry(&self) -> (res: Option<usize>)
        requires
            self.inner_spec().wf(),
        ensures
            res is None ==> forall|x: nat| #[trigger] self.nodes().contains_key(x) ==> !is_source(self.sg(), x),
            res matches Some(e) ==> is_source(self.sg(), e as nat) && forall|x: nat| x < e ==> !is_source(self.sg(), x),
    {
        proof {
            self.inner.lemma_wf();
        }
        let sources = sg_externals(self.inner.graph(), Direction::Incoming);
        if sources.len() == 0 {
            proof {
                assert forall|x: nat| #[trigger] self.nodes().contains_key(x) implies !is_source(self.sg(), x) by {
                    assert(x < u32::MAX);
                    if is_source(self.sg(), x) {
                        assert(sg_nodes(self.sg()).contains_key((x as usize) as nat));
                        assert(sources@.contains(x as usize));
                    }
                }
            }
            None
        } else {
            proof {
                assert(sources@.contains(sources@[0]));
                assert forall|x: nat| x < sources@[0] implies !is_source(self.sg(), x) by {
                    if is_source(self.sg(), x) {
                        assert(sources@.contains(x as usize));
                        let j = choose|j: int| 0 <= j < sources@.len() && sources@[j] == x as usize;
                        if j > 0 {
                            assert(sources@[0] < sources@[j]);
                        }
                    }
                }
            }
            Some(sources[0])
        }
    }

    /// The label of some edge from `from` to `to`; `None` where there is no such edge.
    pub fn edge_label(&self, from: usize, to: usize) -> (res: Option<&EdgeLabel>)
        requires
            self.inner_spec().wf(),
        ensures
            res is None <==> !crate::graph::has_edge(self.sg(), from as nat, to as nat),
            res matches Some(l) ==> exists|e: nat| #[trigger] self.edges().contains_key(e) && self.edges()[e] == (
                from as nat,
                to as nat,
                *l,
            ),
    {
        proof {
            self.inner.lemma_wf();
        }
        match crate::graph::find_edge(self.inner.graph(), from, to) {
            Some(e) => {
                let l = crate::graph::edge_weight(self.inner.graph(), e);
                proof {
                    assert(self.edges().contains_key(e as nat));
                }
                l
            },
            None => None,
        }
    }

    /// Removes some edge from `from` to `to` and returns its label; `None`, with the graph
    /// unchanged, where there is no such edge.
    pub(crate) fn remove_edge_label(&mut self, from: usize, to: usize, Ghost(n): Ghost<nat>) -> (res: Option<EdgeLabel>)
        requires
            old(self).wf(n),
        ensures
            final(self).wf(n),
            final(self).vexit_spec() == old(self).vexit_spec(),
            final(self).nodes() == old(self).nodes(),
            res is None <==> !crate::graph::has_edge(old(self).sg(), from as nat, to as nat),
            res is None ==> final(self).edges() == old(self).edges(),
            res matches Some(l) ==> exists|e: nat| #[trigger] old(self).edges().contains_key(e) && old(self).edges()[e] == (
                from as nat,
                to as nat,
                l,
            ) && final(self).edges() == old(self).edges().remove(e),
    {
        proof {
            self.inner.lemma_wf();
        }
        match crate::graph::find_edge(self.inner.graph(), from, to) {
            Some(e) => {
                let r = self.inner.remove_edge(e);
                proof {
                    let g = self.sg();
                    assert(old(self).edges().contains_key(e as nat));
                    assert forall|x: nat| #[trigger] sg_edges(g).contains_key(x) implies label_ok(sg_edges(g)[x].2) by {
                        assert(sg_edges(old(self).sg()).contains_key(x));
                    }
                    assert forall|x: nat| #[trigger] self.nodes().contains_key(x) implies self.nodes()[x] < n by {
                        assert(old(self).nodes().contains_key(x));
                    }
                }
                r
            },
            None => None,
        }
    }

    /// Adds an edge from `a` to `b`, both of which must exist.
    pub fn add_edge(&mut self, a: usize, b: usize, label: EdgeLabel, Ghost(n): Ghost<nat>) -> (res: usize)
        requires
            old(self).wf(n),
            old(self).nodes().contains_key(a as nat),
            old(self).nodes().contains_key(b as nat),
            old(self).edges().dom().len() < u32::MAX - 1,
            label_ok(label),
        ensures
            final(self).wf(n),
            final(self).vexit_spec() == old(self).vexit_spec(),
            final(self).nodes() == old(self).nodes(),
            !old(self).edges().contains_key(res as nat),
            final(self).edges() == old(self).edges().insert(res as nat, (a as nat, b as nat, label)),
    {
        let e = self.inner.add_edge(a, b, label);
        proof {
            let g = self.sg();
            assert forall|x: nat| #[trigger] sg_edges(g).contains_key(x) implies label_ok(sg_edges(g)[x].2) by {
                if x != e as nat {
                    assert(sg_edges(old(self).sg()).contains_key(x));
                }
            }
            assert forall|x: nat| #[trigger] self.nodes().contains_key(x) implies self.nodes()[x] < n by {
                assert(old(self).nodes().contains_key(x));
            }
        }
        e
    }

    /// Removes edge `e`, if it exists, and returns its label.
    pub(crate) fn inner_mut_remove_edge(&mut self, e: usize, Ghost(n): Ghost<nat>) -> (res: Option<EdgeLabel>)
        requires
            old(self).wf(n),
        ensures
            final(self).wf(n),
            final(self).vexit_spec() == old(self).vexit_spec(),
            final(self).nodes() == old(self).nodes(),
            res == (if old(self).edges().contains_key(e as nat) {
                Some(old(self).edges()[e as nat].2)
            } else {
                None
            }),
            final(self).edges() == old(self).edges().remove(e as nat),
    {
        let r = self.inner.remove_edge(e);
        proof {
            let g = self.sg();
            assert forall|x: nat| #[trigger] sg_edges(g).contains_key(x) implies label_ok(sg_edges(g)[x].2) by {
                assert(sg_edges(old(self).sg()).contains_key(x));
            }
            assert forall|x: nat| #[trigger] self.nodes().contains_key(x) implies self.nodes()[x] < n by {
                assert(old(self).nodes().contains_key(x));
            }
        }
        r
    }

    /// Moves every edge at `target` in direction `dir` whose far end is not in `exclude` over to
    /// `new_target`, keeping its label; where an edge between the same two nodes already
    /// exists the moved edge is dropped.
    pub(crate) fn redirect_edges_except(
        &mut self,
        target: usize,
        new_target: usize,
        exclude: &Vec<usize>,
        dir: Direction,
        Ghost(n): Ghost<nat>,
    )
        requires
            old(self).wf(n),
            old(self).room(),
            old(self).nodes().contains_key(new_target as nat),
        ensures
            redirected(old(self).sg(), final(self).sg(), target, new_target, exclude@, dir),
            final(self).wf(n),
            final(self).vexit_spec() == old(self).vexit_spec(),
            final(self).nodes() == old(self).nodes(),
            final(self).edges().dom().len() <= old(self).edges().dom().len(),
    {
        proof {
            self.inner.lemma_wf();
        }
        let ghost g0 = self.sg();
        let list = crate::graph::edges_directed(self.inner.graph(), target, dir);
        proof {
            crate::graph::lemma_edge_list_len(g0, target as nat, dir, list@);
        }
        let ghost mut done: Seq<nat> = Seq::empty();
        proof {
            lemma_redirect_start(g0, target, new_target, exclude@, dir);
            assert(list@.take(0).map_values(|u: usize| u as nat) =~= done);
        }
        let mut i: usize = 0;
        while i < list.len()
            invariant
                0 <= i <= list@.len(),
                sg_wf(g0),
                list@.no_duplicates(),
                forall|e: usize| #[trigger] list@.contains(e) <==> edges_at(g0, target as nat, dir).contains(e as nat),
                self.wf(n),
                self.vexit_spec() == old(self).vexit_spec(),
                g0 == old(self).sg(),
                forall|x: nat| #[trigger] sg_nodes(g0).contains_key(x) ==> sg_nodes(g0)[x] < n,
                sg_nodes(self.sg()) == sg_nodes(g0),
                sg_nodes(g0).contains_key(new_target as nat),
                sg_edges(self.sg()).dom().len() <= sg_edges(g0).dom().len(),
                sg_edges(g0).dom().len() < 0x1000_0000,
                done == list@.take(i as int).map_values(|u: usize| u as nat),
                redirected_upto(g0, self.sg(), target, new_target, exclude@, dir, done),
            decreases list@.len() - i,
        {
            let e = list[i];
            proof {
                assert(list@.contains(e));
                assert(!done.contains(e as nat)) by {
                    if done.contains(e as nat) {
                        let j = choose|j: int| 0 <= j < done.len() && done[j] == e as nat;
                        assert(list@[j] == list@[i as int]);
                    }
                }
                self.inner.lemma_wf();
            }
            let (a, b) = crate::graph::edge_endpoints(self.inner.graph(), e).unwrap();
            let other = match dir {
                Direction::Incoming => a,
                Direction::Outgoing => b,
            };
            let ghost before = self.sg();
            if !vec_contains(exclude, other) {
                let weight = self.inner.remove_edge(e).unwrap();
                let (src, dst) = match dir {
                    Direction::Incoming => (other, new_target),
                    Direction::Outgoing => (new_target, other),
                };
                proof {
                    self.inner.lemma_wf();
                    assert(sg_edges(self.sg()).dom() =~= sg_edges(before).dom().remove(e as nat));
                }
                if !crate::graph::contains_edge(self.inner.graph(), src, dst) {
                    let ghost mid = self.sg();
                    let fresh = self.inner.add_edge(src, dst, weight);
                    proof {
                        assert(sg_edges(self.sg()).dom() =~= sg_edges(mid).dom().insert(fresh as nat));
                        lemma_redirect_step_added(g0, before, mid, self.sg(), target, new_target, exclude@, dir, done, e as nat, fresh as nat);
                    }
                } else {
                    proof {
                        lemma_redirect_step_dropped(g0, before, self.sg(), target, new_target, exclude@, dir, done, e as nat);
                    }
                }
                proof {
                    let g = self.sg();
                    assert forall|x: nat| #[trigger] sg_edges(g).contains_key(x) implies label_ok(sg_edges(g)[x].2) by {
                        if sg_edges(before).contains_key(x) {
                        } else {
                            assert(sg_edges(g)[x].2 == sg_edges(before)[e as nat].2);
                        }
                    }
                }
            } else {
                proof {
                    lemma_redirect_step_kept(g0, before, target, new_target, exclude@, dir, done, e as nat);
                }
            }
            proof {
                assert forall|x: nat| #[trigger] self.nodes().contains_key(x) implies self.nodes()[x] < n by {
                    assert(sg_nodes(g0).contains_key(x));
                }
                assert(list@.take(i + 1).map_values(|u: usize| u as nat) =~= done.push(e as nat));
                done = done.push(e as nat);
            }
            i = i + 1;
        }
        proof {
            assert(list@.take(list@.len() as int) =~= list@);
            lemma_redirected_done(g0, self.sg(), target, new_target, exclude@, dir, list@, done);
        }
    }

    /// Moves every edge at `target` in direction `dir` over to `new_target`.
    pub(crate) fn redirect_edges(&mut self, target: usize, new_target: usize, dir: Direction, Ghost(n): Ghost<nat>)
        requires
            old(self).wf(n),
            old(self).room(),
            old(self).nodes().contains_key(new_target as nat),
        ensures
            redirected(old(self).sg(), final(self).sg(), target, new_target, Seq::empty(), dir),
            final(self).wf(n),
            final(self).vexit_spec() == old(self).vexit_spec(),
            final(self).nodes() == old(self).nodes(),
            final(self).edges().dom().len() <= old(self).edges().dom().len(),
    {
        let none: Vec<usize> = Vec::new();
        self.redirect_edges_except(target, new_target, &none, dir, Ghost(n));
    }

    /// Dominators from the entry and post-dominators from the virtual exit; `None` where the
    /// graph has no entry.
    pub fn compute_dominance(&self) -> (res: Option<RegionDominanceView<'_>>)
        requires
            self.inner_spec().wf(),
            self.nodes().contains_key(self.vexit_spec() as nat),
        ensures
            res is None <==> forall|x: nat| #[trigger] self.nodes().contains_key(x) ==> !is_source(self.sg(), x),
            res matches Some(d) ==> d.wf() && d.cfg_spec() == *self && d.vexit_spec() == self.vexit_spec()
                && is_source(self.sg(), d.root_spec() as nat)
                && forall|x: nat| x < d.root_spec() ==> !is_source(self.sg(), x),
    {
        match self.entry() {
            None => None,
            Some(entry) => Some(RegionDominanceView::compute(self, entry, self.vexit)),
        }
    }
}

/// `a` lies on the chain of immediate dominators that starts at `b`, within `k` steps.
pub open spec fn on_chain(idom: Map<usize, usize>, b: usize, a: usize, k: nat) -> bool
    decreases k,
{
    if b == a {
        true
    } else if k == 0 {
        false
    } else {
        idom.contains_key(b) && on_chain(idom, idom[b], a, (k - 1) as nat)
    }
}

/// `b` is reached from `root`, and `a` is on its chain of immediate dominators: petgraph's
/// `Dominators::dominators(b)` lists `a`.
pub open spec fn dominates_in(idom: Map<usize, usize>, root: usize, a: usize, b: usize, n: nat) -> bool {
    (b == root || idom.contains_key(b)) && on_chain(idom, b, a, n)
}

/// The dominator and post-dominator trees of a region graph.
pub struct RegionDominanceView<'a> {
    cfg: &'a RegionCfg,
    dom: HashMap<usize, usize>,
    pdom: HashMap<usize, usize>,
    root: usize,
    vexit: usize,
}

impl<'a> RegionDominanceView<'a> {
    pub closed spec fn cfg_spec(&self) -> RegionCfg {
        *self.cfg
    }

    pub closed spec fn dom_spec(&self) -> Map<usize, usize> {
        self.dom@
    }

    pub closed spec fn pdom_spec(&self) -> Map<usize, usize> {
        self.pdom@
    }

    pub closed spec fn root_spec(&self) -> usize {
        self.root
    }

    pub closed spec fn vexit_spec(&self) -> usize {
        self.vexit
    }

    /// `a` dominates `b` by the dominator tree.
    pub open spec fn dominates_spec(&self, a: usize, b: usize) -> bool {
        dominates_in(self.dom_spec(), self.root_spec(), a, b, self.cfg_spec().nodes().dom().len())
    }

    /// `a` post-dominates `b` by the post-dominator tree.
    pub open spec fn post_dominates_spec(&self, a: usize, b: usize) -> bool {
        dominates_in(self.pdom_spec(), self.vexit_spec(), a, b, self.cfg_spec().nodes().dom().len())
    }

    /// The trees are those of the graph: from the entry forwards, and from the virtual exit
    /// backwards.
    pub open spec fn wf(&self) -> bool {
        let g = self.cfg_spec().sg();
        &&& self.cfg_spec().inner_spec().wf()
        &&& sg_nodes(g).contains_key(self.root_spec() as nat)
        &&& sg_nodes(g).contains_key(self.vexit_spec() as nat)
        &&& is_dominator_tree(node_set(g), forward(g), self.root_spec(), self.dom_spec())
        &&& is_dominator_tree(node_set(g), backward(g), self.vexit_spec(), self.pdom_spec())
    }

    fn compute(cfg: &'a RegionCfg, entry: usize, vexit: usize) -> (res: Self)
        requires
            cfg.inner_spec().wf(),
            cfg.nodes().contains_key(entry as nat),
            cfg.nodes().contains_key(vexit as nat),
        ensures
            res.wf(),
            res.cfg_spec() == *cfg,
            res.root_spec() == entry,
            res.vexit_spec() == vexit,
    {
        proof {
            cfg.inner_spec().lemma_wf();
        }
        let dom = sg_immediate_dominators(cfg.graph(), entry);
        let pdom = sg_immediate_post_dominators(cfg.graph(), vexit);
        RegionDominanceView { cfg, dom, pdom, root: entry, vexit }
    }

    pub fn cfg(&self) -> (res: &'a RegionCfg)
        ensures
            *res == self.cfg_spec(),
    {
        self.cfg
    }

    /// The node the post-dominator tree is rooted at.
    pub fn vexit(&self) -> (res: usize)
        ensures
            res == self.vexit_spec(),
    {
        self.vexit
    }

    /// Whether `a` dominates `b`; false where `b` is not reached from the entry.
    pub fn dominates(&self, a: usize, b: usize) -> (res: bool)
        requires
            self.wf(),
        ensures
            res == self.dominates_spec(a, b),
    {
        chain_holds(&self.dom, self.root, a, b, Ghost(self.cfg_spec().nodes().dom().len()), Ghost(self.cfg_spec().sg()), Ghost(true))
    }

    /// Whether `a` post-dominates `b`; false where `b` does not reach the virtual exit.
    pub fn post_dominates(&self, a: usize, b: usize) -> (res: bool)
        requires
            self.wf(),
        ensures
            res == self.post_dominates_spec(a, b),
    {
        chain_holds(&self.pdom, self.vexit, a, b, Ghost(self.cfg_spec().nodes().dom().len()), Ghost(self.cfg_spec().sg()), Ghost(false))
    }

    pub fn immediate_post_dominator(&self, node: usize) -> (res: Option<usize>)
        ensures
            res == (if self.pdom_spec().contains_key(node) {
                Some(self.pdom_spec()[node])
            } else {
                None
            }),
    {
        match self.pdom.get(&node) {
            Some(p) => Some(*p),
            None => None,
        }
    }

    /// The predecessors of `node` that it dominates, once per edge.
    pub fn backedge_sources(&self, node: usize) -> (res: Vec<usize>)
        requires
            self.wf(),
        ensures
            forall|m: usize| #[trigger] res@.contains(m) <==> neighbor_set(self.cfg_spec().sg(), node as nat, Direction::Incoming).contains(m as nat)
                && self.dominates_spec(node, m),
    {
        proof {
            self.cfg_spec().inner_spec().lemma_wf();
        }
        let preds = neighbors_directed(self.cfg.graph(), node, Direction::Incoming);
        let mut res: Vec<usize> = Vec::new();
        let mut i: usize = 0;
        while i < preds.len()
            invariant
                self.wf(),
                0 <= i <= preds@.len(),
                forall|m: usize| #[trigger] preds@.contains(m) <==> neighbor_set(self.cfg_spec().sg(), node as nat, Direction::Incoming).contains(m as nat),
                forall|m: usize| #[trigger] res@.contains(m) <==> (exists|j: int| 0 <= j < i && preds@[j] == m) && self.dominates_spec(node, m),
            decreases preds@.len() - i,
        {
            let p = preds[i];
            if self.dominates(node, p) {
                res.push(p);
            }
            proof {
                assert forall|m: usize| #[trigger] res@.contains(m) <==> (exists|j: int| 0 <= j < i + 1 && preds@[j] == m) && self.dominates_spec(node, m) by {
                    if m == p {
                        assert(preds@[i as int] == m);
                    }
                }
            }
            i = i + 1;
        }
        proof {
            assert forall|m: usize| #[trigger] res@.contains(m) <==> neighbor_set(self.cfg_spec().sg(), node as nat, Direction::Incoming).contains(m as nat)
                && self.dominates_spec(node, m) by {
                if res@.contains(m) {
                    let j = choose|j: int| 0 <= j < preds@.len() && preds@[j] == m;
                    assert(preds@.contains(m));
                }
                if neighbor_set(self.cfg_spec().sg(), node as nat, Direction::Incoming).contains(m as nat) && self.dominates_spec(node, m) {
                    assert(preds@.contains(m));
                    let j = choose|j: int| 0 <= j < preds@.len() && preds@[j] == m;
                }
            }
        }
        res
    }

    /// The successors of `node` that dominate it, once per edge: the targets of its back edges.
    pub fn backedge_targets(&self, node: usize) -> (res: Vec<usize>)
        requires
            self.wf(),
        ensures
            forall|m: usize| #[trigger] res@.contains(m) <==> neighbor_set(self.cfg_spec().sg(), node as nat, Direction::Outgoing).contains(m as nat)
                && self.dominates_spec(m, node),
    {
        proof {
            self.cfg_spec().inner_spec().lemma_wf();
        }
        let succs = neighbors_directed(self.cfg.graph(), node, Direction::Outgoing);
        let mut res: Vec<usize> = Vec::new();
        let mut i: usize = 0;
        while i < succs.len()
            invariant
                self.wf(),
                0 <= i <= succs@.len(),
                forall|m: usize| #[trigger] succs@.contains(m) <==> neighbor_set(self.cfg_spec().sg(), node as nat, Direction::Outgoing).contains(m as nat),
                forall|m: usize| #[trigger] res@.contains(m) <==> (exists|j: int| 0 <= j < i && succs@[j] == m) && self.dominates_spec(m, node),
            decreases succs@.len() - i,
        {
            let s = succs[i];
            if self.dominates(s, node) {
                res.push(s);
            }
            proof {
                assert forall|m: usize| #[trigger] res@.contains(m) <==> (exists|j: int| 0 <= j < i + 1 && succs@[j] == m) && self.dominates_spec(m, node) by {
                    if m == s {
                        assert(succs@[i as int] == m);
                    }
                }
            }
            i = i + 1;
        }
        proof {
            assert forall|m: usize| #[trigger] res@.contains(m) <==> neighbor_set(self.cfg_spec().sg(), node as nat, Direction::Outgoing).contains(m as nat)
                && self.dominates_spec(m, node) by {
                if res@.contains(m) {
                    let j = choose|j: int| 0 <= j < succs@.len() && succs@[j] == m;
                    assert(succs@.contains(m));
                }
                if neighbor_set(self.cfg_spec().sg(), node as nat, Direction::Outgoing).contains(m as nat) && self.dominates_spec(m, node) {
                    assert(succs@.contains(m));
                    let j = choose|j: int| 0 <= j < succs@.len() && succs@[j] == m;
                }
            }
        }
        res
    }

    /// Whether `node`, other than the virtual exit, has a back edge.
    pub fn has_backedge(&self, node: usize) -> (res: bool)
        requires
            self.wf(),
        ensures
            res == (node != self.vexit_spec() && exists|m: usize|
                neighbor_set(self.cfg_spec().sg(), node as nat, Direction::Outgoing).contains(m as nat)
                    && #[trigger] self.dominates_spec(m, node)),
    {
        if node == self.vexit {
            return false;
        }
        let targets = self.backedge_targets(node);
        proof {
            if targets@.len() > 0 {
                assert(targets@.contains(targets@[0]));
            }
            if exists|m: usize| neighbor_set(self.cfg_spec().sg(), node as nat, Direction::Outgoing).contains(m as nat)
                && #[trigger] self.dominates_spec(m, node) {
                let m = choose|m: usize| neighbor_set(self.cfg_spec().sg(), node as nat, Direction::Outgoing).contains(m as nat)
                    && #[trigger] self.dominates_spec(m, node);
                assert(targets@.contains(m));
            }
        }
        targets.len() > 0
    }
}

/// Whether `a` lies on the chain of immediate dominators from `b`, where `b` is reached.
fn chain_holds(
    idom: &HashMap<usize, usize>,
    root: usize,
    a: usize,
    b: usize,
    Ghost(n): Ghost<nat>,
    Ghost(g): Ghost<Sg>,
    Ghost(fwd): Ghost<bool>,
) -> (res: bool)
    requires
        n == node_set(g).len(),
        is_dominator_tree(node_set(g), if fwd { forward(g) } else { backward(g) }, root, idom@),
    ensures
        res == dominates_in(idom@, root, a, b, n),
{
    if !(b == root || idom.contains_key(&b)) {
        return false;
    }
    let mut cur = b;
    let ghost mut k: nat = n;
    proof {
        assert(chain_reaches_root(idom@, root, b, n));
    }
    while cur != a
        invariant
            is_dominator_tree(node_set(g), if fwd { forward(g) } else { backward(g) }, root, idom@),
            chain_reaches_root(idom@, root, cur, k),
            on_chain(idom@, b, a, n) == on_chain(idom@, cur, a, k),
            b == root || idom@.contains_key(b),
        decreases k,
    {
        match idom.get(&cur) {
            None => {
                return false;
            },
            Some(p) => {
                assert(cur != root);
                assert(k > 0);
                cur = *p;
                proof {
                    k = (k - 1) as nat;
                }
            },
        }
    }
    true
}

} // verus!
