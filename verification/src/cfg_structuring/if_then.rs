use vstd::prelude::*;

use crate::cfg_recovery::cfg::{Condition, EdgeLabel};
use crate::cfg_structuring::region::{labels_ok, vec_contains, Region, RegionCfg, RegionDominanceView, RegionId, RegionStore};
use crate::cfg_structuring::seq::keys_of;
use crate::cfg_structuring::scope::{in_scope, is_in_scope, scope_view, scoped_neighbor_set, scoped_neighbors};
use crate::cfg_structuring::seq::lemma_distinct_len;
use crate::graph::{edges_at, is_walk, node_of_key, reaches, sg_edges, sg_nodes, sg_wf, Direction, IndexedGraphView, Sg};

verus! {

broadcast use vstd::seq_lib::group_seq_properties;

/// An if-then(-else) found in a region graph: its head, the regions of each branch, the join
/// where they meet, and the condition under which the then branch runs.
#[derive(Debug)]
pub struct IfSchema {
    pub head: RegionId,
    pub then_body: Vec<RegionId>,
    pub else_body: Option<Vec<RegionId>>,
    pub join: RegionId,
    pub cond: Option<Condition>,
}

impl IfSchema {
    /// The regions of the head, the branches and the join, in that order.
    pub open spec fn all_regions_spec(&self) -> Seq<RegionId> {
        seq![self.head] + self.then_body@ + match self.else_body {
            Some(e) => e@,
            None => Seq::empty(),
        } + seq![self.join]
    }

    pub fn all_regions(&self) -> (res: Vec<RegionId>)
        ensures
            res@ == self.all_regions_spec(),
    {
        let mut regions: Vec<RegionId> = Vec::new();
        regions.push(self.head);
        let mut i: usize = 0;
        while i < self.then_body.len()
            invariant
                0 <= i <= self.then_body@.len(),
                regions@ == seq![self.head] + self.then_body@.take(i as int),
            decreases self.then_body@.len() - i,
        {
            regions.push(self.then_body[i]);
            proof {
                assert(self.then_body@.take(i + 1) =~= self.then_body@.take(i as int).push(self.then_body@[i as int]));
            }
            i = i + 1;
        }
        proof {
            assert(self.then_body@.take(self.then_body@.len() as int) =~= self.then_body@);
        }
        let ghost mid = regions@;
        match &self.else_body {
            Some(else_nodes) => {
                let mut j: usize = 0;
                while j < else_nodes.len()
                    invariant
                        0 <= j <= else_nodes@.len(),
                        regions@ == mid + else_nodes@.take(j as int),
                    decreases else_nodes@.len() - j,
                {
                    regions.push(else_nodes[j]);
                    proof {
                        assert(else_nodes@.take(j + 1) =~= else_nodes@.take(j as int).push(else_nodes@[j as int]));
                    }
                    j = j + 1;
                }
                proof {
                    assert(else_nodes@.take(else_nodes@.len() as int) =~= else_nodes@);
                }
            },
            None => {
                proof {
                    assert(mid + Seq::<RegionId>::empty() =~= mid);
                }
            },
        }
        regions.push(self.join);
        proof {
            assert(regions@ =~= self.all_regions_spec());
        }
        regions
    }

    pub fn then_body_last(&self) -> (res: Option<RegionId>)
        ensures
            res == (if self.then_body@.len() > 0 {
                Some(self.then_body@.last())
            } else {
                None
            }),
    {
        if self.then_body.len() > 0 {
            Some(self.then_body[self.then_body.len() - 1])
        } else {
            None
        }
    }

    pub fn else_body_last(&self) -> (res: Option<RegionId>)
        ensures
            res == (match self.else_body {
                Some(e) => if e@.len() > 0 {
                    Some(e@.last())
                } else {
                    None
                },
                None => None,
            }),
    {
        match &self.else_body {
            Some(e) => if e.len() > 0 {
                Some(e[e.len() - 1])
            } else {
                None
            },
            None => None,
        }
    }

    /// The if region that the schema describes.
    pub fn into_region(self) -> (res: Region)
        ensures
            res matches Region::If { head, then_br, else_br, join, cond } && head == self.head && then_br == self.then_body
                && else_br == self.else_body && join == self.join && cond == self.cond,
    {
        Region::If {
            head: self.head,
            then_br: self.then_body,
            else_br: self.else_body,
            join: self.join,
            cond: self.cond,
        }
    }
}

/// One step along an edge whose far end counts in `scope`.
pub open spec fn scoped_step(g: Sg, scope: Option<Seq<RegionId>>) -> spec_fn(nat, nat) -> bool {
    |a: nat, b: nat| scoped_neighbor_set(g, a, Direction::Outgoing, scope).contains(b)
}

/// The nodes that may lie in a branch between `head` and `join`: nodes of the graph that count,
/// that `head` dominates and `join` post-dominates, other than `join`.
pub open spec fn between_set(d: RegionDominanceView, head: usize, join: usize, scope: Option<Seq<RegionId>>) -> Set<nat> {
    Set::new(
        |u: nat|
            sg_nodes(d.cfg_spec().sg()).contains_key(u) && in_scope(d.cfg_spec().sg(), u, scope) && d.dominates_spec(head, u as usize)
                && d.post_dominates_spec(join, u as usize) && u != join,
    )
}

/// The nodes of the branch that starts at `entry`: those that `entry` reaches through such
/// nodes.
pub open spec fn branch_nodes(d: RegionDominanceView, head: usize, entry: usize, join: usize, scope: Option<Seq<RegionId>>) -> Set<nat> {
    Set::new(
        |u: nat|
            reaches(between_set(d, head, join, scope), scoped_step(d.cfg_spec().sg(), scope), entry as nat, u),
    )
}

/// The nodes of the branch that starts at `entry`, in the order a breadth-first search from
/// `entry` meets them.
#[verifier::spinoff_prover]
#[verifier::rlimit(40)]
pub(crate) fn collect_nodes_between(
    cfg: &RegionCfg,
    dominance: &RegionDominanceView<'_>,
    head: usize,
    then_entry: usize,
    join: usize,
    scope: Option<&Vec<RegionId>>,
) -> (res: Vec<usize>)
    requires
        dominance.wf(),
        dominance.cfg_spec() == *cfg,
    ensures
        res@.no_duplicates(),
        forall|u: usize| #[trigger] res@.contains(u) <==> branch_nodes(*dominance, head, then_entry, join, scope_view(scope)).contains(u as nat),
{
    let ghost g = cfg.sg();
    let ghost sc = scope_view(scope);
    let ghost bs = between_set(*dominance, head, join, sc);
    let ghost step = scoped_step(g, sc);
    let ghost n = sg_nodes(g).dom().len();
    proof {
        cfg.inner_spec().lemma_wf();
    }
    let mut queue: Vec<usize> = Vec::new();
    queue.push(then_entry);
    let mut qi: usize = 0;
    let mut visited: Vec<usize> = Vec::new();
    proof {
        assert(queue@[0] == then_entry);
    }
    while qi < queue.len()
        invariant
            dominance.wf(),
            dominance.cfg_spec() == *cfg,
            g == cfg.sg(),
            sc == scope_view(scope),
            bs == between_set(*dominance, head, join, sc),
            step == scoped_step(g, sc),
            n == sg_nodes(g).dom().len(),
            crate::graph::sg_wf(g),
            0 <= qi <= queue@.len(),
            visited@.no_duplicates(),
            forall|k: int| 0 <= k < visited@.len() ==> bs.contains(#[trigger] visited@[k] as nat) && reaches(
                bs,
                step,
                then_entry as nat,
                visited@[k] as nat,
            ),
            forall|k: int| qi <= k < queue@.len() ==> #[trigger] queue@[k] == then_entry || exists|v: usize|
                visited@.contains(v) && step(v as nat, queue@[k] as nat),
            forall|v: usize, s: usize| #[trigger] visited@.contains(v) && #[trigger] step(v as nat, s as nat) ==> (visited@.contains(s)
                || !bs.contains(s as nat) || exists|k: int| qi <= k < queue@.len() && queue@[k] == s),
            visited@.contains(then_entry) || !bs.contains(then_entry as nat) || exists|k: int| qi <= k < queue@.len() && queue@[k] == then_entry,
        decreases n + 1 - visited@.len(), queue@.len() - qi,
    {
        let u = queue[qi];
        qi = qi + 1;
        let ghost popped = qi - 1;
        if vec_contains(&visited, u) || u == join {
            proof {
                lemma_queue_pop_skip(visited@, queue@, popped as int, bs, step, then_entry);
            }
            continue;
        }
        if !is_in_scope(cfg, u, scope) || !dominance.dominates(head, u) || !dominance.post_dominates(join, u) {
            proof {
                assert(!bs.contains(u as nat)) by {
                    if bs.contains(u as nat) {
                        assert(sg_nodes(g).contains_key(u as nat));
                    }
                }
                lemma_queue_pop_skip(visited@, queue@, popped as int, bs, step, then_entry);
            }
            continue;
        }
        proof {
            lemma_dominated_is_node(*dominance, head, u);
            assert(bs.contains(u as nat));
            // u is reached: it is the entry, or a step from a visited node.
            if u == then_entry {
                assert(is_walk(bs, step, seq![u as nat]));
            } else {
                let v = choose|v: usize| visited@.contains(v) && step(v as nat, queue@[popped as int] as nat);
                let k = choose|k: int| 0 <= k < visited@.len() && visited@[k] == v;
                let p = choose|p: Seq<nat>| #[trigger] is_walk(bs, step, p) && p[0] == then_entry as nat && p.last() == v as nat;
                assert(is_walk(bs, step, p.push(u as nat)));
                assert(p.push(u as nat)[0] == then_entry as nat);
            }
        }
        let ghost old_visited = visited@;
        let ghost old_queue = queue@;
        visited.push(u);
        let succs = scoped_neighbors(cfg, u, Direction::Outgoing, scope);
        let mut j: usize = 0;
        while j < succs.len()
            invariant
                0 <= j <= succs@.len(),
                queue@.len() == old_queue.len() + j,
                forall|k: int| 0 <= k < old_queue.len() ==> #[trigger] queue@[k] == old_queue[k],
                forall|k: int| 0 <= k < j ==> #[trigger] queue@[old_queue.len() + k] == succs@[k],
            decreases succs@.len() - j,
        {
            queue.push(succs[j]);
            j = j + 1;
        }
        proof {
            assert(succs@.len() == j);
            lemma_after_visit(bs, step, then_entry, old_visited, visited@, old_queue, queue@, succs@, u, popped as int, g, sc);
            assert forall|k: int| 0 <= k < visited@.len() implies sg_nodes(g).dom().contains(#[trigger] visited@[k] as nat) by {
                assert(bs.contains(visited@[k] as nat));
            }
            lemma_distinct_len(visited@, sg_nodes(g).dom());
        }
    }
    proof {
        assert forall|v: usize, s: usize| #[trigger] visited@.contains(v) && #[trigger] step(v as nat, s as nat) implies (visited@.contains(s)
            || !bs.contains(s as nat)) by {
            if !visited@.contains(s) && bs.contains(s as nat) {
                let k = choose|k: int| qi <= k < queue@.len() && queue@[k] == s;
            }
        }
        if !visited@.contains(then_entry) && bs.contains(then_entry as nat) {
            let k = choose|k: int| qi <= k < queue@.len() && queue@[k] == then_entry;
        }
        assert forall|x: usize| #[trigger] visited@.contains(x) <==> branch_nodes(*dominance, head, then_entry, join, sc).contains(x as nat) by {
            if visited@.contains(x) {
                let k = choose|k: int| 0 <= k < visited@.len() && visited@[k] == x;
            }
            if branch_nodes(*dominance, head, then_entry, join, sc).contains(x as nat) {
                let p = choose|p: Seq<nat>| #[trigger] is_walk(bs, step, p) && p[0] == then_entry as nat && p.last() == x as nat;
                assert forall|j: int| 0 <= j < p.len() implies #[trigger] p[j] < u32::MAX by {
                    assert(bs.contains(p[j]));
                    assert(sg_nodes(g).contains_key(p[j]));
                }
                lemma_walk_visited(bs, step, visited@, then_entry, p, (p.len() - 1) as int);
            }
        }
    }
    visited
}

/// Visiting `u` and queueing its successors keeps the search's invariants.
proof fn lemma_after_visit(
    bs: Set<nat>,
    step: spec_fn(nat, nat) -> bool,
    then_entry: usize,
    old_visited: Seq<usize>,
    visited: Seq<usize>,
    old_queue: Seq<usize>,
    queue: Seq<usize>,
    succs: Seq<usize>,
    u: usize,
    popped: int,
    g: Sg,
    sc: Option<Seq<RegionId>>,
)
    requires
        step == scoped_step(g, sc),
        0 <= popped < old_queue.len(),
        old_queue[popped] == u,
        !old_visited.contains(u),
        visited == old_visited.push(u),
        bs.contains(u as nat),
        reaches(bs, step, then_entry as nat, u as nat),
        old_visited.no_duplicates(),
        forall|k: int| 0 <= k < old_visited.len() ==> bs.contains(#[trigger] old_visited[k] as nat) && reaches(
            bs,
            step,
            then_entry as nat,
            old_visited[k] as nat,
        ),
        forall|k: int| popped <= k < old_queue.len() ==> #[trigger] old_queue[k] == then_entry || exists|v: usize|
            old_visited.contains(v) && step(v as nat, old_queue[k] as nat),
        forall|v: usize, s: usize| #[trigger] old_visited.contains(v) && #[trigger] step(v as nat, s as nat) ==> (old_visited.contains(s)
            || !bs.contains(s as nat) || exists|k: int| popped <= k < old_queue.len() && old_queue[k] == s),
        old_visited.contains(then_entry) || !bs.contains(then_entry as nat) || exists|k: int| popped <= k < old_queue.len() && old_queue[k] == then_entry,
        queue.len() == old_queue.len() + succs.len(),
        forall|k: int| 0 <= k < old_queue.len() ==> #[trigger] queue[k] == old_queue[k],
        forall|k: int| 0 <= k < succs.len() ==> #[trigger] queue[old_queue.len() + k] == succs[k],
        forall|m: usize| #[trigger] succs.contains(m) <==> scoped_neighbor_set(g, u as nat, Direction::Outgoing, sc).contains(m as nat),
    ensures
        visited.no_duplicates(),
        forall|k: int| 0 <= k < visited.len() ==> bs.contains(#[trigger] visited[k] as nat) && reaches(
            bs,
            step,
            then_entry as nat,
            visited[k] as nat,
        ),
        forall|k: int| popped + 1 <= k < queue.len() ==> #[trigger] queue[k] == then_entry || exists|v: usize|
            visited.contains(v) && step(v as nat, queue[k] as nat),
        forall|v: usize, s: usize| #[trigger] visited.contains(v) && #[trigger] step(v as nat, s as nat) ==> (visited.contains(s)
            || !bs.contains(s as nat) || exists|k: int| popped + 1 <= k < queue.len() && queue[k] == s),
        visited.contains(then_entry) || !bs.contains(then_entry as nat) || exists|k: int| popped + 1 <= k < queue.len() && queue[k] == then_entry,
{
    assert forall|k: int| 0 <= k < visited.len() implies bs.contains(#[trigger] visited[k] as nat) && reaches(
        bs,
        step,
        then_entry as nat,
        visited[k] as nat,
    ) by {
        if k < old_visited.len() {
            assert(visited[k] == old_visited[k]);
        }
    }
    assert forall|k: int| popped + 1 <= k < queue.len() implies #[trigger] queue[k] == then_entry || exists|v: usize|
        visited.contains(v) && step(v as nat, queue[k] as nat) by {
        if k < old_queue.len() {
            assert(queue[k] == old_queue[k]);
            if old_queue[k] != then_entry {
                let v = choose|v: usize| old_visited.contains(v) && step(v as nat, old_queue[k] as nat);
                assert(visited.contains(v));
            }
        } else {
            let m = k - old_queue.len();
            assert(queue[old_queue.len() + m] == succs[m]);
            assert(succs.contains(succs[m]));
            assert(visited.contains(u));
            assert(visited[visited.len() - 1] == u);
        }
    }
    assert forall|v: usize, s: usize| #[trigger] visited.contains(v) && #[trigger] step(v as nat, s as nat) implies (visited.contains(s)
        || !bs.contains(s as nat) || exists|k: int| popped + 1 <= k < queue.len() && queue[k] == s) by {
        if v == u {
            assert(succs.contains(s));
            let m = choose|m: int| 0 <= m < succs.len() && succs[m] == s;
            assert(queue[old_queue.len() + m] == s);
        } else {
            assert(old_visited.contains(v));
            if !visited.contains(s) && bs.contains(s as nat) {
                assert(!old_visited.contains(s));
                let k = choose|k: int| popped <= k < old_queue.len() && old_queue[k] == s;
                if k == popped {
                    assert(s == u);
                } else {
                    assert(queue[k] == s);
                }
            }
        }
    }
    if !visited.contains(then_entry) && bs.contains(then_entry as nat) {
        assert(!old_visited.contains(then_entry));
        let k = choose|k: int| popped <= k < old_queue.len() && old_queue[k] == then_entry;
        if k == popped {
            assert(then_entry == u);
        } else {
            assert(queue[k] == then_entry);
        }
    }
}

/// Dropping a popped entry that is visited, the join, or not a branch node keeps the search's
/// promise that every step from a visited node is handled.
proof fn lemma_queue_pop_skip(
    visited: Seq<usize>,
    queue: Seq<usize>,
    popped: int,
    bs: Set<nat>,
    step: spec_fn(nat, nat) -> bool,
    entry: usize,
)
    requires
        0 <= popped < queue.len(),
        visited.contains(queue[popped]) || !bs.contains(queue[popped] as nat),
        forall|v: usize, s: usize| #[trigger] visited.contains(v) && #[trigger] step(v as nat, s as nat) ==> (visited.contains(s)
            || !bs.contains(s as nat) || exists|k: int| popped <= k < queue.len() && queue[k] == s),
        visited.contains(entry) || !bs.contains(entry as nat) || exists|k: int| popped <= k < queue.len() && queue[k] == entry,
    ensures
        forall|v: usize, s: usize| #[trigger] visited.contains(v) && #[trigger] step(v as nat, s as nat) ==> (visited.contains(s)
            || !bs.contains(s as nat) || exists|k: int| popped + 1 <= k < queue.len() && queue[k] == s),
        visited.contains(entry) || !bs.contains(entry as nat) || exists|k: int| popped + 1 <= k < queue.len() && queue[k] == entry,
{
    assert forall|v: usize, s: usize| #[trigger] visited.contains(v) && #[trigger] step(v as nat, s as nat) implies (visited.contains(s)
        || !bs.contains(s as nat) || exists|k: int| popped + 1 <= k < queue.len() && queue[k] == s) by {
        if !visited.contains(s) && bs.contains(s as nat) {
            let k = choose|k: int| popped <= k < queue.len() && queue[k] == s;
            assert(k != popped);
        }
    }
    if !visited.contains(entry) && bs.contains(entry as nat) {
        let k = choose|k: int| popped <= k < queue.len() && queue[k] == entry;
        assert(k != popped);
    }
}

/// Every node of a walk from the entry through branch nodes is visited once the search is done.
proof fn lemma_walk_visited(bs: Set<nat>, step: spec_fn(nat, nat) -> bool, visited: Seq<usize>, entry: usize, p: Seq<nat>, i: int)
    requires
        is_walk(bs, step, p),
        p[0] == entry as nat,
        0 <= i < p.len(),
        forall|v: usize, s: usize| #[trigger] visited.contains(v) && #[trigger] step(v as nat, s as nat) ==> (visited.contains(s)
            || !bs.contains(s as nat)),
        visited.contains(entry) || !bs.contains(entry as nat),
        forall|j: int| 0 <= j < p.len() ==> #[trigger] p[j] < u32::MAX,
    ensures
        visited.contains(p[i] as usize),
    decreases i,
{
    assert(bs.contains(p[i]));
    if i > 0 {
        lemma_walk_visited(bs, step, visited, entry, p, i - 1);
        assert(step(p[i - 1], p[i]));
        assert(step((p[i - 1] as usize) as nat, (p[i] as usize) as nat));
    }
}

/// A node that some node dominates is a node of the graph.
proof fn lemma_dominated_is_node(d: RegionDominanceView, a: usize, b: usize)
    requires
        d.wf(),
        d.dominates_spec(a, b),
    ensures
        sg_nodes(d.cfg_spec().sg()).contains_key(b as nat),
{
    let g = d.cfg_spec().sg();
    if b != d.root_spec() {
        assert(d.dom_spec().contains_key(b));
        crate::graph::lemma_reached_is_node(crate::graph::node_set(g), crate::graph::forward(g), d.root_spec() as nat, b as nat);
    }
}

/// Some branch node has a predecessor outside the branch (other than the head into the
/// entry), some branch node leads outside the branch other than to the join, or the head leads
/// into the branch other than at its entry.
pub open spec fn sess_violation(g: Sg, head: usize, entry: usize, body: Seq<usize>, join: usize, sc: Option<Seq<RegionId>>) -> bool {
    ||| exists|node: usize, pred: usize| #[trigger] body.contains(node) && #[trigger] scoped_neighbor_set(g, node as nat, Direction::Incoming, sc).contains(pred as nat)
        && !(pred == head && node == entry) && !body.contains(pred)
    ||| exists|node: usize, succ: usize| #[trigger] body.contains(node) && #[trigger] scoped_neighbor_set(g, node as nat, Direction::Outgoing, sc).contains(succ as nat)
        && !body.contains(succ) && succ != join
    ||| exists|succ: usize| #[trigger] scoped_neighbor_set(g, head as nat, Direction::Outgoing, sc).contains(succ as nat) && body.contains(succ)
        && succ != entry
}

/// Whether the branch `body` that starts at `entry` breaks single entry and single exit.
pub(crate) fn contains_sess_violation(
    cfg: &RegionCfg,
    head: usize,
    body_entry: usize,
    body_nodes: &Vec<usize>,
    join: usize,
    scope: Option<&Vec<RegionId>>,
) -> (res: bool)
    requires
        cfg.inner_spec().wf(),
    ensures
        res == sess_violation(cfg.sg(), head, body_entry, body_nodes@, join, scope_view(scope)),
{
    let ghost g = cfg.sg();
    let ghost sc = scope_view(scope);
    let mut i: usize = 0;
    while i < body_nodes.len()
        invariant
            cfg.inner_spec().wf(),
            g == cfg.sg(),
            sc == scope_view(scope),
            0 <= i <= body_nodes@.len(),
            forall|k: int, pred: usize| 0 <= k < i && #[trigger] scoped_neighbor_set(g, body_nodes@[k] as nat, Direction::Incoming, sc).contains(pred as nat)
                ==> (pred == head && body_nodes@[k] == body_entry) || body_nodes@.contains(pred),
        decreases body_nodes@.len() - i,
    {
        let node = body_nodes[i];
        let preds = scoped_neighbors(cfg, node, Direction::Incoming, scope);
        let mut j: usize = 0;
        while j < preds.len()
            invariant
                0 <= j <= preds@.len(),
                g == cfg.sg(),
                sc == scope_view(scope),
                0 <= i < body_nodes@.len(),
                node == body_nodes@[i as int],
                forall|m: usize| #[trigger] preds@.contains(m) <==> scoped_neighbor_set(cfg.sg(), node as nat, Direction::Incoming, scope_view(scope)).contains(m as nat),
                forall|m: int| 0 <= m < j ==> (preds@[m] == head && node == body_entry) || body_nodes@.contains(#[trigger] preds@[m]),
            decreases preds@.len() - j,
        {
            let pred = preds[j];
            if !(pred == head && node == body_entry) && !vec_contains(body_nodes, pred) {
                proof {
                    assert(preds@.contains(pred));
                    assert(body_nodes@.contains(body_nodes@[i as int]));
                    assert(scoped_neighbor_set(g, node as nat, Direction::Incoming, sc).contains(pred as nat));
                }
                return true;
            }
            j = j + 1;
        }
        proof {
            assert forall|k: int, pred: usize| 0 <= k < i + 1 && #[trigger] scoped_neighbor_set(g, body_nodes@[k] as nat, Direction::Incoming, sc).contains(pred as nat)
                implies (pred == head && body_nodes@[k] == body_entry) || body_nodes@.contains(pred) by {
                if k == i {
                    assert(preds@.contains(pred));
                    let m = choose|m: int| 0 <= m < preds@.len() && preds@[m] == pred;
                }
            }
        }
        i = i + 1;
    }
    let mut i: usize = 0;
    while i < body_nodes.len()
        invariant
            cfg.inner_spec().wf(),
            g == cfg.sg(),
            sc == scope_view(scope),
            0 <= i <= body_nodes@.len(),
            forall|k: int, succ: usize| 0 <= k < i && #[trigger] scoped_neighbor_set(g, body_nodes@[k] as nat, Direction::Outgoing, sc).contains(succ as nat)
                ==> body_nodes@.contains(succ) || succ == join,
        decreases body_nodes@.len() - i,
    {
        let node = body_nodes[i];
        let succs = scoped_neighbors(cfg, node, Direction::Outgoing, scope);
        let mut j: usize = 0;
        while j < succs.len()
            invariant
                0 <= j <= succs@.len(),
                g == cfg.sg(),
                sc == scope_view(scope),
                0 <= i < body_nodes@.len(),
                node == body_nodes@[i as int],
                forall|m: usize| #[trigger] succs@.contains(m) <==> scoped_neighbor_set(cfg.sg(), node as nat, Direction::Outgoing, scope_view(scope)).contains(m as nat),
                forall|m: int| 0 <= m < j ==> body_nodes@.contains(#[trigger] succs@[m]) || succs@[m] == join,
            decreases succs@.len() - j,
        {
            let succ = succs[j];
            if !(vec_contains(body_nodes, succ) || succ == join) {
                proof {
                    assert(succs@.contains(succ));
                    assert(body_nodes@.contains(body_nodes@[i as int]));
                    assert(scoped_neighbor_set(g, node as nat, Direction::Outgoing, sc).contains(succ as nat));
                }
                return true;
            }
            j = j + 1;
        }
        proof {
            assert forall|k: int, succ: usize| 0 <= k < i + 1 && #[trigger] scoped_neighbor_set(g, body_nodes@[k] as nat, Direction::Outgoing, sc).contains(succ as nat)
                implies body_nodes@.contains(succ) || succ == join by {
                if k == i {
                    assert(succs@.contains(succ));
                    let m = choose|m: int| 0 <= m < succs@.len() && succs@[m] == succ;
                }
            }
        }
        i = i + 1;
    }
    let succs = scoped_neighbors(cfg, head, Direction::Outgoing, scope);
    let mut j: usize = 0;
    while j < succs.len()
        invariant
            0 <= j <= succs@.len(),
            g == cfg.sg(),
            sc == scope_view(scope),
            forall|m: usize| #[trigger] succs@.contains(m) <==> scoped_neighbor_set(cfg.sg(), head as nat, Direction::Outgoing, scope_view(scope)).contains(m as nat),
            forall|m: int| 0 <= m < j ==> !body_nodes@.contains(#[trigger] succs@[m]) || succs@[m] == body_entry,
        decreases succs@.len() - j,
    {
        let succ = succs[j];
        if vec_contains(body_nodes, succ) && succ != body_entry {
            proof {
                assert(succs@.contains(succ));
                assert(scoped_neighbor_set(g, head as nat, Direction::Outgoing, sc).contains(succ as nat));
            }
            return true;
        }
        j = j + 1;
    }
    proof {
        assert(!sess_violation(g, head, body_entry, body_nodes@, join, sc)) by {
            if exists|node: usize, pred: usize| #[trigger] body_nodes@.contains(node) && #[trigger] scoped_neighbor_set(g, node as nat, Direction::Incoming, sc).contains(pred as nat)
                && !(pred == head && node == body_entry) && !body_nodes@.contains(pred) {
                let (node, pred) = choose|node: usize, pred: usize| #[trigger] body_nodes@.contains(node) && #[trigger] scoped_neighbor_set(g, node as nat, Direction::Incoming, sc).contains(pred as nat)
                    && !(pred == head && node == body_entry) && !body_nodes@.contains(pred);
                let k = choose|k: int| 0 <= k < body_nodes@.len() && body_nodes@[k] == node;
                assert(scoped_neighbor_set(g, body_nodes@[k] as nat, Direction::Incoming, sc).contains(pred as nat));
            }
            if exists|node: usize, succ: usize| #[trigger] body_nodes@.contains(node) && #[trigger] scoped_neighbor_set(g, node as nat, Direction::Outgoing, sc).contains(succ as nat)
                && !body_nodes@.contains(succ) && succ != join {
                let (node, succ) = choose|node: usize, succ: usize| #[trigger] body_nodes@.contains(node) && #[trigger] scoped_neighbor_set(g, node as nat, Direction::Outgoing, sc).contains(succ as nat)
                    && !body_nodes@.contains(succ) && succ != join;
                let k = choose|k: int| 0 <= k < body_nodes@.len() && body_nodes@[k] == node;
                assert(scoped_neighbor_set(g, body_nodes@[k] as nat, Direction::Outgoing, sc).contains(succ as nat));
            }
            if exists|succ: usize| #[trigger] scoped_neighbor_set(g, head as nat, Direction::Outgoing, sc).contains(succ as nat) && body_nodes@.contains(succ)
                && succ != body_entry {
                let succ = choose|succ: usize| #[trigger] scoped_neighbor_set(g, head as nat, Direction::Outgoing, sc).contains(succ as nat) && body_nodes@.contains(succ)
                    && succ != body_entry;
                assert(succs@.contains(succ));
                let m = choose|m: int| 0 <= m < succs@.len() && succs@[m] == succ;
            }
        }
    }
    false
}

/// The region keys of `nodes`, which must all be nodes.
pub(crate) fn keys_of_nodes(cfg: &RegionCfg, nodes: &Vec<usize>) -> (res: Vec<RegionId>)
    requires
        cfg.inner_spec().wf(),
        forall|i: int| 0 <= i < nodes@.len() ==> sg_nodes(cfg.sg()).contains_key(#[trigger] nodes@[i] as nat),
    ensures
        res@ == keys_of(cfg.sg(), nodes@),
{
    let mut res: Vec<RegionId> = Vec::new();
    let mut i: usize = 0;
    while i < nodes.len()
        invariant
            0 <= i <= nodes@.len(),
            forall|k: int| 0 <= k < nodes@.len() ==> sg_nodes(cfg.sg()).contains_key(#[trigger] nodes@[k] as nat),
            res@ == keys_of(cfg.sg(), nodes@.take(i as int)),
            cfg.inner_spec().wf(),
        decreases nodes@.len() - i,
    {
        assert(sg_nodes(cfg.sg()).contains_key(nodes@[i as int] as nat));
        let k = cfg.key_for_node(nodes[i]).unwrap();
        res.push(k);
        proof {
            assert(keys_of(cfg.sg(), nodes@.take(i + 1)) =~= keys_of(cfg.sg(), nodes@.take(i as int)).push(k));
        }
        i = i + 1;
    }
    proof {
        assert(nodes@.take(nodes@.len() as int) =~= nodes@);
    }
    res
}

/// The keys of distinct nodes are distinct.
pub proof fn lemma_keys_distinct(g: Sg, nodes: Seq<usize>)
    requires
        crate::graph::unique_keys(g),
        nodes.no_duplicates(),
        forall|i: int| 0 <= i < nodes.len() ==> sg_nodes(g).contains_key(#[trigger] nodes[i] as nat),
    ensures
        keys_of(g, nodes).no_duplicates(),
{
    assert forall|i: int, j: int| 0 <= i < nodes.len() && 0 <= j < nodes.len() && i != j implies keys_of(g, nodes)[i] != keys_of(g, nodes)[j] by {
        assert(nodes[i] != nodes[j]);
        assert(sg_nodes(g).contains_key(nodes[i] as nat));
        assert(sg_nodes(g).contains_key(nodes[j] as nat));
    }
}

/// Whether no node lies in both lists.
pub(crate) fn is_disjoint(a: &Vec<usize>, b: &Vec<usize>) -> (res: bool)
    ensures
        res == forall|x: usize| !(#[trigger] a@.contains(x) && b@.contains(x)),
{
    let mut i: usize = 0;
    while i < a.len()
        invariant
            0 <= i <= a@.len(),
            forall|k: int| 0 <= k < i ==> !b@.contains(#[trigger] a@[k]),
        decreases a@.len() - i,
    {
        if vec_contains(b, a[i]) {
            proof {
                assert(a@.contains(a@[i as int]));
            }
            return false;
        }
        i = i + 1;
    }
    proof {
        assert forall|x: usize| !(#[trigger] a@.contains(x) && b@.contains(x)) by {
            if a@.contains(x) {
                let k = choose|k: int| 0 <= k < a@.len() && a@[k] == x;
            }
        }
    }
    true
}

/// The condition `cond` is the one under which an edge labelled `l` is taken.
pub open spec fn cond_matches(cond: Option<Condition>, l: EdgeLabel) -> bool {
    match l {
        EdgeLabel::TrueBranch(c) => cond == c,
        EdgeLabel::FalseBranch(Some(c)) => cond matches Some(r) && r.op_view() == crate::cfg_recovery::cfg::negated_operator(c.op_view())
            && r.lhs_view() == c.lhs_view() && r.rhs_view() == c.rhs_view(),
        _ => cond is None,
    }
}

/// Some edge from `a` to `b` carries a branch label.
pub open spec fn branch_edge(g: Sg, a: usize, b: usize, l: EdgeLabel) -> bool {
    &&& exists|e: nat| #[trigger] sg_edges(g).contains_key(e) && sg_edges(g)[e] == (a as nat, b as nat, l)
    &&& (l is TrueBranch || l is FalseBranch)
}

/// A branch that starts at `entry` and ends before `join` holds the nodes `nodes`, listed once
/// each, and keeps single entry and single exit.
pub open spec fn branch_found(d: RegionDominanceView, head: usize, entry: usize, join: usize, sc: Option<Seq<RegionId>>, nodes: Seq<usize>) -> bool {
    &&& nodes.no_duplicates()
    &&& nodes.len() > 0
    &&& forall|u: usize| #[trigger] nodes.contains(u) <==> branch_nodes(d, head, entry, join, sc).contains(u as nat)
    &&& !sess_violation(d.cfg_spec().sg(), head, entry, nodes, join, sc)
}

/// `s` is an if-then(-else) at `head`: `head` has exactly two successors that count, neither of
/// them the virtual exit; the join is the immediate post-dominator of `head`; the then branch
/// starts at a successor other than the join along a branch edge whose label gives the
/// condition; the else branch, where there is one, starts at the other successor, and where
/// there is none the join is that successor; each branch is what `branch_found` says, and the
/// two do not overlap.
pub open spec fn if_found(d: RegionDominanceView, head: usize, sc: Option<Seq<RegionId>>, s: IfSchema) -> bool {
    exists|t: usize, e: Option<usize>, l: EdgeLabel, lo: EdgeLabel, tn: Seq<usize>, en: Option<Seq<usize>>|
        #[trigger] if_witness(d, head, sc, s, t, e, l, lo, tn, en)
}

/// The successor `t` starts the then branch of nodes `tn` along an edge labelled `l`, and `e`,
/// where it is given, starts the else branch of nodes `en` (the join otherwise follows `head`
/// along an edge labelled `lo`).
pub open spec fn if_witness(
    d: RegionDominanceView,
    head: usize,
    sc: Option<Seq<RegionId>>,
    s: IfSchema,
    t: usize,
    e: Option<usize>,
    l: EdgeLabel,
    lo: EdgeLabel,
    tn: Seq<usize>,
    en: Option<Seq<usize>>,
) -> bool {
    let g = d.cfg_spec().sg();
    let succs = scoped_neighbor_set(g, head as nat, Direction::Outgoing, sc);
    let join = d.pdom_spec()[head];
    &&& sg_nodes(g).contains_key(head as nat)
    &&& in_scope(g, head as nat, sc)
    &&& crate::cfg_structuring::scope::scoped_edges(g, head as nat, Direction::Outgoing, sc).len() == 2
    &&& forall|x: nat| #[trigger] succs.contains(x) ==> x != d.vexit_spec()
    &&& d.pdom_spec().contains_key(head)
    &&& succs.contains(t as nat) && t != join
    &&& match e {
        Some(x) => succs.contains(x as nat) && x != join && branch_edge(g, head, x, lo),
        None => succs.contains(join as nat) && branch_edge(g, head, join, lo),
    }
    &&& branch_edge(g, head, t, l)
    &&& cond_matches(s.cond, l)
    &&& branch_found(d, head, t, join, sc, tn)
    &&& s.then_body@ == keys_of(g, tn)
    &&& match (e, en) {
        (Some(x), Some(ens)) => branch_found(d, head, x, join, sc, ens) && (forall|u: usize| !(#[trigger] tn.contains(u) && ens.contains(u)))
            && (s.else_body matches Some(v) && v@ == keys_of(g, ens)),
        (None, None) => s.else_body is None,
        _ => false,
    }
    &&& s.head == sg_nodes(g)[head as nat]
    &&& s.join == sg_nodes(g)[join as nat]
}

/// An edge that counts leads to each neighbour that counts.
proof fn lemma_scoped_neighbor_edge(g: Sg, n: nat, sc: Option<Seq<RegionId>>, m: nat)
    requires
        scoped_neighbor_set(g, n, Direction::Outgoing, sc).contains(m),
    ensures
        crate::graph::has_edge(g, n, m),
{
    let e = choose|e: nat| #[trigger] crate::cfg_structuring::scope::scoped_edges(g, n, Direction::Outgoing, sc).contains(e)
        && crate::graph::far_end(g, e, Direction::Outgoing) == m;
    assert(sg_edges(g).contains_key(e));
}

/// The successor that an if-then(-else) witness does not start its then branch at: its else
/// entry, or the join where there is none.
pub open spec fn other_entry(d: RegionDominanceView, head: usize, e: Option<usize>) -> usize {
    match e {
        Some(x) => x,
        None => d.pdom_spec()[head],
    }
}

/// Single entry and single exit of a branch depend only on which nodes it holds.
proof fn lemma_sess_same_nodes(g: Sg, head: usize, entry: usize, a: Seq<usize>, b: Seq<usize>, join: usize, sc: Option<Seq<RegionId>>)
    requires
        forall|u: usize| #[trigger] a.contains(u) <==> b.contains(u),
    ensures
        sess_violation(g, head, entry, a, join, sc) == sess_violation(g, head, entry, b, join, sc),
{
    lemma_sess_one_way(g, head, entry, a, b, join, sc);
    lemma_sess_one_way(g, head, entry, b, a, join, sc);
}

proof fn lemma_sess_one_way(g: Sg, head: usize, entry: usize, a: Seq<usize>, b: Seq<usize>, join: usize, sc: Option<Seq<RegionId>>)
    requires
        forall|u: usize| #[trigger] a.contains(u) <==> b.contains(u),
    ensures
        sess_violation(g, head, entry, a, join, sc) ==> sess_violation(g, head, entry, b, join, sc),
{
    if exists|node: usize, pred: usize| #[trigger] a.contains(node) && #[trigger] scoped_neighbor_set(g, node as nat, Direction::Incoming, sc).contains(pred as nat)
        && !(pred == head && node == entry) && !a.contains(pred) {
        let (node, pred) = choose|node: usize, pred: usize| #[trigger] a.contains(node) && #[trigger] scoped_neighbor_set(g, node as nat, Direction::Incoming, sc).contains(pred as nat)
            && !(pred == head && node == entry) && !a.contains(pred);
        assert(b.contains(node) && !b.contains(pred));
    }
    if exists|node: usize, succ: usize| #[trigger] a.contains(node) && #[trigger] scoped_neighbor_set(g, node as nat, Direction::Outgoing, sc).contains(succ as nat)
        && !a.contains(succ) && succ != join {
        let (node, succ) = choose|node: usize, succ: usize| #[trigger] a.contains(node) && #[trigger] scoped_neighbor_set(g, node as nat, Direction::Outgoing, sc).contains(succ as nat)
            && !a.contains(succ) && succ != join;
        assert(b.contains(node) && !b.contains(succ));
    }
    if exists|succ: usize| #[trigger] scoped_neighbor_set(g, head as nat, Direction::Outgoing, sc).contains(succ as nat) && a.contains(succ) && succ != entry {
        let succ = choose|succ: usize| #[trigger] scoped_neighbor_set(g, head as nat, Direction::Outgoing, sc).contains(succ as nat) && a.contains(succ) && succ != entry;
        assert(b.contains(succ));
    }
}

/// What a witness of an if-then(-else) at `head` fixes: its two entries are the two successors
/// that count, each reached by a single edge, whose label is the witness's.
proof fn lemma_if_witness(
    d: RegionDominanceView,
    head: usize,
    sc: Option<Seq<RegionId>>,
    s: IfSchema,
    t: usize,
    e: Option<usize>,
    l: EdgeLabel,
    lo: EdgeLabel,
    tn: Seq<usize>,
    en: Option<Seq<usize>>,
)
    requires
        if_witness(d, head, sc, s, t, e, l, lo, tn, en),
        sg_wf(d.cfg_spec().sg()),
        crate::cfg_structuring::scope::scoped_edges(d.cfg_spec().sg(), head as nat, Direction::Outgoing, sc).finite(),
    ensures
        t != other_entry(d, head, e),
        forall|m: nat| #[trigger] scoped_neighbor_set(d.cfg_spec().sg(), head as nat, Direction::Outgoing, sc).contains(m)
            <==> (m == t || m == other_entry(d, head, e)),
        forall|x: nat| #[trigger] sg_edges(d.cfg_spec().sg()).contains_key(x) && sg_edges(d.cfg_spec().sg())[x].0 == head
            && sg_edges(d.cfg_spec().sg())[x].1 == t ==> sg_edges(d.cfg_spec().sg())[x].2 == l,
        forall|x: nat| #[trigger] sg_edges(d.cfg_spec().sg()).contains_key(x) && sg_edges(d.cfg_spec().sg())[x].0 == head
            && sg_edges(d.cfg_spec().sg())[x].1 == other_entry(d, head, e) ==> sg_edges(d.cfg_spec().sg())[x].2 == lo,
{
    let g = d.cfg_spec().sg();
    let join = d.pdom_spec()[head];
    let o = other_entry(d, head, e);
    let se = crate::cfg_structuring::scope::scoped_edges(g, head as nat, Direction::Outgoing, sc);
    let succs = scoped_neighbor_set(g, head as nat, Direction::Outgoing, sc);
    if t == o {
        match (e, en) {
            (Some(x), Some(ens)) => {
                assert(tn.contains(tn[0]));
                assert(ens.contains(tn[0]));
            },
            _ => {},
        }
    }
    let e1 = choose|x: nat| #[trigger] sg_edges(g).contains_key(x) && sg_edges(g)[x] == (head as nat, t as nat, l);
    let e2 = choose|x: nat| #[trigger] sg_edges(g).contains_key(x) && sg_edges(g)[x] == (head as nat, o as nat, lo);
    assert(succs.contains(t as nat) && succs.contains(o as nat));
    assert(se.contains(e1));
    assert(se.contains(e2));
    assert forall|x: nat| #[trigger] se.contains(x) implies x == e1 || x == e2 by {
        if x != e1 && x != e2 {
            let three = set![e1, e2, x];
            assert(three.subset_of(se));
            vstd::set_lib::lemma_len_subset(three, se);
            assert(three.len() == 3) by {
                assert(set![e1, e2].len() == 2) by {
                    assert(set![e1].len() == 1);
                }
            }
        }
    }
    assert forall|m: nat| #[trigger] succs.contains(m) <==> (m == t || m == o) by {
        if succs.contains(m) {
            let x = choose|x: nat| #[trigger] se.contains(x) && crate::graph::far_end(g, x, Direction::Outgoing) == m;
        }
    }
    assert forall|x: nat| #[trigger] sg_edges(g).contains_key(x) && sg_edges(g)[x].0 == head && sg_edges(g)[x].1 == t implies sg_edges(g)[x].2 == l by {
        assert(in_scope(g, t as nat, sc));
        assert(se.contains(x));
    }
    assert forall|x: nat| #[trigger] sg_edges(g).contains_key(x) && sg_edges(g)[x].0 == head && sg_edges(g)[x].1 == o implies sg_edges(g)[x].2 == lo by {
        assert(in_scope(g, o as nat, sc));
        assert(se.contains(x));
    }
}

/// The if-then(-else) whose head is `head`, within `scope`, where there is one.
pub(crate) fn find_if_with_scope(dominance: &RegionDominanceView<'_>, head: usize, scope: Option<&Vec<RegionId>>) -> (res: Option<IfSchema>)
    requires
        dominance.wf(),
        labels_ok(dominance.cfg_spec().sg()),
    ensures
        !in_scope(dominance.cfg_spec().sg(), head as nat, scope_view(scope)) ==> res is None,
        crate::cfg_structuring::scope::scoped_edges(dominance.cfg_spec().sg(), head as nat, Direction::Outgoing, scope_view(scope)).len() != 2
            ==> res is None,
        scoped_neighbor_set(dominance.cfg_spec().sg(), head as nat, Direction::Outgoing, scope_view(scope)).contains(
            dominance.vexit_spec() as nat,
        ) ==> res is None,
        !dominance.pdom_spec().contains_key(head) ==> res is None,
        res matches Some(s) ==> if_found(*dominance, head, scope_view(scope), s),
        (exists|s: IfSchema| #[trigger] if_found(*dominance, head, scope_view(scope), s)) ==> res is Some,
{
    let cfg = dominance.cfg();
    let ghost g = cfg.sg();
    let ghost sc = scope_view(scope);
    let ghost d = *dominance;
    let ghost found = exists|s: IfSchema| #[trigger] if_found(d, head, sc, s);
    let ghost w = choose|s: IfSchema, t: usize, e: Option<usize>, l: EdgeLabel, lo: EdgeLabel, tn: Seq<usize>, en: Option<Seq<usize>>|
        if_witness(d, head, sc, s, t, e, l, lo, tn, en);
    proof {
        cfg.inner_spec().lemma_wf();
        if found {
            let s = choose|s: IfSchema| #[trigger] if_found(d, head, sc, s);
            assert(if_found(d, head, sc, s));
            assert(if_witness(d, head, sc, w.0, w.1, w.2, w.3, w.4, w.5, w.6));
        }
    }
    if !is_in_scope(cfg, head, scope) {
        return None;
    }
    let succs = scoped_neighbors(cfg, head, Direction::Outgoing, scope);
    if succs.len() != 2 {
        return None;
    }
    let ghost o = other_entry(d, head, w.2);
    proof {
        if found {
            lemma_if_witness(d, head, sc, w.0, w.1, w.2, w.3, w.4, w.5, w.6);
        }
    }
    let succ1 = succs[0];
    let succ2 = succs[1];
    proof {
        assert(succs@.contains(succ1) && succs@.contains(succ2));
        assert forall|x: nat| #[trigger] scoped_neighbor_set(g, head as nat, Direction::Outgoing, sc).contains(x) implies x == succ1 || x == succ2 by {
            assert(x < u32::MAX) by {
                let e = choose|e: nat| #[trigger] crate::cfg_structuring::scope::scoped_edges(g, head as nat, Direction::Outgoing, sc).contains(e)
                    && crate::graph::far_end(g, e, Direction::Outgoing) == x;
                assert(sg_edges(g).contains_key(e));
            }
            assert(succs@.contains(x as usize));
            let k = choose|k: int| 0 <= k < succs@.len() && succs@[k] == x as usize;
        }
    }
    proof {
        if found {
            assert(succs@.contains(w.1) && succs@.contains(o));
            assert(w.1 == succ1 || w.1 == succ2);
            assert(o == succ1 || o == succ2);
            assert(succ1 == w.1 || succ1 == o);
            assert(succ2 == w.1 || succ2 == o);
        }
    }
    if succ1 == dominance.vexit() || succ2 == dominance.vexit() {
        return None;
    }
    let join = match dominance.immediate_post_dominator(head) {
        Some(j) => j,
        None => {
            return None;
        },
    };
    let (then_entry, else_entry) = if succ1 != join && succ2 == join {
        (succ1, None)
    } else if succ1 == join && succ2 != join {
        (succ2, None)
    } else if succ1 != join && succ2 != join {
        (succ1, Some(succ2))
    } else {
        return None;
    };
    proof {
        if found {
            assert(then_entry == w.1 || then_entry == o);
            assert(then_entry != join);
            match else_entry {
                Some(y) => {
                    assert(y != join && y != then_entry);
                    assert(o != join);
                },
                None => {},
            }
        }
    }
    let other_entry = match else_entry {
        Some(e) => e,
        None => join,
    };
    proof {
        lemma_scoped_neighbor_edge(g, head as nat, sc, then_entry as nat);
        lemma_scoped_neighbor_edge(g, head as nat, sc, other_entry as nat);
    }
    let head_to_then = cfg.edge_label(head, then_entry).unwrap();
    let head_to_other = cfg.edge_label(head, other_entry).unwrap();
    if !head_to_then.is_branch() || !head_to_other.is_branch() {
        return None;
    }
    let then_nodes = collect_nodes_between(cfg, dominance, head, then_entry, join, scope);
    let ghost then_wn: Seq<usize> = if then_entry == w.1 {
        w.5
    } else {
        w.6.unwrap()
    };
    proof {
        if found {
            if then_entry != w.1 {
                assert(w.2 is Some && w.6 is Some);
            }
            assert(branch_found(d, head, then_entry, join, sc, then_wn));
            assert(forall|u: usize| #[trigger] then_nodes@.contains(u) <==> then_wn.contains(u));
            lemma_sess_same_nodes(g, head, then_entry, then_nodes@, then_wn, join, sc);
            assert(then_wn.contains(then_wn[0]));
            assert(then_nodes@.contains(then_wn[0]));
        }
    }
    if then_nodes.len() == 0 || contains_sess_violation(cfg, head, then_entry, &then_nodes, join, scope) {
        return None;
    }
    let else_nodes = match else_entry {
        Some(else_entry) => {
            let else_nodes = collect_nodes_between(cfg, dominance, head, else_entry, join, scope);
            let ghost else_wn: Seq<usize> = if else_entry == w.1 {
                w.5
            } else {
                w.6.unwrap()
            };
            proof {
                if found {
                    assert(w.2 is Some && w.6 is Some);
                    assert(else_entry == w.1 || else_entry == o);
                    assert(branch_found(d, head, else_entry, join, sc, else_wn));
                    assert(forall|u: usize| #[trigger] else_nodes@.contains(u) <==> else_wn.contains(u));
                    lemma_sess_same_nodes(g, head, else_entry, else_nodes@, else_wn, join, sc);
                    assert(else_wn.contains(else_wn[0]));
                    assert(else_nodes@.contains(else_wn[0]));
                    assert forall|x: usize| !(#[trigger] then_nodes@.contains(x) && else_nodes@.contains(x)) by {
                        assert(!(w.5.contains(x) && w.6.unwrap().contains(x)));
                    }
                }
            }
            if else_nodes.len() == 0 || contains_sess_violation(cfg, head, else_entry, &else_nodes, join, scope) {
                return None;
            }
            if !is_disjoint(&then_nodes, &else_nodes) {
                return None;
            }
            Some(else_nodes)
        },
        None => None,
    };
    proof {
        lemma_branch_nodes_are_nodes(*dominance, head, then_entry, join, sc, then_nodes@);
        match &else_nodes {
            Some(en) => {
                lemma_branch_nodes_are_nodes(*dominance, head, else_entry.unwrap(), join, sc, en@);
            },
            None => {},
        }
        assert(sg_nodes(g).contains_key(head as nat)) by {
            assert(crate::graph::has_edge(g, head as nat, then_entry as nat));
            let e = choose|e: nat| #[trigger] sg_edges(g).contains_key(e) && sg_edges(g)[e].0 == head as nat && sg_edges(g)[e].1 == then_entry as nat;
        }
        crate::graph::lemma_reached_is_node(
            crate::graph::node_set(g),
            crate::graph::backward(g),
            dominance.vexit_spec() as nat,
            head as nat,
        );
        assert(dominance.pdom_spec()[head] == join);
        lemma_idom_is_node(*dominance, head);
    }
    let then_body = keys_of_nodes(cfg, &then_nodes);
    let else_body = match &else_nodes {
        Some(en) => Some(keys_of_nodes(cfg, en)),
        None => None,
    };
    let head_key = cfg.key_for_node(head).unwrap();
    let join_key = cfg.key_for_node(join).unwrap();
    proof {
        let le = choose|e: nat| #[trigger] cfg.edges().contains_key(e) && cfg.edges()[e] == (head as nat, then_entry as nat, *head_to_then);
        assert(crate::cfg_structuring::region::label_ok(sg_edges(g)[le].2));
    }
    let cond = head_to_then.effective_condition();
    let res = IfSchema { head: head_key, then_body, else_body, join: join_key, cond };
    proof {
        let l = *head_to_then;
        let lo = *head_to_other;
        let en: Option<Seq<usize>> = match &else_nodes {
            Some(v) => Some(v@),
            None => None,
        };
        assert(branch_edge(g, head, then_entry, l));
        match else_entry {
            Some(x) => {
                assert(branch_edge(g, head, x, lo));
            },
            None => {
                assert(branch_edge(g, head, join, lo));
            },
        }
        assert(if_witness(*dominance, head, sc, res, then_entry, else_entry, l, lo, then_nodes@, en));
    }
    Some(res)
}

/// The nodes of a branch are nodes of the graph.
proof fn lemma_branch_nodes_are_nodes(d: RegionDominanceView, head: usize, entry: usize, join: usize, sc: Option<Seq<RegionId>>, nodes: Seq<usize>)
    requires
        forall|u: usize| #[trigger] nodes.contains(u) <==> branch_nodes(d, head, entry, join, sc).contains(u as nat),
    ensures
        forall|i: int| 0 <= i < nodes.len() ==> sg_nodes(d.cfg_spec().sg()).contains_key(#[trigger] nodes[i] as nat),
{
    assert forall|i: int| 0 <= i < nodes.len() implies sg_nodes(d.cfg_spec().sg()).contains_key(#[trigger] nodes[i] as nat) by {
        assert(nodes.contains(nodes[i]));
        crate::graph::lemma_reached_is_node(
            between_set(d, head, join, sc),
            scoped_step(d.cfg_spec().sg(), sc),
            entry as nat,
            nodes[i] as nat,
        );
    }
}

/// The immediate post-dominator of a node is a node.
proof fn lemma_idom_is_node(d: RegionDominanceView, n: usize)
    requires
        d.wf(),
        d.pdom_spec().contains_key(n),
    ensures
        sg_nodes(d.cfg_spec().sg()).contains_key(d.pdom_spec()[n] as nat),
{
    let g = d.cfg_spec().sg();
    let p = d.pdom_spec()[n];
    assert(crate::graph::is_immediate_dominator(crate::graph::node_set(g), crate::graph::backward(g), d.vexit_spec() as nat, p as nat, n as nat));
    let w = choose|w: Seq<nat>| #[trigger] is_walk(crate::graph::node_set(g), crate::graph::backward(g), w) && w[0] == d.vexit_spec() as nat
        && w.last() == n as nat;
    assert(w.contains(p as nat));
    let k = choose|k: int| 0 <= k < w.len() && w[k] == p as nat;
    assert(crate::graph::node_set(g).contains(w[k]));
}

/// The if-then(-else) whose head is `head`, where there is one.
pub(crate) fn find_if(dominance: &RegionDominanceView<'_>, head: usize) -> (res: Option<IfSchema>)
    requires
        dominance.wf(),
        labels_ok(dominance.cfg_spec().sg()),
    ensures
        crate::cfg_structuring::scope::scoped_edges(dominance.cfg_spec().sg(), head as nat, Direction::Outgoing, None).len() != 2
            ==> res is None,
        !dominance.pdom_spec().contains_key(head) ==> res is None,
        res matches Some(s) ==> if_found(*dominance, head, None, s),
        (exists|s: IfSchema| #[trigger] if_found(*dominance, head, None, s)) ==> res is Some,
{
    find_if_with_scope(dominance, head, None)
}

/// The if-then(-else) whose head is `head` among the regions of `scope`, where there is one.
pub(crate) fn find_if_in_scope(dominance: &RegionDominanceView<'_>, head: usize, scope: &Vec<RegionId>) -> (res: Option<IfSchema>)
    requires
        dominance.wf(),
        labels_ok(dominance.cfg_spec().sg()),
    ensures
        !in_scope(dominance.cfg_spec().sg(), head as nat, Some(scope@)) ==> res is None,
        !dominance.pdom_spec().contains_key(head) ==> res is None,
        res matches Some(s) ==> if_found(*dominance, head, Some(scope@), s),
        (exists|s: IfSchema| #[trigger] if_found(*dominance, head, Some(scope@), s)) ==> res is Some,
{
    find_if_with_scope(dominance, head, Some(scope))
}

/// The nodes of the regions `keys`, each of which must have one.
pub(crate) fn nodes_of_keys(cfg: &RegionCfg, keys: &Vec<RegionId>) -> (res: Vec<usize>)
    requires
        cfg.inner_spec().wf(),
        forall|i: int| 0 <= i < keys@.len() ==> node_of_key(cfg.sg(), #[trigger] keys@[i]).is_some(),
    ensures
        res@.len() == keys@.len(),
        forall|i: int| 0 <= i < keys@.len() ==> Some(#[trigger] res@[i] as nat) == node_of_key(cfg.sg(), keys@[i]),
{
    let mut res: Vec<usize> = Vec::new();
    let mut i: usize = 0;
    while i < keys.len()
        invariant
            cfg.inner_spec().wf(),
            0 <= i <= keys@.len(),
            forall|k: int| 0 <= k < keys@.len() ==> node_of_key(cfg.sg(), #[trigger] keys@[k]).is_some(),
            res@.len() == i,
            forall|k: int| 0 <= k < i ==> Some(#[trigger] res@[k] as nat) == node_of_key(cfg.sg(), keys@[k]),
        decreases keys@.len() - i,
    {
        assert(node_of_key(cfg.sg(), keys@[i as int]).is_some());
        let n = cfg.node_for_key(keys[i]).unwrap();
        res.push(n);
        i = i + 1;
    }
    res
}

/// The schema's regions have distinct nodes, and each branch's last region leads to the join.
pub open spec fn if_contractible(cfg: RegionCfg, s: IfSchema) -> bool {
    let g = cfg.sg();
    &&& s.all_regions_spec().no_duplicates()
    &&& forall|i: int| 0 <= i < s.all_regions_spec().len() ==> node_of_key(g, #[trigger] s.all_regions_spec()[i]).is_some()
    &&& s.then_body@.len() > 0 ==> crate::graph::has_edge(
        g,
        node_of_key(g, s.then_body@.last()).unwrap(),
        node_of_key(g, s.join).unwrap(),
    )
    &&& (s.else_body matches Some(e) && e@.len() > 0) ==> crate::graph::has_edge(
        g,
        node_of_key(g, s.else_body.unwrap()@.last()).unwrap(),
        node_of_key(g, s.join).unwrap(),
    )
}

/// The edges after an if is contracted, from those before: see `if_edges_moved`.
proof fn lemma_if_edges(
    g0: Sg,
    g2: Sg,
    g_pre: Sg,
    gh: Sg,
    e1: Map<nat, (nat, nat, EdgeLabel)>,
    g3: Sg,
    hn: nat,
    jn: nat,
    v: nat,
    rset: Set<nat>,
    added: nat,
)
    requires
        forall|e: nat| #[trigger] sg_edges(g0).contains_key(e) && !rset.contains(sg_edges(g0)[e].0) ==> sg_edges(g2).contains_key(e)
            && sg_edges(g2)[e] == sg_edges(g0)[e],
        forall|e: nat| #[trigger] sg_edges(g2).contains_key(e) ==> sg_edges(g0).contains_key(e) && sg_edges(g2)[e] == sg_edges(g0)[e],
        forall|e: nat| #[trigger] sg_edges(g0).contains_key(e) ==> sg_edges(g0)[e].0 != v && sg_edges(g0)[e].1 != v,
        sg_edges(g_pre) == sg_edges(g2),
        hn < u32::MAX,
        v < u32::MAX,
        crate::cfg_structuring::region::redirected(g_pre, gh, hn as usize, v as usize, Seq::empty(), Direction::Incoming),
        !sg_edges(gh).contains_key(added),
        e1 == sg_edges(gh).insert(added, (v, jn, EdgeLabel::Unconditional)),
        forall|f: nat| #[trigger] sg_edges(g3).contains_key(f) <==> e1.contains_key(f) && !rset.contains(e1[f].0) && !rset.contains(e1[f].1),
        forall|f: nat| #[trigger] sg_edges(g3).contains_key(f) ==> sg_edges(g3)[f] == e1[f],
        rset.contains(hn),
        !rset.contains(jn),
        !rset.contains(v),
        jn != v,
    ensures
        if_edges_moved(g0, g3, hn, jn, rset, v),
{
        let m = crate::cfg_structuring::region::moved_edges(g_pre, hn as usize, Seq::empty(), Direction::Incoming);
    assert forall|e: nat| #[trigger] sg_edges(g0).contains_key(e) && sg_edges(g0)[e].1 == hn && !rset.contains(sg_edges(g0)[e].0)
        implies crate::graph::has_edge(g3, sg_edges(g0)[e].0, v) by {
        assert(sg_edges(g2).contains_key(e));
        assert(sg_edges(g_pre).contains_key(e));
        assert(edges_at(g_pre, hn, Direction::Incoming).contains(e));
        assert(m.contains(e));
        let w = choose|w: nat| #[trigger] sg_edges(gh).contains_key(w) && sg_edges(gh)[w].0 == sg_edges(g0)[e].0 && sg_edges(gh)[w].1 == v;
        assert(e1.contains_key(w));
        assert(sg_edges(g3).contains_key(w));
    }
    assert forall|f: nat| #[trigger] sg_edges(g3).contains_key(f) && sg_edges(g3)[f].1 == v implies exists|e: nat| #[trigger] sg_edges(g0).contains_key(e)
        && sg_edges(g0)[e] == (sg_edges(g3)[f].0, hn, sg_edges(g3)[f].2) && !rset.contains(sg_edges(g0)[e].0) by {
        assert(e1.contains_key(f));
        assert(f != added);
        assert(sg_edges(gh).contains_key(f));
        if sg_edges(g_pre).contains_key(f) && !m.contains(f) {
            assert(sg_edges(g2).contains_key(f));
        } else {
            let x = choose|x: nat| #[trigger] m.contains(x) && (sg_edges(gh)[f].0, sg_edges(gh)[f].1) == crate::cfg_structuring::region::moved_ends(g_pre, x, v as usize, Direction::Incoming)
                && sg_edges(gh)[f].2 == sg_edges(g_pre)[x].2;
            assert(sg_edges(g2).contains_key(x));
            assert(sg_edges(g0).contains_key(x));
        }
    }
    assert forall|f: nat| #[trigger] sg_edges(g3).contains_key(f) && sg_edges(g3)[f].0 == v implies sg_edges(g3)[f] == (v, jn, EdgeLabel::Unconditional) by {
        assert(e1.contains_key(f));
        if f != added {
            assert(sg_edges(gh).contains_key(f));
            if sg_edges(g_pre).contains_key(f) && !m.contains(f) {
                assert(sg_edges(g2).contains_key(f));
                assert(sg_edges(g0).contains_key(f));
            } else {
                let x = choose|x: nat| #[trigger] m.contains(x) && (sg_edges(gh)[f].0, sg_edges(gh)[f].1) == crate::cfg_structuring::region::moved_ends(g_pre, x, v as usize, Direction::Incoming)
                    && sg_edges(gh)[f].2 == sg_edges(g_pre)[x].2;
                assert(sg_edges(g2).contains_key(x));
                assert(sg_edges(g0).contains_key(x));
            }
        }
    }
    assert forall|e: nat| #[trigger] sg_edges(g0).contains_key(e) && !rset.contains(sg_edges(g0)[e].0) && !rset.contains(sg_edges(g0)[e].1)
        implies sg_edges(g3).contains_key(e) && sg_edges(g3)[e] == sg_edges(g0)[e] by {
        assert(sg_edges(g2).contains_key(e));
        assert(!m.contains(e));
        assert(sg_edges(gh).contains_key(e));
        assert(e1.contains_key(e));
    }
}

/// The nodes of `cfg` that contracting `s` takes out: those of its head and branches.
pub open spec fn if_removed(cfg: RegionCfg, s: IfSchema) -> Set<nat> {
    Set::new(|x: nat| cfg.nodes().contains_key(x) && cfg.nodes()[x] != s.join && s.all_regions_spec().contains(cfg.nodes()[x]))
}

/// How the edges of `g1` follow from those of `g0` when the nodes `r`, among them head `h`,
/// give way to a new node `v` that leads to join `j`: each edge into the head from outside `r`
/// now enters `v`; every edge into `v` is such an edge, with its label; the only edges out of
/// `v` go to the join, unconditionally; and the edges between other nodes stay as they were.
pub open spec fn if_edges_moved(g0: Sg, g1: Sg, h: nat, j: nat, r: Set<nat>, v: nat) -> bool {
    &&& forall|e: nat| #[trigger] sg_edges(g0).contains_key(e) && sg_edges(g0)[e].1 == h && !r.contains(sg_edges(g0)[e].0)
        ==> crate::graph::has_edge(g1, sg_edges(g0)[e].0, v)
    &&& forall|f: nat| #[trigger] sg_edges(g1).contains_key(f) && sg_edges(g1)[f].1 == v ==> exists|e: nat| #[trigger] sg_edges(g0).contains_key(e)
        && sg_edges(g0)[e] == (sg_edges(g1)[f].0, h, sg_edges(g1)[f].2) && !r.contains(sg_edges(g0)[e].0)
    &&& forall|f: nat| #[trigger] sg_edges(g1).contains_key(f) && sg_edges(g1)[f].0 == v ==> sg_edges(g1)[f] == (v, j, EdgeLabel::Unconditional)
    &&& forall|e: nat| #[trigger] sg_edges(g0).contains_key(e) && !r.contains(sg_edges(g0)[e].0) && !r.contains(sg_edges(g0)[e].1)
        ==> sg_edges(g1).contains_key(e) && sg_edges(g1)[e] == sg_edges(g0)[e]
}

/// How many regions the else branch of `s` holds.
pub open spec fn else_len(s: IfSchema) -> nat {
    match s.else_body {
        Some(e) => e@.len(),
        None => 0,
    }
}

/// Replaces the head and the branches of `if_schema` by one node of a new if region, which
/// takes the edges into the head and leads to the join; returns the new region.
pub(crate) fn contract_if(cfg: &mut RegionCfg, regions: &mut RegionStore, if_schema: IfSchema) -> (res: RegionId)
    requires
        old(cfg).wf(old(regions)@.len()),
        old(regions).wf(),
        old(cfg).nodes().dom().len() + old(cfg).edges().dom().len() + 2 < 0x1000_0000,
        if_contractible(*old(cfg), if_schema),
    ensures
        final(regions).wf(),
        res == old(regions)@.len(),
        final(regions)@.len() == old(regions)@.len() + 1,
        final(regions)@.drop_last() == old(regions)@,
        final(regions)@.last() matches Region::If { head, then_br, else_br, join, cond } && head == if_schema.head && then_br
            == if_schema.then_body && else_br == if_schema.else_body && join == if_schema.join && cond == if_schema.cond,
        final(cfg).wf(final(regions)@.len()),
        final(cfg).vexit_spec() == old(cfg).vexit_spec(),
        exists|v: nat| #![trigger final(cfg).nodes()[v]] !old(cfg).nodes().contains_key(v) && final(cfg).nodes() == old(cfg).nodes().remove_keys(
            Set::new(|x: nat| old(cfg).nodes().contains_key(x) && old(cfg).nodes()[x] != if_schema.join && if_schema.all_regions_spec().contains(old(cfg).nodes()[x])),
        ).insert(v, res) && crate::graph::has_edge(final(cfg).sg(), v, node_of_key(old(cfg).sg(), if_schema.join).unwrap()) && if_edges_moved(
            old(cfg).sg(),
            final(cfg).sg(),
            node_of_key(old(cfg).sg(), if_schema.head).unwrap(),
            node_of_key(old(cfg).sg(), if_schema.join).unwrap(),
            if_removed(*old(cfg), if_schema),
            v,
        ),
        final(cfg).nodes().dom().len() + final(cfg).edges().dom().len() <= old(cfg).nodes().dom().len() + old(cfg).edges().dom().len() + 2,
        final(cfg).nodes().dom().len() + if_schema.then_body@.len() + else_len(if_schema) == old(cfg).nodes().dom().len(),
{
    let ghost g0 = cfg.sg();
    let ghost nodes0 = cfg.nodes();
    let ghost all = if_schema.all_regions_spec();
    let ghost n0 = regions@.len();
    let ghost tl = if_schema.then_body@.len();
    proof {
        cfg.inner_spec().lemma_wf();
        assert(all[0] == if_schema.head);
        assert(all[all.len() - 1] == if_schema.join);
    }
    let head_node = cfg.node_for_key(if_schema.head).unwrap();
    let join_node = cfg.node_for_key(if_schema.join).unwrap();
    let keys = if_schema.all_regions();
    let nodes = nodes_of_keys(cfg, &keys);
    let ghost rset = if_removed(*old(cfg), if_schema);
    proof {
        lemma_nodes_distinct(g0, keys@, nodes@);
        assert(nodes@[nodes@.len() - 1] == join_node);
        assert forall|k: int| 0 <= k < nodes@.len() - 1 implies nodes@[k] != join_node by {
            assert(nodes@[k] != nodes@[nodes@.len() - 1]);
        }
        assert forall|x: nat| #[trigger] rset.contains(x) <==> (exists|k: int| 0 <= k < nodes@.len() - 1 && nodes@[k] as nat == x) by {
            if rset.contains(x) {
                let key = nodes0[x];
                let k = choose|k: int| 0 <= k < all.len() && all[k] == key;
                assert(keys@[k] == key);
                let c = choose|c: nat| sg_nodes(g0).contains_key(c) && #[trigger] sg_nodes(g0)[c] == key;
                assert(sg_nodes(g0)[c] == sg_nodes(g0)[x]);
                assert(nodes@[k] as nat == x);
                assert(k != nodes@.len() - 1);
            }
            if exists|k: int| 0 <= k < nodes@.len() - 1 && nodes@[k] as nat == x {
                let k = choose|k: int| 0 <= k < nodes@.len() - 1 && nodes@[k] as nat == x;
                assert(nodes0[x] == keys@[k]);
                assert(all.contains(keys@[k]));
                assert(keys@[k] != keys@[nodes@.len() - 1]);
            }
        }
        assert(rset.contains(head_node as nat)) by {
            assert(nodes@[0] == head_node);
        }
    }
    match if_schema.then_body_last() {
        Some(then_tail) => {
            proof {
                assert(all[tl as int] == then_tail);
            }
            let then_tail_node = cfg.node_for_key(then_tail).unwrap();
            let r = cfg.remove_edge_label(then_tail_node, join_node, Ghost(n0));
            proof {
                assert(r is Some);
                assert(nodes@[tl as int] == then_tail_node);
                assert(rset.contains(then_tail_node as nat));
            }
        },
        None => {},
    }
    proof {
        assert forall|e: nat| #[trigger] sg_edges(g0).contains_key(e) && !rset.contains(sg_edges(g0)[e].0) implies sg_edges(cfg.sg()).contains_key(e)
            && sg_edges(cfg.sg())[e] == sg_edges(g0)[e] by {}
        assert forall|e: nat| #[trigger] sg_edges(cfg.sg()).contains_key(e) implies sg_edges(g0).contains_key(e) && sg_edges(cfg.sg())[e] == sg_edges(g0)[e] by {}
    }
    let ghost g1 = cfg.sg();
    match if_schema.else_body_last() {
        Some(else_tail) => {
            let ghost el = if_schema.else_body.unwrap()@.len();
            proof {
                assert(all[(tl + el) as int] == else_tail);
                let en = node_of_key(g0, else_tail).unwrap();
                let jn = node_of_key(g0, if_schema.join).unwrap();
                assert(crate::graph::has_edge(g0, en, jn));
                let w = choose|w: nat| #[trigger] sg_edges(g0).contains_key(w) && sg_edges(g0)[w].0 == en && sg_edges(g0)[w].1 == jn;
                if tl > 0 {
                    assert(all[tl as int] != all[(tl + el) as int]);
                    assert(nodes@[tl as int] != nodes@[(tl + el) as int]);
                }
                assert(sg_edges(g1).contains_key(w));
                assert(crate::graph::has_edge(g1, en, jn));
            }
            let else_tail_node = cfg.node_for_key(else_tail).unwrap();
            let r = cfg.remove_edge_label(else_tail_node, join_node, Ghost(n0));
            proof {
                assert(r is Some);
                assert(nodes@[(tl + el) as int] == else_tail_node);
                assert(rset.contains(else_tail_node as nat));
            }
        },
        None => {},
    }
    let ghost g2 = cfg.sg();
    proof {
        assert forall|e: nat| #[trigger] sg_edges(g0).contains_key(e) && !rset.contains(sg_edges(g0)[e].0) implies sg_edges(g2).contains_key(e)
            && sg_edges(g2)[e] == sg_edges(g0)[e] by {
            assert(sg_edges(g1).contains_key(e));
        }
        assert forall|e: nat| #[trigger] sg_edges(g2).contains_key(e) implies sg_edges(g0).contains_key(e) && sg_edges(g2)[e] == sg_edges(g0)[e] by {
            assert(sg_edges(g1).contains_key(e));
        }
    }
    proof {
        cfg.inner_spec().lemma_wf();
        assert(sg_edges(cfg.sg()).dom().subset_of(sg_edges(g0).dom()));
        vstd::set_lib::lemma_len_subset(sg_edges(cfg.sg()).dom(), sg_edges(g0).dom());
    }
    let region = if_schema.into_region();
    let (id, if_node) = cfg.add_region(regions, region);
    let ghost n = regions@.len();
    proof {
        assert(cfg.nodes().dom() =~= nodes0.dom().insert(if_node as nat));
    }
    let ghost g_pre = cfg.sg();
    cfg.redirect_edges(head_node, if_node, Direction::Incoming, Ghost(n));
    let ghost gh = cfg.sg();
    proof {
        crate::cfg_structuring::region::lemma_label_ok_unconditional();
        cfg.inner_spec().lemma_wf();
    }
    let ghost edges_pre = cfg.edges();
    let added = cfg.add_edge(if_node, join_node, EdgeLabel::Unconditional, Ghost(n));
    proof {
        assert(cfg.edges().dom() =~= edges_pre.dom().insert(added as nat));
        assert(!nodes@.contains(if_node)) by {
            if nodes@.contains(if_node) {
                let k = choose|k: int| 0 <= k < nodes@.len() && nodes@[k] == if_node;
                assert(nodes0.contains_key(nodes@[k] as nat));
            }
        }
    }
    let ghost nodes_mid = cfg.nodes();
    let ghost e1 = cfg.edges();
    let ghost mut cnt: nat = 0;
    proof {
        assert(nodes_mid.dom() =~= nodes0.dom().insert(if_node as nat));
        assert(!nodes0.dom().contains(if_node as nat));
    }
    let mut j: usize = 0;
    while j < nodes.len()
        invariant
            0 <= j <= nodes@.len(),
            cfg.wf(n),
            n == regions@.len(),
            cfg.vexit_spec() == old(cfg).vexit_spec(),
            nodes@.no_duplicates(),
            forall|k: int| j <= k < nodes@.len() ==> cfg.nodes().contains_key(#[trigger] nodes@[k] as nat),
            forall|x: nat| #[trigger] cfg.nodes().contains_key(x) <==> nodes_mid.contains_key(x) && !(exists|k: int|
                0 <= k < j && nodes@[k] as nat == x && nodes@[k] != join_node),
            forall|x: nat| #[trigger] cfg.nodes().contains_key(x) ==> cfg.nodes()[x] == nodes_mid[x],
            cfg.edges().contains_key(added as nat),
            cfg.edges()[added as nat] == (if_node as nat, join_node as nat, EdgeLabel::Unconditional),
            !nodes@.contains(if_node),
            cfg.nodes().dom().len() + cfg.edges().dom().len() <= old(cfg).nodes().dom().len() + old(cfg).edges().dom().len() + 2,
            nodes@[nodes@.len() - 1] == join_node,
            forall|k: int| 0 <= k < nodes@.len() - 1 ==> nodes@[k] != join_node,
            cnt == (if j == nodes@.len() { j - 1 } else { j as int }),
            cfg.nodes().dom().len() + cnt == nodes_mid.dom().len(),
            forall|f: nat| #[trigger] cfg.edges().contains_key(f) <==> e1.contains_key(f) && !(exists|k: int| 0 <= k < j && nodes@[k] != join_node
                && (nodes@[k] as nat == e1[f].0 || nodes@[k] as nat == e1[f].1)),
            forall|f: nat| #[trigger] cfg.edges().contains_key(f) ==> cfg.edges()[f] == e1[f],
        decreases nodes@.len() - j,
    {
        proof {
            cfg.inner_spec().lemma_wf();
        }
        let ghost before = cfg.sg();
        let ghost eb = cfg.edges();
        if nodes[j] != join_node {
            let r = cfg.remove_node_by_index(nodes[j], Ghost(n));
            proof {
                assert(r is Ok);
                let x = nodes@[j as int] as nat;
                cnt = cnt + 1;
                assert(j < nodes@.len() - 1);
                assert forall|f: nat| #[trigger] cfg.edges().contains_key(f) <==> e1.contains_key(f) && !(exists|k: int| 0 <= k < j + 1 && nodes@[k] != join_node
                    && (nodes@[k] as nat == e1[f].0 || nodes@[k] as nat == e1[f].1)) by {
                    if e1.contains_key(f) && (exists|k: int| 0 <= k < j + 1 && nodes@[k] != join_node && (nodes@[k] as nat == e1[f].0 || nodes@[k] as nat == e1[f].1)) {
                        let k = choose|k: int| 0 <= k < j + 1 && nodes@[k] != join_node && (nodes@[k] as nat == e1[f].0 || nodes@[k] as nat == e1[f].1);
                        if k < j {
                            assert(!eb.contains_key(f));
                        }
                    }
                    if eb.contains_key(f) && !(exists|k: int| 0 <= k < j && nodes@[k] != join_node && (nodes@[k] as nat == e1[f].0 || nodes@[k] as nat == e1[f].1)) {
                        if !cfg.edges().contains_key(f) {
                            assert(nodes@[j as int] != join_node && (nodes@[j as int] as nat == e1[f].0 || nodes@[j as int] as nat == e1[f].1));
                        }
                    }
                }
                assert forall|y: nat| #[trigger] cfg.nodes().contains_key(y) <==> nodes_mid.contains_key(y) && !(exists|k: int|
                    0 <= k < j + 1 && nodes@[k] as nat == y && nodes@[k] != join_node) by {
                    if exists|k: int| 0 <= k < j + 1 && nodes@[k] as nat == y && nodes@[k] != join_node {
                        let k = choose|k: int| 0 <= k < j + 1 && nodes@[k] as nat == y && nodes@[k] != join_node;
                        if k < j {
                            assert(!sg_nodes(before).contains_key(y));
                        }
                    }
                }
                assert forall|k: int| j + 1 <= k < nodes@.len() implies cfg.nodes().contains_key(#[trigger] nodes@[k] as nat) by {
                    assert(nodes@[k] != nodes@[j as int]);
                }
                assert(nodes@.contains(nodes@[j as int]));
                assert(x != if_node as nat);
                assert(x != join_node as nat);
                let kept = sg_edges(before).dom().filter(|e: nat| sg_edges(before)[e].0 != x && sg_edges(before)[e].1 != x);
                vstd::set_lib::lemma_len_subset(kept, sg_edges(before).dom());
                assert(cfg.edges().dom() =~= kept);
            }
        } else {
            proof {
                assert(j == nodes@.len() - 1);
                assert forall|f: nat| #[trigger] cfg.edges().contains_key(f) <==> e1.contains_key(f) && !(exists|k: int| 0 <= k < j + 1 && nodes@[k] != join_node
                    && (nodes@[k] as nat == e1[f].0 || nodes@[k] as nat == e1[f].1)) by {
                    if exists|k: int| 0 <= k < j + 1 && nodes@[k] != join_node && (nodes@[k] as nat == e1[f].0 || nodes@[k] as nat == e1[f].1) {
                        let k = choose|k: int| 0 <= k < j + 1 && nodes@[k] != join_node && (nodes@[k] as nat == e1[f].0 || nodes@[k] as nat == e1[f].1);
                        assert(k < j);
                    }
                }
                assert forall|y: nat| #[trigger] cfg.nodes().contains_key(y) <==> nodes_mid.contains_key(y) && !(exists|k: int|
                    0 <= k < j + 1 && nodes@[k] as nat == y && nodes@[k] != join_node) by {
                    if exists|k: int| 0 <= k < j + 1 && nodes@[k] as nat == y && nodes@[k] != join_node {
                        let k = choose|k: int| 0 <= k < j + 1 && nodes@[k] as nat == y && nodes@[k] != join_node;
                        assert(k < j);
                    }
                }
            }
        }
        j = j + 1;
    }
    proof {
        let sset = Set::new(|x: nat| nodes0.contains_key(x) && nodes0[x] != if_schema.join && all.contains(nodes0[x]));
        assert forall|y: nat| (exists|k: int| 0 <= k < nodes@.len() && nodes@[k] as nat == y && nodes@[k] != join_node) <==> #[trigger] sset.contains(y) by {
            if exists|k: int| 0 <= k < nodes@.len() && nodes@[k] as nat == y && nodes@[k] != join_node {
                let k = choose|k: int| 0 <= k < nodes@.len() && nodes@[k] as nat == y && nodes@[k] != join_node;
                assert(node_of_key(g0, keys@[k]) == Some(y));
                let c = choose|c: nat| sg_nodes(g0).contains_key(c) && #[trigger] sg_nodes(g0)[c] == keys@[k];
                assert(nodes0[y] == keys@[k]);
                assert(all.contains(keys@[k]));
                if nodes0[y] == if_schema.join {
                    assert(node_of_key(g0, if_schema.join) == Some(y));
                }
            }
            if sset.contains(y) {
                let key = nodes0[y];
                let k = choose|k: int| 0 <= k < all.len() && all[k] == key;
                assert(keys@[k] == key);
                assert(node_of_key(g0, key).is_some());
                let c = choose|c: nat| sg_nodes(g0).contains_key(c) && #[trigger] sg_nodes(g0)[c] == key;
                assert(crate::graph::unique_keys(g0));
                assert(sg_nodes(g0)[c] == sg_nodes(g0)[y]);
                assert(nodes@[k] as nat == y);
                if nodes@[k] == join_node {
                    assert(node_of_key(g0, if_schema.join) == Some(y));
                    let cj = choose|c: nat| sg_nodes(g0).contains_key(c) && #[trigger] sg_nodes(g0)[c] == if_schema.join;
                    assert(sg_nodes(g0)[cj] == if_schema.join);
                }
            }
        }
        assert(cfg.nodes() =~= nodes0.remove_keys(sset).insert(if_node as nat, id));
        assert(crate::graph::has_edge(cfg.sg(), if_node as nat, join_node as nat));
        assert(node_of_key(g0, if_schema.join).unwrap() == join_node as nat);
        assert(cfg.nodes()[if_node as nat] == id);
        assert(!nodes0.contains_key(if_node as nat));
    }
    proof {
        let g3 = cfg.sg();
        let hn = head_node as nat;
        let jn = join_node as nat;
        let v = if_node as nat;
        assert(node_of_key(g0, if_schema.head).unwrap() == hn);
        assert(node_of_key(g0, if_schema.join).unwrap() == jn);
        assert(!rset.contains(jn));
        assert(!rset.contains(v));
        assert forall|x: nat| (exists|k: int| 0 <= k < nodes@.len() && nodes@[k] != join_node && nodes@[k] as nat == x) <==> #[trigger] rset.contains(x) by {
            if exists|k: int| 0 <= k < nodes@.len() && nodes@[k] != join_node && nodes@[k] as nat == x {
                let k = choose|k: int| 0 <= k < nodes@.len() && nodes@[k] != join_node && nodes@[k] as nat == x;
                assert(k < nodes@.len() - 1);
            }
        }
        assert forall|f: nat| #[trigger] sg_edges(g3).contains_key(f) <==> e1.contains_key(f) && !rset.contains(e1[f].0) && !rset.contains(e1[f].1) by {
            if sg_edges(g3).contains_key(f) {
                if rset.contains(e1[f].0) {
                    let k = choose|k: int| 0 <= k < nodes@.len() - 1 && nodes@[k] as nat == e1[f].0;
                }
                if rset.contains(e1[f].1) {
                    let k = choose|k: int| 0 <= k < nodes@.len() - 1 && nodes@[k] as nat == e1[f].1;
                }
            }
        }
        assert forall|e: nat| #[trigger] sg_edges(g0).contains_key(e) implies sg_edges(g0)[e].0 != v && sg_edges(g0)[e].1 != v by {}
        assert(e1 == sg_edges(gh).insert(added as nat, (v, jn, EdgeLabel::Unconditional)));
        cfg.inner_spec().lemma_wf();
        assert(cfg.nodes().contains_key(v));
        lemma_if_edges(g0, g2, g_pre, gh, e1, g3, hn, jn, v, rset, added as nat);
        assert(if_edges_moved(g0, g3, hn, jn, rset, v));
        assert(cnt == nodes@.len() - 1);
        assert(all.len() == 2 + tl + else_len(if_schema));
    }
    id
}

/// Distinct keys have distinct nodes.
proof fn lemma_nodes_distinct(g: Sg, keys: Seq<RegionId>, nodes: Seq<usize>)
    requires
        crate::graph::unique_keys(g),
        keys.no_duplicates(),
        nodes.len() == keys.len(),
        forall|i: int| 0 <= i < keys.len() ==> Some(#[trigger] nodes[i] as nat) == node_of_key(g, keys[i]),
    ensures
        nodes.no_duplicates(),
        forall|i: int| 0 <= i < keys.len() ==> sg_nodes(g).contains_key(#[trigger] nodes[i] as nat) && sg_nodes(g)[nodes[i] as nat] == keys[i],
{
    assert forall|i: int| 0 <= i < keys.len() implies sg_nodes(g).contains_key(#[trigger] nodes[i] as nat) && sg_nodes(g)[nodes[i] as nat] == keys[i] by {
        assert(Some(nodes[i] as nat) == node_of_key(g, keys[i]));
        assert(node_of_key(g, keys[i]).is_some());
        let c = choose|c: nat| sg_nodes(g).contains_key(c) && #[trigger] sg_nodes(g)[c] == keys[i];
    }
    assert forall|i: int, j: int| 0 <= i < nodes.len() && 0 <= j < nodes.len() && i != j implies nodes[i] != nodes[j] by {
        assert(keys[i] != keys[j]);
        assert(sg_nodes(g)[nodes[i] as nat] == keys[i]);
        assert(sg_nodes(g)[nodes[j] as nat] == keys[j]);
    }
}

} // verus!
