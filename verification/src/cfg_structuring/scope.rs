use vstd::prelude::*;

use crate::cfg_structuring::region::{vec_contains, RegionCfg, RegionId};
use crate::graph::{edges_at, far_end,  sg_edges,  sg_nodes, Direction, IndexedGraphView, Sg};

verus! {

broadcast use vstd::seq_lib::group_seq_properties;

/// Node `node` counts: there is no scope, or the node's region is in it.
pub open spec fn in_scope(g: Sg, node: nat, scope: Option<Seq<RegionId>>) -> bool {
    match scope {
        None => true,
        Some(s) => sg_nodes(g).contains_key(node) && s.contains(sg_nodes(g)[node]),
    }
}

/// The edges at `node` in direction `dir` whose far end counts.
pub open spec fn scoped_edges(g: Sg, node: nat, dir: Direction, scope: Option<Seq<RegionId>>) -> Set<nat> {
    edges_at(g, node, dir).filter(|e: nat| in_scope(g, far_end(g, e, dir), scope))
}

/// The far ends of those edges.
pub open spec fn scoped_neighbor_set(g: Sg, node: nat, dir: Direction, scope: Option<Seq<RegionId>>) -> Set<nat> {
    Set::new(|m: nat| exists|e: nat| #[trigger] scoped_edges(g, node, dir, scope).contains(e) && far_end(g, e, dir) == m)
}

/// The scope as a sequence, where there is one.
pub open spec fn scope_view(scope: Option<&Vec<RegionId>>) -> Option<Seq<RegionId>> {
    match scope {
        None => None,
        Some(v) => Some(v@),
    }
}

/// Whether node `node` counts in `scope`.
pub(crate) fn is_in_scope(cfg: &RegionCfg, node: usize, scope: Option<&Vec<RegionId>>) -> (res: bool)
    requires
        cfg.inner_spec().wf(),
    ensures
        res == in_scope(cfg.sg(), node as nat, scope_view(scope)),
{
    match scope {
        None => true,
        Some(s) => match cfg.key_for_node(node) {
            Some(id) => vec_contains(s, id),
            None => false,
        },
    }
}

/// The neighbours of `node` in direction `dir` that count in `scope`, once per edge.
pub(crate) fn scoped_neighbors(cfg: &RegionCfg, node: usize, direction: Direction, scope: Option<&Vec<RegionId>>) -> (res: Vec<usize>)
    requires
        cfg.inner_spec().wf(),
    ensures
        res@.len() == scoped_edges(cfg.sg(), node as nat, direction, scope_view(scope)).len(),
        forall|m: usize| #[trigger] res@.contains(m) <==> scoped_neighbor_set(cfg.sg(), node as nat, direction, scope_view(scope)).contains(m as nat),
        forall|i: int| 0 <= i < res@.len() ==> sg_nodes(cfg.sg()).contains_key(#[trigger] res@[i] as nat),
        scoped_edges(cfg.sg(), node as nat, direction, scope_view(scope)).finite(),
{
    proof {
        cfg.inner_spec().lemma_wf();
    }
    let ghost g = cfg.sg();
    let ghost sc = scope_view(scope);
    let edges = crate::graph::edges_directed(cfg.graph(), node, direction);
    let mut res: Vec<usize> = Vec::new();
    let ghost mut kept: Seq<nat> = Seq::empty();
    let mut i: usize = 0;
    while i < edges.len()
        invariant
            crate::graph::sg_wf(g),
            g == cfg.sg(),
            cfg.inner_spec().wf(),
            sc == scope_view(scope),
            0 <= i <= edges@.len(),
            edges@.no_duplicates(),
            forall|e: usize| #[trigger] edges@.contains(e) <==> edges_at(g, node as nat, direction).contains(e as nat),
            res@.len() == kept.len(),
            kept.no_duplicates(),
            forall|k: int| 0 <= k < kept.len() ==> #[trigger] res@[k] as nat == far_end(g, kept[k], direction),
            forall|e: nat| #[trigger] kept.contains(e) <==> (exists|j: int| 0 <= j < i && edges@[j] as nat == e)
                && in_scope(g, far_end(g, e, direction), sc),
            forall|k: int| 0 <= k < res@.len() ==> sg_nodes(g).contains_key(#[trigger] res@[k] as nat),
        decreases edges@.len() - i,
    {
        let e = edges[i];
        assert(edges@.contains(e));
        let (a, b) = crate::graph::edge_endpoints(cfg.graph(), e).unwrap();
        let other = match direction {
            Direction::Outgoing => b,
            Direction::Incoming => a,
        };
        let ghost before = kept;
        if is_in_scope(cfg, other, scope) {
            res.push(other);
            proof {
                assert(!kept.contains(e as nat)) by {
                    if kept.contains(e as nat) {
                        let j = choose|j: int| 0 <= j < i && edges@[j] as nat == e as nat;
                        assert(edges@[j] == edges@[i as int]);
                    }
                }
                kept = kept.push(e as nat);
            }
        }
        proof {
            assert forall|x: nat| #[trigger] kept.contains(x) <==> (exists|j: int| 0 <= j < i + 1 && edges@[j] as nat == x)
                && in_scope(g, far_end(g, x, direction), sc) by {
                if x == e as nat {
                    assert(edges@[i as int] as nat == x);
                }
                if kept.contains(x) && x != e as nat {
                    assert(before.contains(x));
                }
                if before.contains(x) {
                    assert(kept.contains(x));
                }
            }
        }
        i = i + 1;
    }
    proof {
        let se = scoped_edges(g, node as nat, direction, sc);
        crate::graph::lemma_edge_list_len(g, node as nat, direction, edges@);
        assert forall|e: nat| #[trigger] kept.to_set().contains(e) <==> se.contains(e) by {
            if se.contains(e) {
                assert(e < u32::MAX);
                assert(edges@.contains(e as usize));
                let j = choose|j: int| 0 <= j < edges@.len() && edges@[j] == e as usize;
                assert(kept.contains(e));
            }
            if kept.to_set().contains(e) {
                assert(kept.contains(e));
                let j = choose|j: int| 0 <= j < edges@.len() && edges@[j] as nat == e;
                assert(edges@.contains(edges@[j]));
            }
        }
        assert(kept.to_set() =~= se);
        kept.unique_seq_to_set();
        assert forall|m: usize| #[trigger] res@.contains(m) <==> scoped_neighbor_set(g, node as nat, direction, sc).contains(m as nat) by {
            if res@.contains(m) {
                let k = choose|k: int| 0 <= k < res@.len() && res@[k] == m;
                assert(kept.contains(kept[k]));
                assert(se.contains(kept[k]));
            }
            if scoped_neighbor_set(g, node as nat, direction, sc).contains(m as nat) {
                let e = choose|e: nat| #[trigger] se.contains(e) && far_end(g, e, direction) == m as nat;
                assert(kept.contains(e));
                let k = choose|k: int| 0 <= k < kept.len() && kept[k] == e;
                assert(res@[k] == m);
            }
        }
    }
    res
}

/// The only neighbour of `node` in direction `dir` that counts, where exactly one edge leads to
/// one.
pub(crate) fn scoped_neighbor_if_one(cfg: &RegionCfg, node: usize, direction: Direction, scope: Option<&Vec<RegionId>>) -> (res: Option<usize>)
    requires
        cfg.inner_spec().wf(),
    ensures
        res is Some <==> scoped_edges(cfg.sg(), node as nat, direction, scope_view(scope)).len() == 1,
        res matches Some(m) ==> scoped_neighbor_set(cfg.sg(), node as nat, direction, scope_view(scope)).contains(m as nat)
            && sg_nodes(cfg.sg()).contains_key(m as nat),
{
    let ns = scoped_neighbors(cfg, node, direction, scope);
    if ns.len() == 1 {
        proof {
            assert(ns@.contains(ns@[0]));
        }
        Some(ns[0])
    } else {
        None
    }
}

/// The edges that count at a node are finitely many.
pub proof fn lemma_scoped_edges_finite(cfg: &RegionCfg, node: nat, dir: Direction, scope: Option<Seq<RegionId>>)
    requires
        cfg.inner_spec().wf(),
    ensures
        scoped_edges(cfg.sg(), node, dir, scope).finite(),
{
    cfg.inner_spec().lemma_wf();
    let g = cfg.sg();
    assert(scoped_edges(g, node, dir, scope).subset_of(sg_edges(g).dom()));
    vstd::set_lib::lemma_len_subset(scoped_edges(g, node, dir, scope), sg_edges(g).dom());
}

/// The number of edges at `node` in direction `dir` whose far end counts.
pub(crate) fn scoped_degree(cfg: &RegionCfg, node: usize, direction: Direction, scope: Option<&Vec<RegionId>>) -> (res: usize)
    requires
        cfg.inner_spec().wf(),
    ensures
        res == scoped_edges(cfg.sg(), node as nat, direction, scope_view(scope)).len(),
{
    scoped_neighbors(cfg, node, direction, scope).len()
}

} // verus!
