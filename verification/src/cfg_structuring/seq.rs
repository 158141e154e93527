use vstd::prelude::*;

use crate::cfg_structuring::region::{Region, RegionCfg, RegionId, RegionStore};
use crate::cfg_structuring::scope::{
    in_scope, is_in_scope, scope_view, scoped_degree, scoped_edges, scoped_neighbor_if_one,
    scoped_neighbor_set,
};
use crate::graph::{edges_at, far_end, sg_edges, sg_nodes, Direction, IndexedGraphView, IndexedGraphViewMut, Sg};

verus! {

broadcast use vstd::seq_lib::group_seq_properties;

/// The only neighbour of `n` in direction `dir` that counts, where exactly one edge leads to
/// one.
pub open spec fn only_neighbor(g: Sg, n: nat, dir: Direction, scope: Option<Seq<RegionId>>) -> Option<nat> {
    if scoped_edges(g, n, dir, scope).len() == 1 {
        Some(choose|m: nat| scoped_neighbor_set(g, n, dir, scope).contains(m))
    } else {
        None
    }
}

/// A sequence cannot start at `head`: it is the virtual exit, out of scope, or the only
/// successor of its only predecessor.
pub open spec fn seq_blocked(g: Sg, head: nat, vexit: nat, scope: Option<Seq<RegionId>>) -> bool {
    ||| head == vexit
    ||| !in_scope(g, head, scope)
    ||| (only_neighbor(g, head, Direction::Incoming, scope) matches Some(p) && scoped_edges(
        g,
        p,
        Direction::Outgoing,
        scope,
    ).len() == 1)
}

/// A sequence can grow past `t`: its only successor is not the virtual exit and has no other
/// predecessor.
pub open spec fn seq_extends(g: Sg, t: nat, vexit: nat, scope: Option<Seq<RegionId>>) -> bool {
    only_neighbor(g, t, Direction::Outgoing, scope) matches Some(s) && s != vexit && scoped_edges(
        g,
        s,
        Direction::Incoming,
        scope,
    ).len() == 1
}

/// `chain` is the longest sequence from its first node: each next node is the only successor of
/// the one before, and it stops where it cannot grow.
pub open spec fn is_seq_chain(g: Sg, vexit: nat, scope: Option<Seq<RegionId>>, chain: Seq<usize>) -> bool {
    &&& chain.len() >= 1
    &&& forall|i: int| 1 <= i < chain.len() ==> seq_extends(g, #[trigger] chain[i - 1] as nat, vexit, scope)
        && only_neighbor(g, chain[i - 1] as nat, Direction::Outgoing, scope) == Some(chain[i] as nat)
    &&& !seq_extends(g, chain.last() as nat, vexit, scope)
}

/// Where exactly one edge leads from `n` to neighbours that count, the only neighbour is the
/// far end of any such edge.
proof fn lemma_only_neighbor(g: Sg, n: nat, dir: Direction, scope: Option<Seq<RegionId>>, e: nat)
    requires
        scoped_edges(g, n, dir, scope).len() == 1,
        scoped_edges(g, n, dir, scope).finite(),
        scoped_edges(g, n, dir, scope).contains(e),
    ensures
        only_neighbor(g, n, dir, scope) == Some(far_end(g, e, dir)),
        scoped_neighbor_set(g, n, dir, scope).contains(far_end(g, e, dir)),
{
    let s = scoped_edges(g, n, dir, scope);
    let m = choose|m: nat| scoped_neighbor_set(g, n, dir, scope).contains(m);
    assert(scoped_neighbor_set(g, n, dir, scope).contains(far_end(g, e, dir)));
    let e2 = choose|e2: nat| #[trigger] s.contains(e2) && far_end(g, e2, dir) == m;
    assert(s.remove(e).len() == 0);
    assert(!s.remove(e).contains(e2) || false);
    if e2 != e {
        assert(s.remove(e).contains(e2));
    }
}

/// A list without duplicates of members of a finite set is no longer than the set.
pub proof fn lemma_distinct_len(s: Seq<usize>, dom: Set<nat>)
    requires
        dom.finite(),
        s.no_duplicates(),
        forall|j: int| 0 <= j < s.len() ==> dom.contains(#[trigger] s[j] as nat),
    ensures
        s.len() <= dom.len(),
{
    let m = s.map_values(|x: usize| x as nat);
    assert(m.no_duplicates()) by {
        assert forall|i: int, j: int| 0 <= i < m.len() && 0 <= j < m.len() && i != j implies m[i] != m[j] by {
            assert(s[i] != s[j]);
        }
    }
    m.unique_seq_to_set();
    assert(m.to_set().subset_of(dom)) by {
        assert forall|x: nat| m.to_set().contains(x) implies dom.contains(x) by {
            let j = choose|j: int| 0 <= j < m.len() && m[j] == x;
            assert(dom.contains(s[j] as nat));
        }
    }
    vstd::set_lib::lemma_len_subset(m.to_set(), dom);
}

/// Whether no sequence can start at `head`.
fn seq_start_blocked(cfg: &RegionCfg, head: usize, scope: Option<&Vec<RegionId>>) -> (res: bool)
    requires
        cfg.inner_spec().wf(),
    ensures
        res == seq_blocked(cfg.sg(), head as nat, cfg.vexit_spec() as nat, scope_view(scope)),
{
    let ghost g = cfg.sg();
    let ghost sc = scope_view(scope);
    if head == cfg.vexit() || !is_in_scope(cfg, head, scope) {
        return true;
    }
    match scoped_neighbor_if_one(cfg, head, Direction::Incoming, scope) {
        Some(pred) => {
            proof {
                assert(scoped_neighbor_set(g, head as nat, Direction::Incoming, sc).contains(pred as nat));
                let e = choose|e: nat| #[trigger] scoped_edges(g, head as nat, Direction::Incoming, sc).contains(e)
                    && far_end(g, e, Direction::Incoming) == pred as nat;
                crate::cfg_structuring::scope::lemma_scoped_edges_finite(cfg, head as nat, Direction::Incoming, sc);
                lemma_only_neighbor(g, head as nat, Direction::Incoming, sc, e);
            }
            scoped_degree(cfg, pred, Direction::Outgoing, scope) == 1
        },
        None => false,
    }
}

/// The node a sequence grows to after `target`, where it can grow.
fn seq_next(cfg: &RegionCfg, target: usize, scope: Option<&Vec<RegionId>>) -> (res: Option<usize>)
    requires
        cfg.inner_spec().wf(),
        in_scope(cfg.sg(), target as nat, scope_view(scope)),
    ensures
        res is Some <==> seq_extends(cfg.sg(), target as nat, cfg.vexit_spec() as nat, scope_view(scope)),
        res matches Some(s) ==> only_neighbor(cfg.sg(), target as nat, Direction::Outgoing, scope_view(scope)) == Some(s as nat)
            && only_neighbor(cfg.sg(), s as nat, Direction::Incoming, scope_view(scope)) == Some(target as nat)
            && in_scope(cfg.sg(), s as nat, scope_view(scope)) && sg_nodes(cfg.sg()).contains_key(s as nat),
{
    let ghost g = cfg.sg();
    let ghost sc = scope_view(scope);
    proof {
        cfg.inner_spec().lemma_wf();
    }
    let succ = match scoped_neighbor_if_one(cfg, target, Direction::Outgoing, scope) {
        Some(s) => s,
        None => {
            return None;
        },
    };
    proof {
        assert(scoped_neighbor_set(g, target as nat, Direction::Outgoing, sc).contains(succ as nat));
    }
    let ghost e_out = choose|e: nat| #[trigger] scoped_edges(g, target as nat, Direction::Outgoing, sc).contains(e)
        && far_end(g, e, Direction::Outgoing) == succ as nat;
    proof {
        crate::cfg_structuring::scope::lemma_scoped_edges_finite(cfg, target as nat, Direction::Outgoing, sc);
        lemma_only_neighbor(g, target as nat, Direction::Outgoing, sc, e_out);
    }
    if succ == cfg.vexit() || scoped_degree(cfg, succ, Direction::Incoming, scope) != 1 {
        return None;
    }
    proof {
        assert(sg_edges(g).contains_key(e_out));
        assert(edges_at(g, succ as nat, Direction::Incoming).contains(e_out));
        assert(scoped_edges(g, succ as nat, Direction::Incoming, sc).contains(e_out));
        crate::cfg_structuring::scope::lemma_scoped_edges_finite(cfg, succ as nat, Direction::Incoming, sc);
        lemma_only_neighbor(g, succ as nat, Direction::Incoming, sc, e_out);
    }
    Some(succ)
}

/// The longest sequence of nodes that starts at `head`, within `scope`: `None` where no sequence
/// can start there or it would hold `head` alone.
pub(crate) fn find_seq_with_scope(cfg: &RegionCfg, head: usize, scope: Option<&Vec<RegionId>>) -> (res: Option<Vec<usize>>)
    requires
        cfg.inner_spec().wf(),
    ensures
        res is None <==> seq_blocked(cfg.sg(), head as nat, cfg.vexit_spec() as nat, scope_view(scope)) || !seq_extends(
            cfg.sg(),
            head as nat,
            cfg.vexit_spec() as nat,
            scope_view(scope),
        ),
        res matches Some(chain) ==> chain@[0] == head && chain@.len() > 1 && chain@.no_duplicates() && is_seq_chain(
            cfg.sg(),
            cfg.vexit_spec() as nat,
            scope_view(scope),
            chain@,
        ),
{
    let ghost g = cfg.sg();
    let ghost sc = scope_view(scope);
    let ghost vx = cfg.vexit_spec() as nat;
    proof {
        cfg.inner_spec().lemma_wf();
    }
    if seq_start_blocked(cfg, head, scope) {
        return None;
    }
    let mut chain: Vec<usize> = Vec::new();
    chain.push(head);
    let mut target = head;
    let ghost n = sg_nodes(g).dom().len();
    loop
        invariant
            cfg.inner_spec().wf(),
            g == cfg.sg(),
            sc == scope_view(scope),
            vx == cfg.vexit_spec() as nat,
            crate::graph::sg_wf(g),
            n == sg_nodes(g).dom().len(),
            !seq_blocked(g, head as nat, vx, sc),
            chain@.len() >= 1,
            chain@[0] == head,
            target == chain@.last(),
            chain@.no_duplicates(),
            in_scope(g, target as nat, sc),
            forall|i: int| 1 <= i < chain@.len() ==> sg_nodes(g).contains_key(#[trigger] chain@[i] as nat),
            forall|i: int| 1 <= i < chain@.len() ==> seq_extends(g, #[trigger] chain@[i - 1] as nat, vx, sc)
                && only_neighbor(g, chain@[i - 1] as nat, Direction::Outgoing, sc) == Some(chain@[i] as nat),
            forall|i: int| 1 <= i < chain@.len() ==> only_neighbor(g, #[trigger] chain@[i] as nat, Direction::Incoming, sc)
                == Some(chain@[i - 1] as nat),
        ensures
            chain@.len() >= 1,
            chain@[0] == head,
            chain@.no_duplicates(),
            forall|i: int| 1 <= i < chain@.len() ==> seq_extends(g, #[trigger] chain@[i - 1] as nat, vx, sc)
                && only_neighbor(g, chain@[i - 1] as nat, Direction::Outgoing, sc) == Some(chain@[i] as nat),
            !seq_extends(g, chain@.last() as nat, vx, sc),
        decreases n + 1 - chain@.len(),
    {
        let succ = match seq_next(cfg, target, scope) {
            Some(s) => s,
            None => {
                break;
            },
        };
        proof {
            assert(!chain@.contains(succ)) by {
                if chain@.contains(succ) {
                    let j = choose|j: int| 0 <= j < chain@.len() && chain@[j] == succ;
                    if j == 0 {
                        assert(seq_blocked(g, head as nat, vx, sc));
                    } else {
                        assert(only_neighbor(g, chain@[j] as nat, Direction::Incoming, sc) == Some(chain@[j - 1] as nat));
                        assert(chain@[j - 1] == chain@[chain@.len() - 1]);
                    }
                }
            }
        }
        let ghost old_chain = chain@;
        chain.push(succ);
        target = succ;
        proof {
            assert forall|i: int| 1 <= i < chain@.len() implies seq_extends(g, #[trigger] chain@[i - 1] as nat, vx, sc)
                && only_neighbor(g, chain@[i - 1] as nat, Direction::Outgoing, sc) == Some(chain@[i] as nat) by {
                if i < old_chain.len() {
                    assert(chain@[i - 1] == old_chain[i - 1] && chain@[i] == old_chain[i]);
                }
            }
            assert forall|i: int| 1 <= i < chain@.len() implies only_neighbor(g, #[trigger] chain@[i] as nat, Direction::Incoming, sc)
                == Some(chain@[i - 1] as nat) by {
                if i < old_chain.len() {
                    assert(chain@[i - 1] == old_chain[i - 1] && chain@[i] == old_chain[i]);
                }
            }
            assert forall|i: int| 1 <= i < chain@.len() implies sg_nodes(g).contains_key(#[trigger] chain@[i] as nat) by {
                if i < old_chain.len() {
                    assert(chain@[i] == old_chain[i]);
                }
            }
            assert forall|j: int| 0 <= j < chain@.drop_first().len() implies sg_nodes(g).dom().contains(#[trigger] chain@.drop_first()[j] as nat) by {
                assert(chain@.drop_first()[j] == chain@[j + 1]);
            }
            lemma_distinct_len(chain@.drop_first(), sg_nodes(g).dom());
        }
    }
    if chain.len() > 1 {
        Some(chain)
    } else {
        None
    }
}

/// The longest sequence that starts at `head`.
pub(crate) fn find_seq(cfg: &RegionCfg, head: usize) -> (res: Option<Vec<usize>>)
    requires
        cfg.inner_spec().wf(),
    ensures
        res is None <==> seq_blocked(cfg.sg(), head as nat, cfg.vexit_spec() as nat, None) || !seq_extends(
            cfg.sg(),
            head as nat,
            cfg.vexit_spec() as nat,
            None,
        ),
        res matches Some(chain) ==> chain@[0] == head && chain@.len() > 1 && chain@.no_duplicates() && is_seq_chain(
            cfg.sg(),
            cfg.vexit_spec() as nat,
            None,
            chain@,
        ),
{
    find_seq_with_scope(cfg, head, None)
}

/// The longest sequence that starts at `head` among the regions of `scope`.
pub(crate) fn find_seq_in_scope(cfg: &RegionCfg, head: usize, scope: &Vec<RegionId>) -> (res: Option<Vec<usize>>)
    requires
        cfg.inner_spec().wf(),
    ensures
        res is None <==> seq_blocked(cfg.sg(), head as nat, cfg.vexit_spec() as nat, Some(scope@)) || !seq_extends(
            cfg.sg(),
            head as nat,
            cfg.vexit_spec() as nat,
            Some(scope@),
        ),
        res matches Some(chain) ==> chain@[0] == head && chain@.len() > 1 && chain@.no_duplicates() && is_seq_chain(
            cfg.sg(),
            cfg.vexit_spec() as nat,
            Some(scope@),
            chain@,
        ),
{
    find_seq_with_scope(cfg, head, Some(scope))
}

/// The keys of the nodes `nodes` in `g`.
pub open spec fn keys_of(g: Sg, nodes: Seq<usize>) -> Seq<RegionId> {
    nodes.map_values(|n: usize| sg_nodes(g)[n as nat])
}

/// The edges of `g` that touch none of `nodes` are edges of `h`, unchanged.
pub open spec fn edges_apart_kept(g: Sg, h: Sg, nodes: Seq<usize>) -> bool {
    forall|e: nat| #[trigger] sg_edges(g).contains_key(e) && !nodes.contains(sg_edges(g)[e].0 as usize)
        && !nodes.contains(sg_edges(g)[e].1 as usize) ==> sg_edges(h).contains_key(e) && sg_edges(h)[e] == sg_edges(g)[e]
}

/// Replaces the nodes of `seq` by one node of a new sequence region over their regions, which
/// takes the edges into the first node and out of the last; returns the new region.
pub(crate) fn contract_seq(region_cfg: &mut RegionCfg, regions: &mut RegionStore, seq: &[usize]) -> (res: RegionId)
    requires
        old(region_cfg).wf(old(regions)@.len()),
        old(regions).wf(),
        old(region_cfg).nodes().dom().len() + old(region_cfg).edges().dom().len() + 1 < 0x1000_0000,
        seq@.len() > 0,
        seq@.no_duplicates(),
        forall|i: int| 0 <= i < seq@.len() ==> old(region_cfg).nodes().contains_key(#[trigger] seq@[i] as nat),
    ensures
        final(regions).wf(),
        res == old(regions)@.len(),
        final(regions)@.len() == old(regions)@.len() + 1,
        final(regions)@.drop_last() == old(regions)@,
        final(regions)@.last() matches Region::Sequence(v) && v@ == keys_of(old(region_cfg).sg(), seq@),
        final(region_cfg).wf(final(regions)@.len()),
        final(region_cfg).vexit_spec() == old(region_cfg).vexit_spec(),
        exists|v: nat| !old(region_cfg).nodes().contains_key(v) && final(region_cfg).nodes() == old(region_cfg).nodes().remove_keys(
            seq@.map_values(|n: usize| n as nat).to_set(),
        ).insert(v, res),
        edges_apart_kept(old(region_cfg).sg(), final(region_cfg).sg(), seq@),
        final(region_cfg).nodes().dom().len() + final(region_cfg).edges().dom().len() <= old(region_cfg).nodes().dom().len()
            + old(region_cfg).edges().dom().len() + 1,
{
    let ghost g0 = region_cfg.sg();
    let ghost nodes0 = region_cfg.nodes();
    let head = seq[0];
    let tail = seq[seq.len() - 1];
    let mut inners: Vec<RegionId> = Vec::new();
    let mut i: usize = 0;
    while i < seq.len()
        invariant
            0 <= i <= seq@.len(),
            g0 == region_cfg.sg(),
            forall|k: int| 0 <= k < seq@.len() ==> region_cfg.nodes().contains_key(#[trigger] seq@[k] as nat),
            inners@ == keys_of(g0, seq@.take(i as int)),
            region_cfg.inner_spec().wf(),
        decreases seq@.len() - i,
    {
        let key = region_cfg.key_for_node(seq[i]).unwrap();
        inners.push(key);
        proof {
            assert(keys_of(g0, seq@.take(i + 1)) =~= keys_of(g0, seq@.take(i as int)).push(key));
        }
        i = i + 1;
    }
    proof {
        assert(seq@.take(seq@.len() as int) =~= seq@);
    }
    proof {
        region_cfg.inner_spec().lemma_wf();
    }
    let (id, node) = region_cfg.add_region(regions, Region::Sequence(inners));
    let ghost n = regions@.len();
    proof {
        assert(region_cfg.nodes().dom() =~= nodes0.dom().insert(node as nat));
    }
    region_cfg.redirect_edges(head, node, Direction::Incoming, Ghost(n));
    let ghost g1 = region_cfg.sg();
    region_cfg.redirect_edges(tail, node, Direction::Outgoing, Ghost(n));
    let ghost g2 = region_cfg.sg();
    let ghost nodes_mid = region_cfg.nodes();
    let mut j: usize = 0;
    while j < seq.len()
        invariant
            0 <= j <= seq@.len(),
            region_cfg.wf(n),
            n == regions@.len(),
            region_cfg.vexit_spec() == old(region_cfg).vexit_spec(),
            seq@.no_duplicates(),
            forall|k: int| j <= k < seq@.len() ==> region_cfg.nodes().contains_key(#[trigger] seq@[k] as nat),
            forall|x: nat| #[trigger] region_cfg.nodes().contains_key(x) <==> nodes_mid.contains_key(x) && !(exists|k: int|
                0 <= k < j && seq@[k] as nat == x),
            forall|x: nat| #[trigger] region_cfg.nodes().contains_key(x) ==> region_cfg.nodes()[x] == nodes_mid[x],
            forall|e: nat| #[trigger] sg_edges(g2).contains_key(e) && !seq@.contains(sg_edges(g2)[e].0 as usize)
                && !seq@.contains(sg_edges(g2)[e].1 as usize) ==> sg_edges(region_cfg.sg()).contains_key(e) && sg_edges(region_cfg.sg())[e]
                == sg_edges(g2)[e],
            region_cfg.nodes().dom().len() + region_cfg.edges().dom().len() <= nodes_mid.dom().len() + sg_edges(g2).dom().len(),
        decreases seq@.len() - j,
    {
        let ghost before = region_cfg.sg();
        proof {
            region_cfg.inner_spec().lemma_wf();
        }
        let r = region_cfg.remove_node_by_index(seq[j], Ghost(n));
        proof {
            assert(r is Ok);
            let x = seq@[j as int] as nat;
            assert forall|y: nat| #[trigger] region_cfg.nodes().contains_key(y) <==> nodes_mid.contains_key(y) && !(exists|k: int|
                0 <= k < j + 1 && seq@[k] as nat == y) by {
                if exists|k: int| 0 <= k < j + 1 && seq@[k] as nat == y {
                    let k = choose|k: int| 0 <= k < j + 1 && seq@[k] as nat == y;
                    if k < j {
                        assert(!sg_nodes(before).contains_key(y));
                    }
                }
            }
            assert forall|k: int| j + 1 <= k < seq@.len() implies region_cfg.nodes().contains_key(#[trigger] seq@[k] as nat) by {
                assert(seq@[k] != seq@[j as int]);
            }
            assert forall|e: nat| #[trigger] sg_edges(g2).contains_key(e) && !seq@.contains(sg_edges(g2)[e].0 as usize)
                && !seq@.contains(sg_edges(g2)[e].1 as usize) implies sg_edges(region_cfg.sg()).contains_key(e) && sg_edges(region_cfg.sg())[e]
                == sg_edges(g2)[e] by {
                assert(sg_edges(before).contains_key(e));
                assert(seq@.contains(seq@[j as int]));
                assert(sg_edges(g2)[e].0 != x) by {
                    if sg_edges(g2)[e].0 == x {
                        assert(sg_edges(g2)[e].0 as usize == seq@[j as int]);
                    }
                }
                assert(sg_edges(g2)[e].1 != x) by {
                    if sg_edges(g2)[e].1 == x {
                        assert(sg_edges(g2)[e].1 as usize == seq@[j as int]);
                    }
                }
            }
            assert(sg_edges(before).dom().finite());
            let kept = sg_edges(before).dom().filter(|e: nat| sg_edges(before)[e].0 != x && sg_edges(before)[e].1 != x);
            vstd::set_lib::lemma_len_subset(kept, sg_edges(before).dom());
            assert(region_cfg.edges().dom() =~= kept);
        }
        j = j + 1;
    }
    proof {
        let sset = seq@.map_values(|x: usize| x as nat).to_set();
        assert(seq@.take(seq@.len() as int) =~= seq@);
        assert(!sset.contains(node as nat)) by {
            if sset.contains(node as nat) {
                let ms = seq@.map_values(|x: usize| x as nat);
                let k = choose|k: int| 0 <= k < ms.len() && #[trigger] ms[k] == node as nat;
                assert(nodes0.contains_key(seq@[k] as nat));
            }
        }
        assert forall|y: nat| (exists|k: int| 0 <= k < seq@.len() && seq@[k] as nat == y) <==> #[trigger] sset.contains(y) by {
            let ms = seq@.map_values(|x: usize| x as nat);
            if exists|k: int| 0 <= k < seq@.len() && seq@[k] as nat == y {
                let k = choose|k: int| 0 <= k < seq@.len() && seq@[k] as nat == y;
                assert(ms[k] == y);
            }
            if sset.contains(y) {
                let k = choose|k: int| 0 <= k < ms.len() && #[trigger] ms[k] == y;
                assert(seq@[k] as nat == y);
            }
        }
        assert(region_cfg.nodes() =~= nodes0.remove_keys(sset).insert(node as nat, id));
        assert forall|e: nat| #[trigger] sg_edges(g0).contains_key(e) && !seq@.contains(sg_edges(g0)[e].0 as usize)
            && !seq@.contains(sg_edges(g0)[e].1 as usize) implies sg_edges(region_cfg.sg()).contains_key(e) && sg_edges(
            region_cfg.sg(),
        )[e] == sg_edges(g0)[e] by {
            assert(seq@.contains(head));
            assert(seq@.contains(tail));
            assert(!crate::cfg_structuring::region::moved_edges(g0, head, Seq::empty(), Direction::Incoming).contains(e));
            assert(sg_edges(g1).contains_key(e));
            assert(!crate::cfg_structuring::region::moved_edges(g1, tail, Seq::empty(), Direction::Outgoing).contains(e));
        }
    }
    id
}

} // verus!
