use vstd::prelude::*;

use std::collections::HashMap;

use crate::graph::{
    chain_reaches_root, edges_at, forward, is_dominator_tree, neighbor_set, neighbors_directed, node_of_key, node_set, reaches,
    sg_dfs_post_order, sg_immediate_dominators, sg_node_indices, sg_nodes, sg_wf, Direction, Sg,
};
use crate::llir::{
    defined_vars, defined_vars_of, insns_occurrences, upward_uses, upward_uses_of, vec_contains_var, Block, BlockId,
    BranchCondition, Function, Instruction, InstructionKind, PhiFunc, Place, Rhs, Terminator, TerminatorKind, Value, Var,
    VarRole,
};

verus! {

broadcast use vstd::std_specs::hash::group_hash_axioms, vstd::seq_lib::group_seq_properties;

/// Walking the chain of immediate dominators from `x`, `n` comes before `stop` (within `k`
/// steps).
pub open spec fn before_stop(idom: Map<usize, usize>, x: usize, n: usize, stop: usize, k: nat) -> bool
    decreases k,
{
    if x == stop {
        false
    } else if x == n {
        true
    } else if k == 0 {
        false
    } else {
        idom.contains_key(x) && before_stop(idom, idom[x], n, stop, (k - 1) as nat)
    }
}

/// `b` is in the dominance frontier of `n`: `b` is reached, has at least two incoming edges,
/// and the dominator chain from one of its reached predecessors meets `n` before it meets the
/// immediate dominator of `b`.
pub open spec fn in_frontier(g: Sg, idom: Map<usize, usize>, root: usize, n: usize, b: usize) -> bool {
    &&& idom.contains_key(b)
    &&& edges_at(g, b as nat, Direction::Incoming).len() >= 2
    &&& exists|p: usize|
        neighbor_set(g, b as nat, Direction::Incoming).contains(p as nat) && (p == root || idom.contains_key(p))
            && #[trigger] before_stop(idom, p, n, idom[b], node_set(g).len())
}

/// Whether `n` comes before `stop` on the dominator chain from `x`, which is reached.
fn walks_to(
    idom: &HashMap<usize, usize>,
    root: usize,
    x: usize,
    n: usize,
    stop: usize,
    Ghost(g): Ghost<Sg>,
) -> (res: bool)
    requires
        is_dominator_tree(node_set(g), forward(g), root, idom@),
        x == root || idom@.contains_key(x),
    ensures
        res == before_stop(idom@, x, n, stop, node_set(g).len()),
{
    let ghost big = node_set(g).len();
    let mut cur = x;
    let ghost mut k: nat = big;
    proof {
        if x != root {
            assert(chain_reaches_root(idom@, root, x, big));
        }
    }
    while cur != stop && cur != n
        invariant
            is_dominator_tree(node_set(g), forward(g), root, idom@),
            cur == root || chain_reaches_root(idom@, root, cur, k),
            cur == root ==> !idom@.contains_key(cur),
            before_stop(idom@, x, n, stop, big) == before_stop(idom@, cur, n, stop, k),
            big == node_set(g).len(),
        decreases k,
    {
        match idom.get(&cur) {
            None => {
                proof {
                    assert(cur == root);
                    assert(!idom@.contains_key(root));
                    assert(!before_stop(idom@, cur, n, stop, k));
                }
                return false;
            },
            Some(p) => {
                assert(cur != root);
                assert(k > 0);
                cur = *p;
                proof {
                    k = (k - 1) as nat;
                    if cur != root {
                        assert(idom@.contains_key(cur) || !idom@.contains_key(cur));
                    }
                }
            },
        }
    }
    cur != stop
}

/// The dominance frontier of `n`: the nodes `b` with `in_frontier(g, idom, root, n, b)`, in
/// ascending order.
fn frontier_of(g: &Sg, idom: &HashMap<usize, usize>, root: usize, n: usize) -> (res: Vec<usize>)
    requires
        sg_wf(*g),
        is_dominator_tree(node_set(*g), forward(*g), root, idom@),
    ensures
        forall|b: usize| #[trigger] res@.contains(b) <==> in_frontier(*g, idom@, root, n, b),
        forall|i: int| 0 <= i < res@.len() ==> sg_nodes(*g).contains_key(#[trigger] res@[i] as nat),
        res@.no_duplicates(),
{
    let nodes = sg_node_indices(g);
    let mut res: Vec<usize> = Vec::new();
    let mut i: usize = 0;
    while i < nodes.len()
        invariant
            0 <= i <= nodes@.len(),
            sg_wf(*g),
            is_dominator_tree(node_set(*g), forward(*g), root, idom@),
            crate::graph::strictly_ascending(nodes@),
            forall|x: usize| #[trigger] nodes@.contains(x) <==> sg_nodes(*g).contains_key(x as nat),
            forall|b: usize| #[trigger] res@.contains(b) <==> (exists|j: int| 0 <= j < i && nodes@[j] == b) && in_frontier(
                *g,
                idom@,
                root,
                n,
                b,
            ),
            forall|k: int| 0 <= k < res@.len() ==> sg_nodes(*g).contains_key(#[trigger] res@[k] as nat),
            forall|k: int, l: int| 0 <= k < l < res@.len() ==> res@[k] < res@[l],
            forall|k: int| 0 <= k < res@.len() ==> exists|j: int| 0 <= j < i && nodes@[j] == #[trigger] res@[k],
        decreases nodes@.len() - i,
    {
        let b = nodes[i];
        proof {
            assert(nodes@.contains(b));
        }
        let found = frontier_member(g, idom, root, n, b);
        proof {
            assert forall|k: int| 0 <= k < res@.len() implies res@[k] < b by {
                let j = choose|j: int| 0 <= j < i && nodes@[j] == res@[k];
                assert(nodes@[j] < nodes@[i as int]);
            }
            assert(!res@.contains(b));
        }
        let ghost old_res = res@;
        if found {
            res.push(b);
        }
        proof {
            assert forall|b2: usize| #[trigger] res@.contains(b2) <==> (exists|j: int| 0 <= j < i + 1 && nodes@[j] == b2) && in_frontier(
                *g,
                idom@,
                root,
                n,
                b2,
            ) by {
                if b2 == b {
                    assert(nodes@[i as int] == b2);
                    if !found {
                        assert(res@ == old_res);
                    }
                } else if exists|j: int| 0 <= j < i + 1 && nodes@[j] == b2 {
                    let j = choose|j: int| 0 <= j < i + 1 && nodes@[j] == b2;
                    assert(j < i);
                }
            }
            assert forall|k: int| 0 <= k < res@.len() implies exists|j: int| 0 <= j < i + 1 && nodes@[j] == #[trigger] res@[k] by {
                if k == res@.len() - 1 && found {
                    assert(nodes@[i as int] == res@[k]);
                } else {
                    let j = choose|j: int| 0 <= j < i && nodes@[j] == res@[k];
                    assert(nodes@[j] == res@[k]);
                }
            }
        }
        i = i + 1;
    }
    proof {
        assert forall|b: usize| #[trigger] res@.contains(b) <==> in_frontier(*g, idom@, root, n, b) by {
            if in_frontier(*g, idom@, root, n, b) {
                let p = choose|p: usize|
                    neighbor_set(*g, b as nat, Direction::Incoming).contains(p as nat) && (p == root || idom@.contains_key(p))
                        && #[trigger] before_stop(idom@, p, n, idom@[b], node_set(*g).len());
                crate::graph::lemma_edge_neighbor_is_node(*g, b as nat, p as nat, Direction::Incoming);
                assert(b < u32::MAX);
                assert(nodes@.contains(b));
            }
        }
    }
    res
}

/// Whether `b` is in the dominance frontier of `n`.
fn frontier_member(g: &Sg, idom: &HashMap<usize, usize>, root: usize, n: usize, b: usize) -> (res: bool)
    requires
        sg_wf(*g),
        is_dominator_tree(node_set(*g), forward(*g), root, idom@),
    ensures
        res == in_frontier(*g, idom@, root, n, b),
{
    let stop = match idom.get(&b) {
        Some(d) => *d,
        None => {
            return false;
        },
    };
    let preds = neighbors_directed(g, b, Direction::Incoming);
    if preds.len() < 2 {
        return false;
    }
    let mut j: usize = 0;
    while j < preds.len()
        invariant
            0 <= j <= preds@.len(),
            sg_wf(*g),
            is_dominator_tree(node_set(*g), forward(*g), root, idom@),
            idom@.contains_key(b),
            stop == idom@[b],
            preds@.len() == edges_at(*g, b as nat, Direction::Incoming).len(),
            preds@.len() >= 2,
            forall|m: usize| #[trigger] preds@.contains(m) <==> neighbor_set(*g, b as nat, Direction::Incoming).contains(m as nat),
            forall|k: int| 0 <= k < j ==> !((preds@[k] == root || idom@.contains_key(preds@[k])) && #[trigger] before_stop(
                idom@,
                preds@[k],
                n,
                stop,
                node_set(*g).len(),
            )),
        decreases preds@.len() - j,
    {
        let p = preds[j];
        if p == root || idom.contains_key(&p) {
            if walks_to(idom, root, p, n, stop, Ghost(*g)) {
                proof {
                    assert(preds@.contains(p));
                    assert(neighbor_set(*g, b as nat, Direction::Incoming).contains(p as nat));
                    assert(before_stop(idom@, p, n, idom@[b], node_set(*g).len()));
                }
                return true;
            }
        }
        j = j + 1;
    }
    proof {
        assert forall|p: usize|
            neighbor_set(*g, b as nat, Direction::Incoming).contains(p as nat) && (p == root || idom@.contains_key(p))
                implies !#[trigger] before_stop(idom@, p, n, idom@[b], node_set(*g).len()) by {
            assert(preds@.contains(p));
            let k = choose|k: int| 0 <= k < preds@.len() && preds@[k] == p;
        }
    }
    false
}

/// The block that node `n` of `func`'s graph stands for.
pub open spec fn node_block(func: Function, n: usize) -> Block {
    func.blocks_spec()[func.cfg_spec().nodes()[n as nat] as int]
}

/// The variables a block reads before it defines their place.
pub open spec fn block_uses(b: Block) -> Set<Var> {
    upward_uses(b.occurrences())
}

/// The variables a block defines.
pub open spec fn block_defs(b: Block) -> Set<Var> {
    defined_vars(b.occurrences())
}

/// The variables live on leaving node `n`: those live on entering one of its successors.
pub open spec fn live_out(g: Sg, live: Map<usize, Set<Var>>, n: usize) -> Set<Var> {
    Set::new(
        |v: Var|
            exists|s: usize|
                neighbor_set(g, n as nat, Direction::Outgoing).contains(s as nat) && live.contains_key(s) && #[trigger] live[s].contains(
                    v,
                ),
    )
}

/// The dataflow equation of liveness at node `n`: what the block reads, and what is live on
/// leaving it that it does not define.
pub open spec fn live_equation(func: Function, live: Map<usize, Set<Var>>, n: usize) -> Set<Var> {
    block_uses(node_block(func, n)) + live_out(func.cfg_spec().sg(), live, n).difference(block_defs(node_block(func, n)))
}

pub open spec fn live_view(m: Map<usize, Vec<Var>>) -> Map<usize, Set<Var>> {
    m.map_values(|v: Vec<Var>| v@.to_set())
}

/// `live` gives every node reached from the entry a set of live variables that solves the
/// liveness equation there, and gives no other node one.
pub open spec fn is_liveness(func: Function, live: Map<usize, Set<Var>>) -> bool {
    let g = func.cfg_spec().sg();
    &&& forall|n: usize| #[trigger] live.contains_key(n) <==> reaches(node_set(g), forward(g), func.entry_spec() as nat, n as nat)
    &&& forall|n: usize| #[trigger] live.contains_key(n) ==> live[n] == live_equation(func, live, n)
}

/// Every set that `live` gives a node lies within the one that `sol` gives it.
pub open spec fn live_below(live: Map<usize, Set<Var>>, sol: Map<usize, Set<Var>>) -> bool {
    forall|n: usize| #[trigger] live.contains_key(n) ==> sol.contains_key(n) && live[n].subset_of(sol[n])
}

/// Below a solution of the liveness equations, the equation at a node reached from the entry
/// gives no more than that solution does there.
proof fn lemma_equation_below(func: Function, live: Map<usize, Set<Var>>, sol: Map<usize, Set<Var>>, n: usize)
    requires
        is_liveness(func, sol),
        live_below(live, sol),
        sol.contains_key(n),
    ensures
        live_equation(func, live, n).subset_of(sol[n]),
{
    let g = func.cfg_spec().sg();
    assert forall|v: Var| #[trigger] live_out(g, live, n).contains(v) implies live_out(g, sol, n).contains(v) by {
        let s = choose|s: usize| neighbor_set(g, n as nat, Direction::Outgoing).contains(s as nat) && live.contains_key(s)
            && #[trigger] live[s].contains(v);
        assert(sol[s].contains(v));
    }
    assert(sol[n] == live_equation(func, sol, n));
}

/// The variables that the block of node `n` reads before defining, and those it defines.
fn node_uses_defs(func: &Function, n: usize) -> (res: (Vec<Var>, Vec<Var>))
    requires
        func.wf(),
        func.keys_in_arena(),
        func.cfg_spec().nodes().contains_key(n as nat),
    ensures
        res.0@.to_set() == block_uses(node_block(*func, n)),
        res.0@.no_duplicates(),
        res.1@.to_set() == block_defs(node_block(*func, n)),
{
    let id = func.block_for_node(n);
    let block = func.block(id);
    let occs = block.occurrence_list();
    let uses = upward_uses_of(&occs);
    let defs = defined_vars_of(&occs);
    proof {
        assert(uses@.to_set() =~= block_uses(node_block(*func, n)));
        assert(defs@.to_set() =~= block_defs(node_block(*func, n)));
    }
    (uses, defs)
}

/// The set of variables live on entering node `n`, by the liveness equation over `live`.
fn node_live_in(g: &Sg, uses: &Vec<Var>, defs: &Vec<Var>, live: &HashMap<usize, Vec<Var>>, n: usize) -> (res: Vec<Var>)
    requires
        sg_wf(*g),
        uses@.no_duplicates(),
    ensures
        res@.to_set() == uses@.to_set() + live_out(*g, live_view(live@), n).difference(defs@.to_set()),
        res@.no_duplicates(),
{
    let succs = neighbors_directed(g, n, Direction::Outgoing);
    let mut res = uses.clone();
    let mut j: usize = 0;
    while j < succs.len()
        invariant
            0 <= j <= succs@.len(),
            res@.no_duplicates(),
            forall|v: Var| #[trigger] res@.contains(v) <==> uses@.contains(v) || (!defs@.contains(v) && exists|k: int|
                0 <= k < j && live@.contains_key(succs@[k]) && #[trigger] live@[succs@[k]]@.contains(v)),
        decreases succs@.len() - j,
    {
        let s = succs[j];
        match live.get(&s) {
            Some(vs) => {
                let mut t: usize = 0;
                while t < vs.len()
                    invariant
                        0 <= t <= vs@.len(),
                        live@.contains_key(s),
                        live@[s] == *vs,
                        s == succs@[j as int],
                        res@.no_duplicates(),
                        forall|v: Var| #[trigger] res@.contains(v) <==> uses@.contains(v) || (!defs@.contains(v) && ((exists|k: int|
                            0 <= k < j && live@.contains_key(succs@[k]) && #[trigger] live@[succs@[k]]@.contains(v)) || exists|q: int|
                            0 <= q < t && vs@[q] == v)),
                    decreases vs@.len() - t,
                {
                    let v = vs[t];
                    if !vec_contains_var(defs, v) && !vec_contains_var(&res, v) {
                        res.push(v);
                    }
                    proof {
                        assert forall|w: Var| #[trigger] res@.contains(w) <==> uses@.contains(w) || (!defs@.contains(w) && ((exists|k: int|
                            0 <= k < j && live@.contains_key(succs@[k]) && #[trigger] live@[succs@[k]]@.contains(w)) || exists|q: int|
                            0 <= q < t + 1 && vs@[q] == w)) by {
                            if w == v && !defs@.contains(w) {
                                assert(vs@[t as int] == w);
                            }
                            if exists|q: int| 0 <= q < t + 1 && vs@[q] == w {
                                let q = choose|q: int| 0 <= q < t + 1 && vs@[q] == w;
                                if q < t {
                                    assert(exists|q2: int| 0 <= q2 < t && vs@[q2] == w);
                                }
                            }
                        }
                    }
                    t = t + 1;
                }
                proof {
                    assert forall|v: Var| #[trigger] res@.contains(v) <==> uses@.contains(v) || (!defs@.contains(v) && exists|k: int|
                        0 <= k < j + 1 && live@.contains_key(succs@[k]) && #[trigger] live@[succs@[k]]@.contains(v)) by {
                        if exists|q: int| 0 <= q < vs@.len() && vs@[q] == v {
                            assert(live@[succs@[j as int]]@.contains(v));
                        }
                        if live@[succs@[j as int]]@.contains(v) {
                            let q = choose|q: int| 0 <= q < vs@.len() && vs@[q] == v;
                        }
                        if exists|k: int| 0 <= k < j + 1 && live@.contains_key(succs@[k]) && #[trigger] live@[succs@[k]]@.contains(v) {
                            let k = choose|k: int| 0 <= k < j + 1 && live@.contains_key(succs@[k]) && #[trigger] live@[succs@[k]]@.contains(v);
                            if k < j {
                                assert(exists|k2: int| 0 <= k2 < j && live@.contains_key(succs@[k2]) && #[trigger] live@[succs@[k2]]@.contains(v));
                            }
                        }
                    }
                }
            },
            None => {
                proof {
                    assert forall|v: Var| #[trigger] res@.contains(v) <==> uses@.contains(v) || (!defs@.contains(v) && exists|k: int|
                        0 <= k < j + 1 && live@.contains_key(succs@[k]) && #[trigger] live@[succs@[k]]@.contains(v)) by {
                        if exists|k: int| 0 <= k < j + 1 && live@.contains_key(succs@[k]) && #[trigger] live@[succs@[k]]@.contains(v) {
                            let k = choose|k: int| 0 <= k < j + 1 && live@.contains_key(succs@[k]) && #[trigger] live@[succs@[k]]@.contains(v);
                            assert(k < j);
                        }
                    }
                }
            },
        }
        j = j + 1;
    }
    proof {
        let lv = live_view(live@);
        assert forall|v: Var| #[trigger] res@.to_set().contains(v) <==> (uses@.to_set() + live_out(*g, lv, n).difference(defs@.to_set())).contains(v) by {
            if live_out(*g, lv, n).contains(v) {
                let s = choose|s: usize| neighbor_set(*g, n as nat, Direction::Outgoing).contains(s as nat) && lv.contains_key(s) && #[trigger] lv[s].contains(v);
                assert(succs@.contains(s));
                let k = choose|k: int| 0 <= k < succs@.len() && succs@[k] == s;
                assert(live@[succs@[k]]@.contains(v));
            }
            if exists|k: int| 0 <= k < succs@.len() && live@.contains_key(succs@[k]) && #[trigger] live@[succs@[k]]@.contains(v) {
                let k = choose|k: int| 0 <= k < succs@.len() && live@.contains_key(succs@[k]) && #[trigger] live@[succs@[k]]@.contains(v);
                assert(succs@.contains(succs@[k]));
                assert(lv[succs@[k]].contains(v));
            }
        }
        assert(res@.to_set() =~= uses@.to_set() + live_out(*g, lv, n).difference(defs@.to_set()));
    }
    res
}

/// Whether `a` and `b` hold the same variables.
fn same_vars(a: &Vec<Var>, b: &Vec<Var>) -> (res: bool)
    ensures
        res == (a@.to_set() == b@.to_set()),
{
    let mut i: usize = 0;
    while i < a.len()
        invariant
            0 <= i <= a@.len(),
            forall|k: int| 0 <= k < i ==> b@.contains(#[trigger] a@[k]),
        decreases a@.len() - i,
    {
        if !vec_contains_var(b, a[i]) {
            proof {
                assert(a@.to_set().contains(a@[i as int]));
                assert(!b@.to_set().contains(a@[i as int]));
            }
            return false;
        }
        i = i + 1;
    }
    let mut j: usize = 0;
    while j < b.len()
        invariant
            0 <= j <= b@.len(),
            forall|k: int| 0 <= k < a@.len() ==> b@.contains(#[trigger] a@[k]),
            forall|k: int| 0 <= k < j ==> a@.contains(#[trigger] b@[k]),
        decreases b@.len() - j,
    {
        if !vec_contains_var(a, b[j]) {
            proof {
                assert(b@.to_set().contains(b@[j as int]));
                assert(!a@.to_set().contains(b@[j as int]));
            }
            return false;
        }
        j = j + 1;
    }
    proof {
        assert forall|v: Var| a@.to_set().contains(v) <==> b@.to_set().contains(v) by {
            if a@.contains(v) {
                let k = choose|k: int| 0 <= k < a@.len() && a@[k] == v;
                assert(b@.contains(a@[k]));
            }
            if b@.contains(v) {
                let k = choose|k: int| 0 <= k < b@.len() && b@[k] == v;
                assert(a@.contains(b@[k]));
            }
        }
        assert(a@.to_set() =~= b@.to_set());
    }
    true
}

/// Every list that `live` holds is without repeats and within `universe`.
pub open spec fn lists_within(live: Map<usize, Vec<Var>>, universe: Seq<Var>) -> bool {
    forall|n: usize| #[trigger] live.contains_key(n) ==> live[n]@.no_duplicates() && live[n]@.to_set().subset_of(universe.to_set())
}

/// Every set that `live` gives a node lies within what the liveness equation there gives.
pub open spec fn below_equations(func: Function, live: Map<usize, Set<Var>>) -> bool {
    forall|n: usize| #[trigger] live.contains_key(n) ==> live[n].subset_of(live_equation(func, live, n))
}

/// What is left to gain at node `n`: one more than the number of variables of a universe of
/// `b` where `live` holds no list for it yet, else the variables of the universe not in its list.
pub open spec fn slot(live: Map<usize, Vec<Var>>, n: usize, b: nat) -> nat {
    if live.contains_key(n) {
        (b - live[n]@.len()) as nat
    } else {
        b + 1
    }
}

/// What is left to gain over the nodes of `order`.
pub open spec fn potential(live: Map<usize, Vec<Var>>, order: Seq<usize>, b: nat) -> nat
    decreases order.len(),
{
    if order.len() == 0 {
        0
    } else {
        potential(live, order.drop_last(), b) + slot(live, order.last(), b)
    }
}

/// Where no slot grows and one shrinks, the potential shrinks.
proof fn lemma_potential_shrinks(a: Map<usize, Vec<Var>>, c: Map<usize, Vec<Var>>, order: Seq<usize>, b: nat)
    requires
        forall|k: int| 0 <= k < order.len() ==> slot(a, #[trigger] order[k], b) <= slot(c, order[k], b),
    ensures
        potential(a, order, b) <= potential(c, order, b),
        (exists|k: int| 0 <= k < order.len() && slot(a, #[trigger] order[k], b) < slot(c, order[k], b)) ==> potential(a, order, b)
            < potential(c, order, b),
    decreases order.len(),
{
    if order.len() > 0 {
        let rest = order.drop_last();
        assert forall|k: int| 0 <= k < rest.len() implies slot(a, #[trigger] rest[k], b) <= slot(c, rest[k], b) by {
            assert(rest[k] == order[k]);
        }
        lemma_potential_shrinks(a, c, rest, b);
        assert(slot(a, order[order.len() - 1], b) <= slot(c, order[order.len() - 1], b));
        if exists|k: int| 0 <= k < order.len() && slot(a, #[trigger] order[k], b) < slot(c, order[k], b) {
            let k = choose|k: int| 0 <= k < order.len() && slot(a, #[trigger] order[k], b) < slot(c, order[k], b);
            if k < order.len() - 1 {
                assert(rest[k] == order[k]);
                assert(slot(a, rest[k], b) < slot(c, rest[k], b));
            }
        }
    }
}

/// A list without repeats whose items lie in another such list is no longer than it, and is
/// shorter where the other holds an item that it lacks.
proof fn lemma_unique_len(a: Seq<Var>, c: Seq<Var>)
    requires
        a.no_duplicates(),
        c.no_duplicates(),
        a.to_set().subset_of(c.to_set()),
    ensures
        a.len() <= c.len(),
        a.to_set() != c.to_set() ==> a.len() < c.len(),
{
    a.unique_seq_to_set();
    c.unique_seq_to_set();
    vstd::seq_lib::seq_to_set_is_finite(c);
    vstd::set_lib::lemma_len_subset(a.to_set(), c.to_set());
    if a.to_set() != c.to_set() {
        if !(exists|x: Var| c.to_set().contains(x) && !a.to_set().contains(x)) {
            assert(a.to_set() =~= c.to_set());
        }
        let x = choose|x: Var| c.to_set().contains(x) && !a.to_set().contains(x);
        assert(a.to_set().subset_of(c.to_set().remove(x)));
        vstd::set_lib::lemma_len_subset(a.to_set(), c.to_set().remove(x));
    }
}

/// The liveness equations only grow as the sets they read grow.
proof fn lemma_equation_grows(func: Function, a: Map<usize, Set<Var>>, c: Map<usize, Set<Var>>, n: usize)
    requires
        live_below(a, c),
    ensures
        live_equation(func, a, n).subset_of(live_equation(func, c, n)),
{
    let g = func.cfg_spec().sg();
    assert forall|v: Var| #[trigger] live_out(g, a, n).contains(v) implies live_out(g, c, n).contains(v) by {
        let s = choose|s: usize| neighbor_set(g, n as nat, Direction::Outgoing).contains(s as nat) && a.contains_key(s)
            && #[trigger] a[s].contains(v);
        assert(c[s].contains(v));
    }
}

/// Every variable that the block of a node of `order` reads before defining, each once.
fn uses_of_nodes(func: &Function, order: &Vec<usize>) -> (res: Vec<Var>)
    requires
        func.wf(),
        func.keys_in_arena(),
        forall|i: int| 0 <= i < order@.len() ==> func.cfg_spec().nodes().contains_key(#[trigger] order@[i] as nat),
    ensures
        res@.no_duplicates(),
        forall|k: int, v: Var| 0 <= k < order@.len() && #[trigger] block_uses(node_block(*func, order@[k])).contains(v) ==> res@.contains(v),
{
    let mut res: Vec<Var> = Vec::new();
    let mut i: usize = 0;
    while i < order.len()
        invariant
            0 <= i <= order@.len(),
            func.wf(),
            func.keys_in_arena(),
            forall|j: int| 0 <= j < order@.len() ==> func.cfg_spec().nodes().contains_key(#[trigger] order@[j] as nat),
            res@.no_duplicates(),
            forall|k: int, v: Var| 0 <= k < i && #[trigger] block_uses(node_block(*func, order@[k])).contains(v) ==> res@.contains(v),
        decreases order@.len() - i,
    {
        let (uses, _) = node_uses_defs(func, order[i]);
        let ghost res0 = res@;
        let mut t: usize = 0;
        while t < uses.len()
            invariant
                0 <= t <= uses@.len(),
                res@.no_duplicates(),
                forall|v: Var| #[trigger] res0.contains(v) ==> res@.contains(v),
                forall|q: int| 0 <= q < t ==> res@.contains(#[trigger] uses@[q]),
            decreases uses@.len() - t,
        {
            let v = uses[t];
            if !vec_contains_var(&res, v) {
                res.push(v);
            }
            proof {
                assert(res@.contains(v));
                assert forall|w: Var| #[trigger] res0.contains(w) implies res@.contains(w) by {}
            }
            t = t + 1;
        }
        proof {
            assert forall|k: int, v: Var| 0 <= k < i + 1 && #[trigger] block_uses(node_block(*func, order@[k])).contains(v) implies res@.contains(v) by {
                if k == i {
                    assert(uses@.to_set().contains(v));
                    let q = choose|q: int| 0 <= q < uses@.len() && uses@[q] == v;
                    assert(res@.contains(uses@[q]));
                } else {
                    assert(res0.contains(v));
                }
            }
        }
        i = i + 1;
    }
    res
}

/// The variables live on entering each node reached from the entry: the least solution of the
/// liveness equations, found by iterating them in post order from empty sets until they settle.
pub(crate) fn compute_live_in(func: &Function) -> (res: HashMap<usize, Vec<Var>>)
    requires
        func.wf(),
        func.keys_in_arena(),
    ensures
        is_liveness(*func, live_view(res@)),
        forall|sol: Map<usize, Set<Var>>| #[trigger] is_liveness(*func, sol) ==> live_below(live_view(res@), sol),
{
    proof {
        func.lemma_wf();
        func.cfg_spec().lemma_wf();
    }
    let g = func.cfg().graph();
    let entry = func.entry();
    let order = sg_dfs_post_order(g, entry);
    proof {
        assert forall|i: int| 0 <= i < order@.len() implies func.cfg_spec().nodes().contains_key(#[trigger] order@[i] as nat) by {
            assert(order@.contains(order@[i]));
            crate::graph::lemma_reached_is_node(node_set(*g), forward(*g), entry as nat, order@[i] as nat);
        }
    }
    let universe = uses_of_nodes(func, &order);
    let bound = universe.len();
    let mut live: HashMap<usize, Vec<Var>> = HashMap::new();
    proof {
        assert(live_view(live@) =~= Map::<usize, Set<Var>>::empty());
    }
    loop
        invariant
            func.wf(),
            func.keys_in_arena(),
            *g == func.cfg_spec().sg(),
            sg_wf(*g),
            entry == func.entry_spec(),
            forall|x: usize| #[trigger] order@.contains(x) <==> reaches(node_set(*g), forward(*g), entry as nat, x as nat),
            forall|i: int| 0 <= i < order@.len() ==> func.cfg_spec().nodes().contains_key(#[trigger] order@[i] as nat),
            universe@.no_duplicates(),
            bound == universe@.len(),
            forall|k: int, v: Var| 0 <= k < order@.len() && #[trigger] block_uses(node_block(*func, order@[k])).contains(v) ==> universe@.contains(v),
            forall|x: usize| #[trigger] live@.contains_key(x) ==> order@.contains(x),
            forall|sol: Map<usize, Set<Var>>| #[trigger] is_liveness(*func, sol) ==> live_below(live_view(live@), sol),
            lists_within(live@, universe@),
            below_equations(*func, live_view(live@)),
        decreases potential(live@, order@, bound as nat),
    {
        let mut changed = false;
        let ghost m0 = live_view(live@);
        let ghost live0 = live@;
        let mut i: usize = 0;
        while i < order.len()
            invariant
                0 <= i <= order@.len(),
                func.wf(),
                func.keys_in_arena(),
                *g == func.cfg_spec().sg(),
                sg_wf(*g),
                entry == func.entry_spec(),
                forall|x: usize| #[trigger] order@.contains(x) <==> reaches(node_set(*g), forward(*g), entry as nat, x as nat),
                forall|j: int| 0 <= j < order@.len() ==> func.cfg_spec().nodes().contains_key(#[trigger] order@[j] as nat),
                universe@.no_duplicates(),
                bound == universe@.len(),
                forall|k: int, v: Var| 0 <= k < order@.len() && #[trigger] block_uses(node_block(*func, order@[k])).contains(v) ==> universe@.contains(v),
                forall|x: usize| #[trigger] live@.contains_key(x) ==> order@.contains(x),
                forall|j: int| 0 <= j < i ==> live@.contains_key(#[trigger] order@[j]),
                forall|sol: Map<usize, Set<Var>>| #[trigger] is_liveness(*func, sol) ==> live_below(live_view(live@), sol),
                lists_within(live@, universe@),
                lists_within(live0, universe@),
                below_equations(*func, live_view(live@)),
                live_below(m0, live_view(live@)),
                m0 == live_view(live0),
                forall|k: int| 0 <= k < order@.len() ==> slot(live@, #[trigger] order@[k], bound as nat) <= slot(live0, order@[k], bound as nat),
                changed ==> exists|k: int| 0 <= k < order@.len() && slot(live@, #[trigger] order@[k], bound as nat) < slot(
                    live0,
                    order@[k],
                    bound as nat,
                ),
                !changed ==> live_view(live@) == m0,
                !changed ==> forall|j: int| 0 <= j < i ==> live_view(live@)[#[trigger] order@[j]] == live_equation(*func, live_view(live@), order@[j]),
            decreases order@.len() - i,
        {
            let node = order[i];
            proof {
                assert(order@.contains(node));
                crate::graph::lemma_reached_is_node(node_set(*g), forward(*g), entry as nat, node as nat);
            }
            let (uses, defs) = node_uses_defs(func, node);
            let new_set = node_live_in(g, &uses, &defs, &live, node);
            let same = match live.get(&node) {
                Some(old) => same_vars(old, &new_set),
                None => false,
            };
            let ghost before = live@;
            let ghost lv = live_view(before);
            proof {
                assert(new_set@.to_set() == live_equation(*func, lv, node));
            }
            if !same {
                changed = true;
            }
            live.insert(node, new_set);
            proof {
                let lv1 = live_view(live@);
                if !changed {
                    assert(live_view(live@) =~= live_view(before));
                }
                assert(lv1 =~= lv.insert(node, new_set@.to_set()));
                assert forall|sol: Map<usize, Set<Var>>| #[trigger] is_liveness(*func, sol) implies live_below(lv1, sol) by {
                    assert(sol.contains_key(node));
                    lemma_equation_below(*func, lv, sol, node);
                }
                // the lists stay within the universe
                assert forall|n: usize| #[trigger] live@.contains_key(n) implies live@[n]@.no_duplicates() && live@[n]@.to_set().subset_of(
                    universe@.to_set(),
                ) by {
                    if n == node {
                        assert forall|v: Var| #[trigger] new_set@.to_set().contains(v) implies universe@.to_set().contains(v) by {
                            let k = choose|k: int| 0 <= k < order@.len() && order@[k] == node;
                            if block_uses(node_block(*func, order@[k])).contains(v) {
                                assert(universe@.contains(v));
                            } else {
                                let sx = choose|sx: usize| neighbor_set(*g, node as nat, Direction::Outgoing).contains(sx as nat) && lv.contains_key(sx)
                                    && #[trigger] lv[sx].contains(v);
                                assert(before[sx]@.to_set().contains(v));
                            }
                        }
                    }
                }
                // the sets only grow, and stay below the equations
                assert(live_below(lv, lv1)) by {
                    if lv.contains_key(node) {
                        assert(lv[node].subset_of(live_equation(*func, lv, node)));
                    }
                }
                assert forall|n: usize| #[trigger] lv1.contains_key(n) implies lv1[n].subset_of(live_equation(*func, lv1, n)) by {
                    lemma_equation_grows(*func, lv, lv1, n);
                }
                assert(live_below(m0, lv1));
                // no slot grows
                if before.contains_key(node) {
                    assert(lv.contains_key(node));
                    assert(lv[node].subset_of(live_equation(*func, lv, node)));
                    assert(lv1[node] == new_set@.to_set());
                    assert(before[node]@.to_set() == lv[node]);
                    assert(before[node]@.to_set().subset_of(new_set@.to_set()));
                    assert(before[node]@.no_duplicates());
                }
                assert(new_set@.to_set().subset_of(universe@.to_set()));
                assert forall|n: usize| slot(live@, n, bound as nat) <= #[trigger] slot(before, n, bound as nat) by {
                    if n == node && before.contains_key(n) {
                        lemma_unique_len(before[n]@, universe@);
                        lemma_unique_len(new_set@, universe@);
                        lemma_unique_len(before[n]@, new_set@);
                    } else if n == node {
                        lemma_unique_len(new_set@, universe@);
                    }
                }
                assert forall|k: int| 0 <= k < order@.len() implies slot(live@, #[trigger] order@[k], bound as nat) <= slot(live0, order@[k], bound as nat) by {
                    assert(slot(live@, order@[k], bound as nat) <= slot(before, order@[k], bound as nat));
                }
                if !same {
                    assert(order@[i as int] == node);
                    if before.contains_key(node) {
                        assert(before[node]@.to_set() != new_set@.to_set());
                        lemma_unique_len(before[node]@, new_set@);
                        lemma_unique_len(new_set@, universe@);
                        if live0.contains_key(node) {
                            assert(m0.contains_key(node));
                            assert(m0[node].subset_of(lv[node]));
                            assert(live0[node]@.to_set() == m0[node]);
                            assert(live0[node]@.no_duplicates());
                            lemma_unique_len(live0[node]@, before[node]@);
                        }
                    } else {
                        lemma_unique_len(new_set@, universe@);
                        if live0.contains_key(node) {
                            assert(m0.contains_key(node));
                            assert(lv.contains_key(node));
                        }
                    }
                    assert(slot(live@, order@[i as int], bound as nat) < slot(live0, order@[i as int], bound as nat));
                } else if changed {
                    let k = choose|k: int| 0 <= k < order@.len() && slot(before, #[trigger] order@[k], bound as nat) < slot(
                        live0,
                        order@[k],
                        bound as nat,
                    );
                    assert(slot(live@, order@[k], bound as nat) <= slot(before, order@[k], bound as nat));
                }
            }
            i = i + 1;
        }
        if !changed {
            proof {
                let lv = live_view(live@);
                assert forall|n: usize| #[trigger] lv.contains_key(n) <==> reaches(node_set(*g), forward(*g), func.entry_spec() as nat, n as nat) by {
                    if reaches(node_set(*g), forward(*g), entry as nat, n as nat) {
                        assert(order@.contains(n));
                        let j = choose|j: int| 0 <= j < order@.len() && order@[j] == n;
                        assert(live@.contains_key(order@[j]));
                    }
                }
                assert forall|n: usize| #[trigger] lv.contains_key(n) implies lv[n] == live_equation(*func, lv, n) by {
                    assert(order@.contains(n));
                    let j = choose|j: int| 0 <= j < order@.len() && order@[j] == n;
                    assert(lv[order@[j]] == live_equation(*func, lv, order@[j]));
                }
            }
            return live;
        }
        proof {
            lemma_potential_shrinks(live@, live0, order@, bound as nat);
        }
    }
}

/// `v` is live on entering node `d` by `live`.
pub open spec fn live_at(live: Map<usize, Set<Var>>, d: usize, v: Var) -> bool {
    live.contains_key(d) && live[d].contains(v)
}

/// Node `x`'s block defines `v`.
pub open spec fn defines_at(func: Function, x: usize, v: Var) -> bool {
    func.cfg_spec().nodes().contains_key(x as nat) && block_defs(node_block(func, x)).contains(v)
}

/// Some node's block of `func` defines `v`.
pub open spec fn defined_in(func: Function, v: Var) -> bool {
    exists|x: usize| defines_at(func, x, v)
}

/// `s` holds every node where `v` is live on entry that lies in the dominance frontier of a node
/// that defines `v` or of a node of `s`.
pub open spec fn sites_closed(func: Function, idom: Map<usize, usize>, live: Map<usize, Set<Var>>, v: Var, s: Set<usize>) -> bool {
    let g = func.cfg_spec().sg();
    let root = func.entry_spec();
    forall|x: usize, d: usize|
        #![trigger in_frontier(g, idom, root, x, d)]
        (defines_at(func, x, v) || s.contains(x)) && in_frontier(g, idom, root, x, d) && live_at(live, d, v) ==> s.contains(d)
}

/// `sites` are where `v` needs a phi function: each is in the dominance frontier of a node that
/// defines `v` or of another site and has `v` live on entry; the frontier of every such node
/// holds no other node where `v` is live; and every set of nodes closed in that way holds them
/// all, so that they are the least such set.
pub open spec fn phi_sites_of(func: Function, idom: Map<usize, usize>, live: Map<usize, Set<Var>>, v: Var, sites: Seq<usize>) -> bool {
    let g = func.cfg_spec().sg();
    let root = func.entry_spec();
    &&& sites.no_duplicates()
    &&& forall|d: usize| #[trigger] sites.contains(d) ==> live_at(live, d, v)
    &&& forall|d: usize| #[trigger] sites.contains(d) ==> exists|x: usize|
        (defines_at(func, x, v) || sites.contains(x)) && #[trigger] in_frontier(g, idom, root, x, d)
    &&& forall|x: usize, d: usize|
        #![trigger in_frontier(g, idom, root, x, d)]
        (defines_at(func, x, v) || sites.contains(x)) && in_frontier(g, idom, root, x, d) && live_at(live, d, v) ==> sites.contains(d)
    &&& forall|c: Set<usize>| #[trigger] sites_closed(func, idom, live, v, c) ==> forall|d: usize| #[trigger] sites.contains(d) ==> c.contains(d)
}

/// A list of distinct nodes of `g` is no longer than the set of its nodes.
proof fn lemma_distinct_nodes_len(s: Seq<usize>, g: Sg)
    requires
        sg_wf(g),
        s.no_duplicates(),
        forall|i: int| 0 <= i < s.len() ==> sg_nodes(g).contains_key(#[trigger] s[i] as nat),
    ensures
        s.len() <= node_set(g).len(),
{
    let m = s.map_values(|x: usize| x as nat);
    assert(m.no_duplicates()) by {
        assert forall|i: int, j: int| 0 <= i < m.len() && 0 <= j < m.len() && i != j implies m[i] != m[j] by {
            assert(s[i] != s[j]);
        }
    }
    m.unique_seq_to_set();
    assert(m.to_set().subset_of(node_set(g))) by {
        assert forall|x: nat| m.to_set().contains(x) implies node_set(g).contains(x) by {
            let j = choose|j: int| 0 <= j < m.len() && m[j] == x;
            assert(sg_nodes(g).contains_key(s[j] as nat));
        }
    }
    vstd::set_lib::lemma_len_subset(m.to_set(), node_set(g));
}

/// Whether `v` is live on entering `d` by `live`.
fn live_here(live: &HashMap<usize, Vec<Var>>, d: usize, v: Var) -> (res: bool)
    ensures
        res == live_at(live_view(live@), d, v),
{
    match live.get(&d) {
        Some(vs) => {
            let r = vec_contains_var(vs, v);
            proof {
                if r {
                    assert(vs@.to_set().contains(v));
                } else {
                    assert(!vs@.to_set().contains(v));
                }
            }
            r
        },
        None => false,
    }
}

/// The nodes whose blocks define `v`, ascending.
fn def_nodes_of(func: &Function, v: Var) -> (res: Vec<usize>)
    requires
        func.wf(),
        func.keys_in_arena(),
    ensures
        forall|x: usize| #[trigger] res@.contains(x) <==> defines_at(*func, x, v),
        forall|i: int| 0 <= i < res@.len() ==> func.cfg_spec().nodes().contains_key(#[trigger] res@[i] as nat),
{
    proof {
        func.lemma_wf();
        func.cfg_spec().lemma_wf();
    }
    let nodes = sg_node_indices(func.cfg().graph());
    let mut res: Vec<usize> = Vec::new();
    let mut i: usize = 0;
    while i < nodes.len()
        invariant
            0 <= i <= nodes@.len(),
            func.wf(),
            func.keys_in_arena(),
            forall|x: usize| #[trigger] nodes@.contains(x) <==> func.cfg_spec().nodes().contains_key(x as nat),
            forall|x: usize| #[trigger] res@.contains(x) <==> (exists|j: int| 0 <= j < i && nodes@[j] == x) && defines_at(*func, x, v),
            forall|k: int| 0 <= k < res@.len() ==> func.cfg_spec().nodes().contains_key(#[trigger] res@[k] as nat),
        decreases nodes@.len() - i,
    {
        let x = nodes[i];
        proof {
            assert(nodes@.contains(x));
        }
        let (_, defs) = node_uses_defs(func, x);
        let d = vec_contains_var(&defs, v);
        proof {
            assert(d == defs@.to_set().contains(v));
        }
        if d {
            res.push(x);
        }
        proof {
            assert forall|y: usize| #[trigger] res@.contains(y) <==> (exists|j: int| 0 <= j < i + 1 && nodes@[j] == y) && defines_at(*func, y, v) by {
                if y == x {
                    assert(nodes@[i as int] == y);
                } else if exists|j: int| 0 <= j < i + 1 && nodes@[j] == y {
                    let j = choose|j: int| 0 <= j < i + 1 && nodes@[j] == y;
                    assert(j < i);
                }
            }
        }
        i = i + 1;
    }
    proof {
        assert forall|x: usize| #[trigger] res@.contains(x) <==> defines_at(*func, x, v) by {
            if defines_at(*func, x, v) {
                assert(nodes@.contains(x));
                let j = choose|j: int| 0 <= j < nodes@.len() && nodes@[j] == x;
            }
        }
    }
    res
}

/// The nodes where `v` needs a phi function: the iterated dominance frontier of the nodes that
/// define it, kept to the nodes where it is live.
fn phi_sites_for(func: &Function, idom: &HashMap<usize, usize>, live: &HashMap<usize, Vec<Var>>, v: Var) -> (res: Vec<usize>)
    requires
        func.wf(),
        func.keys_in_arena(),
        is_dominator_tree(node_set(func.cfg_spec().sg()), forward(func.cfg_spec().sg()), func.entry_spec(), idom@),
    ensures
        phi_sites_of(*func, idom@, live_view(live@), v, res@),
{
    proof {
        func.lemma_wf();
        func.cfg_spec().lemma_wf();
    }
    let g = func.cfg().graph();
    let root = func.entry();
    let def_nodes = def_nodes_of(func, v);
    let mut worklist = def_nodes.clone();
    let mut sites: Vec<usize> = Vec::new();
    let ghost mut processed: Set<usize> = Set::empty();
    let ghost lv = live_view(live@);
    let ghost total = node_set(*g).len();
    proof {
        lemma_distinct_nodes_len(sites@, *g);
    }
    while worklist.len() > 0
        invariant
            func.wf(),
            func.keys_in_arena(),
            *g == func.cfg_spec().sg(),
            sg_wf(*g),
            root == func.entry_spec(),
            is_dominator_tree(node_set(*g), forward(*g), root, idom@),
            lv == live_view(live@),
            total == node_set(*g).len(),
            forall|x: usize| #[trigger] def_nodes@.contains(x) <==> defines_at(*func, x, v),
            sites@.no_duplicates(),
            sites@.len() <= total,
            forall|i: int| 0 <= i < sites@.len() ==> sg_nodes(*g).contains_key(#[trigger] sites@[i] as nat),
            forall|d: usize| #[trigger] sites@.contains(d) ==> live_at(lv, d, v),
            forall|d: usize| #[trigger] sites@.contains(d) ==> exists|x: usize|
                (defines_at(*func, x, v) || sites@.contains(x)) && #[trigger] in_frontier(*g, idom@, root, x, d),
            forall|x: usize, d: usize|
                #![trigger in_frontier(*g, idom@, root, x, d)]
                processed.contains(x) && in_frontier(*g, idom@, root, x, d) && live_at(lv, d, v) ==> sites@.contains(d),
            forall|x: usize| (#[trigger] defines_at(*func, x, v) || sites@.contains(x)) ==> processed.contains(x) || worklist@.contains(x),
            forall|x: usize| #[trigger] processed.contains(x) ==> defines_at(*func, x, v) || sites@.contains(x),
            forall|x: usize| #[trigger] worklist@.contains(x) ==> defines_at(*func, x, v) || sites@.contains(x),
            forall|c: Set<usize>| #[trigger] sites_closed(*func, idom@, lv, v, c) ==> forall|d: usize| #[trigger] sites@.contains(d) ==> c.contains(d),
        decreases total - sites@.len(), worklist@.len(),
    {
        let ghost wl0 = worklist@;
        let x = worklist.pop().unwrap();
        let ghost wl_after_pop = worklist@;
        proof {
            assert(wl0 == wl_after_pop.push(x));
            assert(wl0[wl0.len() - 1] == x);
            assert(wl0.contains(x));
            assert forall|y: usize| #[trigger] wl_after_pop.contains(y) implies wl0.contains(y) by {
                let k = choose|k: int| 0 <= k < wl_after_pop.len() && wl_after_pop[k] == y;
                assert(wl0[k] == y);
            }
        }
        let df_nodes = frontier_of(g, idom, root, x);
        let ghost sites_before = sites@;
        let mut t: usize = 0;
        while t < df_nodes.len()
            invariant
                0 <= t <= df_nodes@.len(),
                func.wf(),
                *g == func.cfg_spec().sg(),
                sg_wf(*g),
                root == func.entry_spec(),
                is_dominator_tree(node_set(*g), forward(*g), root, idom@),
                lv == live_view(live@),
                total == node_set(*g).len(),
                forall|b: usize| #[trigger] df_nodes@.contains(b) <==> in_frontier(*g, idom@, root, x, b),
                forall|i: int| 0 <= i < df_nodes@.len() ==> sg_nodes(*g).contains_key(#[trigger] df_nodes@[i] as nat),
                defines_at(*func, x, v) || sites_before.contains(x),
                sites@.no_duplicates(),
                forall|i: int| 0 <= i < sites@.len() ==> sg_nodes(*g).contains_key(#[trigger] sites@[i] as nat),
                forall|d: usize| #[trigger] sites_before.contains(d) ==> sites@.contains(d),
                sites@.len() >= sites_before.len(),
                forall|d: usize| #[trigger] sites@.contains(d) ==> live_at(lv, d, v),
                forall|d: usize| #[trigger] sites@.contains(d) ==> exists|y: usize|
                    (defines_at(*func, y, v) || sites@.contains(y)) && #[trigger] in_frontier(*g, idom@, root, y, d),
                forall|q: int| 0 <= q < t && live_at(lv, df_nodes@[q], v) ==> sites@.contains(#[trigger] df_nodes@[q]),
                forall|d: usize| #[trigger] sites@.contains(d) && !sites_before.contains(d) ==> worklist@.contains(d),
                forall|y: usize| #[trigger] wl_after_pop.contains(y) ==> worklist@.contains(y),
                forall|y: usize| #[trigger] worklist@.contains(y) ==> defines_at(*func, y, v) || sites@.contains(y),
                sites@.len() == sites_before.len() ==> worklist@.len() == wl_after_pop.len(),
                forall|c: Set<usize>| #[trigger] sites_closed(*func, idom@, lv, v, c) ==> forall|d: usize| #[trigger] sites@.contains(d) ==> c.contains(d),
            decreases df_nodes@.len() - t,
        {
            let d = df_nodes[t];
            proof {
                assert(df_nodes@.contains(d));
            }
            if live_here(live, d, v) && !crate::cfg_structuring::region::vec_contains(&sites, d) {
                proof {
                    assert(in_frontier(*g, idom@, root, x, d));
                }
                let ghost s0 = sites@;
                sites.push(d);
                worklist.push(d);
                proof {
                    assert forall|c: Set<usize>| #[trigger] sites_closed(*func, idom@, lv, v, c) implies forall|e: usize|
                        #[trigger] sites@.contains(e) ==> c.contains(e) by {
                        assert(defines_at(*func, x, v) || c.contains(x));
                        assert(c.contains(d));
                        assert forall|e: usize| #[trigger] sites@.contains(e) implies c.contains(e) by {
                            if e != d {
                                assert(s0.contains(e));
                            }
                        }
                    }
                }
            }
            t = t + 1;
        }
        let ghost processed0 = processed;
        proof {
            lemma_distinct_nodes_len(sites@, *g);
            processed = processed.insert(x);
            assert forall|y: usize, d: usize|
                #![trigger in_frontier(*g, idom@, root, y, d)]
                processed.contains(y) && in_frontier(*g, idom@, root, y, d) && live_at(lv, d, v) implies sites@.contains(d) by {
                if y == x {
                    assert(df_nodes@.contains(d));
                    let q = choose|q: int| 0 <= q < df_nodes@.len() && df_nodes@[q] == d;
                    assert(sites@.contains(df_nodes@[q]));
                }
            }
            assert forall|y: usize| (#[trigger] defines_at(*func, y, v) || sites@.contains(y)) implies processed.contains(y) || worklist@.contains(y) by {
                if y != x && !sites_before.contains(y) && sites@.contains(y) {
                    assert(worklist@.contains(y));
                } else if y != x && (defines_at(*func, y, v) || sites_before.contains(y)) {
                    if !processed.contains(y) {
                        assert(!processed0.contains(y));
                        assert(wl0.contains(y));
                        let k = choose|k: int| 0 <= k < wl0.len() && wl0[k] == y;
                        assert(k < wl0.len() - 1);
                        assert(wl_after_pop[k] == y);
                        assert(wl_after_pop.contains(y));
                    }
                }
            }
        }
    }
    proof {
        assert forall|x: usize, d: usize|
            #![trigger in_frontier(*g, idom@, root, x, d)]
            (defines_at(*func, x, v) || sites@.contains(x)) && in_frontier(*g, idom@, root, x, d) && live_at(lv, d, v) implies sites@.contains(d) by {
            assert(processed.contains(x) || worklist@.contains(x));
        }
    }
    sites
}

/// Every variable either is listed in `list`, once, with the nodes where it needs a phi
/// function, or needs none.
pub open spec fn phi_plan(func: Function, idom: Map<usize, usize>, live: Map<usize, Set<Var>>, list: Seq<(Var, Vec<usize>)>) -> bool {
    &&& forall|k: int| 0 <= k < list.len() ==> phi_sites_of(func, idom, live, (#[trigger] list[k]).0, list[k].1@) && list[k].1@.len() > 0
    &&& forall|k: int, l: int| 0 <= k < l < list.len() ==> (#[trigger] list[k]).0 != (#[trigger] list[l]).0
    &&& forall|v: Var| (forall|k: int| 0 <= k < list.len() ==> (#[trigger] list[k]).0 != v) ==> phi_sites_of(func, idom, live, v, Seq::empty())
    &&& forall|k: int, i: int| 0 <= k < list.len() && 0 <= i < list[k].1@.len() ==> func.cfg_spec().nodes().contains_key(
        (#[trigger] list[k].1@[i]) as nat,
    )
}

/// The variables that some node's block defines, each once.
fn defined_vars_of_function(func: &Function) -> (res: Vec<Var>)
    requires
        func.wf(),
        func.keys_in_arena(),
    ensures
        res@.no_duplicates(),
        forall|v: Var| #[trigger] res@.contains(v) <==> exists|x: usize| defines_at(*func, x, v),
{
    proof {
        func.lemma_wf();
        func.cfg_spec().lemma_wf();
    }
    let nodes = sg_node_indices(func.cfg().graph());
    let mut res: Vec<Var> = Vec::new();
    let mut i: usize = 0;
    while i < nodes.len()
        invariant
            0 <= i <= nodes@.len(),
            func.wf(),
            func.keys_in_arena(),
            forall|x: usize| #[trigger] nodes@.contains(x) <==> func.cfg_spec().nodes().contains_key(x as nat),
            res@.no_duplicates(),
            forall|v: Var| #[trigger] res@.contains(v) <==> exists|j: int| 0 <= j < i && #[trigger] defines_at(*func, nodes@[j], v),
        decreases nodes@.len() - i,
    {
        let x = nodes[i];
        proof {
            assert(nodes@.contains(x));
        }
        let (_, defs) = node_uses_defs(func, x);
        let ghost res0 = res@;
        let mut t: usize = 0;
        while t < defs.len()
            invariant
                0 <= t <= defs@.len(),
                res@.no_duplicates(),
                forall|v: Var| #[trigger] res@.contains(v) <==> res0.contains(v) || exists|q: int| 0 <= q < t && defs@[q] == v,
            decreases defs@.len() - t,
        {
            let v = defs[t];
            if !vec_contains_var(&res, v) {
                res.push(v);
            }
            proof {
                assert forall|w: Var| #[trigger] res@.contains(w) <==> res0.contains(w) || exists|q: int| 0 <= q < t + 1 && defs@[q] == w by {
                    if w == v {
                        assert(defs@[t as int] == w);
                    }
                    if exists|q: int| 0 <= q < t + 1 && defs@[q] == w {
                        let q = choose|q: int| 0 <= q < t + 1 && defs@[q] == w;
                        if q < t {
                            assert(exists|q2: int| 0 <= q2 < t && defs@[q2] == w);
                        }
                    }
                }
            }
            t = t + 1;
        }
        proof {
            assert forall|v: Var| #[trigger] res@.contains(v) <==> exists|j: int| 0 <= j < i + 1 && #[trigger] defines_at(*func, nodes@[j], v) by {
                if exists|q: int| 0 <= q < defs@.len() && defs@[q] == v {
                    assert(defs@.to_set().contains(v));
                    assert(defines_at(*func, nodes@[i as int], v));
                }
                if defines_at(*func, nodes@[i as int], v) {
                    assert(defs@.to_set().contains(v));
                    let q = choose|q: int| 0 <= q < defs@.len() && defs@[q] == v;
                }
                if exists|j: int| 0 <= j < i + 1 && #[trigger] defines_at(*func, nodes@[j], v) {
                    let j = choose|j: int| 0 <= j < i + 1 && #[trigger] defines_at(*func, nodes@[j], v);
                    if j < i {
                        assert(exists|j2: int| 0 <= j2 < i && #[trigger] defines_at(*func, nodes@[j2], v));
                    }
                }
            }
        }
        i = i + 1;
    }
    proof {
        assert forall|v: Var| #[trigger] res@.contains(v) <==> exists|x: usize| defines_at(*func, x, v) by {
            if exists|x: usize| defines_at(*func, x, v) {
                let x = choose|x: usize| defines_at(*func, x, v);
                assert(nodes@.contains(x));
                let j = choose|j: int| 0 <= j < nodes@.len() && nodes@[j] == x;
                assert(defines_at(*func, nodes@[j], v));
            }
        }
    }
    res
}

/// For each variable defined in `func`, the nodes where it needs a phi function, leaving out
/// the variables that need none.
fn compute_phi_sites(func: &Function, idom: &HashMap<usize, usize>, live: &HashMap<usize, Vec<Var>>) -> (res: Vec<(Var, Vec<usize>)>)
    requires
        func.wf(),
        func.keys_in_arena(),
        is_dominator_tree(node_set(func.cfg_spec().sg()), forward(func.cfg_spec().sg()), func.entry_spec(), idom@),
    ensures
        phi_plan(*func, idom@, live_view(live@), res@),
        forall|k: int| 0 <= k < res@.len() ==> defined_in(*func, (#[trigger] res@[k]).0),
{
    proof {
        func.lemma_wf();
        func.cfg_spec().lemma_wf();
    }
    let vars = defined_vars_of_function(func);
    let mut res: Vec<(Var, Vec<usize>)> = Vec::new();
    let ghost lv = live_view(live@);
    let mut i: usize = 0;
    while i < vars.len()
        invariant
            0 <= i <= vars@.len(),
            func.wf(),
            func.keys_in_arena(),
            is_dominator_tree(node_set(func.cfg_spec().sg()), forward(func.cfg_spec().sg()), func.entry_spec(), idom@),
            lv == live_view(live@),
            vars@.no_duplicates(),
            forall|v: Var| #[trigger] vars@.contains(v) <==> exists|x: usize| defines_at(*func, x, v),
            forall|k: int| 0 <= k < res@.len() ==> phi_sites_of(*func, idom@, lv, (#[trigger] res@[k]).0, res@[k].1@) && res@[k].1@.len() > 0,
            forall|k: int| 0 <= k < res@.len() ==> exists|j: int| 0 <= j < i && vars@[j] == (#[trigger] res@[k]).0,
            forall|k: int, l: int| 0 <= k < l < res@.len() ==> (#[trigger] res@[k]).0 != (#[trigger] res@[l]).0,
            forall|j: int| 0 <= j < i ==> (exists|k: int| 0 <= k < res@.len() && (#[trigger] res@[k]).0 == vars@[j]) || phi_sites_of(
                *func,
                idom@,
                lv,
                #[trigger] vars@[j],
                Seq::empty(),
            ),
            forall|k: int, t: int| 0 <= k < res@.len() && 0 <= t < res@[k].1@.len() ==> func.cfg_spec().nodes().contains_key(
                (#[trigger] res@[k].1@[t]) as nat,
            ),
        decreases vars@.len() - i,
    {
        let v = vars[i];
        let sites = phi_sites_for(func, idom, live, v);
        proof {
            assert forall|t: int| 0 <= t < sites@.len() implies func.cfg_spec().nodes().contains_key(sites@[t] as nat) by {
                assert(sites@.contains(sites@[t]));
                let x = choose|x: usize|
                    (defines_at(*func, x, v) || sites@.contains(x)) && #[trigger] in_frontier(func.cfg_spec().sg(), idom@, func.entry_spec(), x, sites@[t]);
                assert(idom@.contains_key(sites@[t]));
                crate::graph::lemma_reached_is_node(node_set(func.cfg_spec().sg()), forward(func.cfg_spec().sg()), func.entry_spec() as nat, sites@[t] as nat);
            }
        }
        if sites.len() > 0 {
            let ghost res0 = res@;
            res.push((v, sites));
            proof {
                assert forall|k: int| 0 <= k < res@.len() implies exists|j: int| 0 <= j < i + 1 && vars@[j] == (#[trigger] res@[k]).0 by {
                    if k < res0.len() {
                        assert(res@[k] == res0[k]);
                        let j = choose|j: int| 0 <= j < i && vars@[j] == res0[k].0;
                    } else {
                        assert(vars@[i as int] == res@[k].0);
                    }
                }
                assert forall|k: int, l: int| 0 <= k < l < res@.len() implies (#[trigger] res@[k]).0 != (#[trigger] res@[l]).0 by {
                    if l == res0.len() {
                        let j = choose|j: int| 0 <= j < i && vars@[j] == res0[k].0;
                        assert(vars@[j] != vars@[i as int]);
                    } else {
                        assert(res@[k] == res0[k] && res@[l] == res0[l]);
                    }
                }
                assert forall|j: int| 0 <= j < i + 1 implies (exists|k: int| 0 <= k < res@.len() && (#[trigger] res@[k]).0 == vars@[j]) || phi_sites_of(
                    *func,
                    idom@,
                    lv,
                    #[trigger] vars@[j],
                    Seq::empty(),
                ) by {
                    if j == i {
                        assert(res@[res0.len() as int].0 == vars@[j]);
                    } else if exists|k: int| 0 <= k < res0.len() && (#[trigger] res0[k]).0 == vars@[j] {
                        let k = choose|k: int| 0 <= k < res0.len() && (#[trigger] res0[k]).0 == vars@[j];
                        assert(res@[k] == res0[k]);
                    }
                }
                assert forall|k: int, t: int| 0 <= k < res@.len() && 0 <= t < res@[k].1@.len() implies func.cfg_spec().nodes().contains_key(
                    (#[trigger] res@[k].1@[t]) as nat,
                ) by {
                    if k < res0.len() {
                        assert(res@[k] == res0[k]);
                    }
                }
                assert forall|k: int| 0 <= k < res@.len() implies phi_sites_of(*func, idom@, lv, (#[trigger] res@[k]).0, res@[k].1@) && res@[k].1@.len() > 0 by {
                    if k < res0.len() {
                        assert(res@[k] == res0[k]);
                    }
                }
            }
        } else {
            proof {
                assert(sites@ =~= Seq::<usize>::empty());
            }
        }
        i = i + 1;
    }
    proof {
        assert forall|k: int| 0 <= k < res@.len() implies defined_in(*func, (#[trigger] res@[k]).0) by {
            let r = res@[k];
            assert(exists|j: int| 0 <= j < i && vars@[j] == r.0);
            let j = choose|j: int| 0 <= j < i && vars@[j] == r.0;
            assert(vars@.contains(vars@[j]));
            let x = choose|x: usize| defines_at(*func, x, vars@[j]);
            assert(defines_at(*func, x, res@[k].0));
        }
        assert forall|v: Var| (forall|k: int| 0 <= k < res@.len() ==> (#[trigger] res@[k]).0 != v) implies phi_sites_of(
            *func,
            idom@,
            lv,
            v,
            Seq::empty(),
        ) by {
            if vars@.contains(v) {
                let j = choose|j: int| 0 <= j < vars@.len() && vars@[j] == v;
                if exists|k: int| 0 <= k < res@.len() && (#[trigger] res@[k]).0 == vars@[j] {
                    let k = choose|k: int| 0 <= k < res@.len() && (#[trigger] res@[k]).0 == vars@[j];
                    assert(res@[k].0 != v);
                }
            } else {
                let g = func.cfg_spec().sg();
                assert forall|x: usize, d: usize|
                    #![trigger in_frontier(g, idom@, func.entry_spec(), x, d)]
                    (defines_at(*func, x, v) || Seq::<usize>::empty().contains(x)) && in_frontier(g, idom@, func.entry_spec(), x, d) && live_at(lv, d, v)
                        implies Seq::<usize>::empty().contains(d) by {
                    if defines_at(*func, x, v) {
                        assert(exists|x2: usize| defines_at(*func, x2, v));
                    }
                }
            }
        }
    }
    res
}

/// A variable with its version dropped: the place alone.
pub open spec fn erase_var(v: Var) -> Var {
    Var::at(v.place_spec(), 0)
}

pub open spec fn erase_value(v: Value) -> Value {
    match v {
        Value::Var(x) => Value::Var(erase_var(x)),
        Value::Imm(i) => Value::Imm(i),
    }
}

pub open spec fn erase_rhs(r: Rhs) -> Rhs {
    match r {
        Rhs::BinOp { op, lhs, rhs } => Rhs::BinOp { op, lhs: erase_value(lhs), rhs: erase_value(rhs) },
        Rhs::Load { src } => Rhs::Load { src: erase_value(src) },
        Rhs::Copy { src } => Rhs::Copy { src: erase_value(src) },
    }
}

pub open spec fn erase_kind(k: InstructionKind) -> InstructionKind {
    match k {
        InstructionKind::Assign { dst, src } => InstructionKind::Assign { dst: erase_var(dst), src: erase_rhs(src) },
        InstructionKind::Store { dst, src } => InstructionKind::Store { dst: erase_value(dst), src: erase_value(src) },
        InstructionKind::Call { target } => InstructionKind::Call { target: erase_value(target) },
    }
}

pub open spec fn erase_insn(i: Instruction) -> Instruction {
    Instruction { addr: i.addr, kind: erase_kind(i.kind) }
}

pub open spec fn erase_term(t: Terminator) -> Terminator {
    match t.kind {
        TerminatorKind::ConditionalBranch { cond: BranchCondition::NonZero(v), target } => Terminator {
            addr: t.addr,
            kind: TerminatorKind::ConditionalBranch { cond: BranchCondition::NonZero(erase_value(v)), target },
        },
        _ => t,
    }
}

pub open spec fn erase_insns(s: Seq<Instruction>) -> Seq<Instruction> {
    s.map_values(|i: Instruction| erase_insn(i))
}

/// The version counters and stacks of SSA renaming, one entry per place met so far.
pub struct RenameContext {
    places: Vec<Place>,
    counters: Vec<u32>,
    stacks: Vec<Vec<u32>>,
    /// Some place has run out of versions.
    overflowed: bool,
}

/// The variable that an instruction of kind `k` defines: an assignment's destination.
pub open spec fn kind_def(k: InstructionKind) -> Option<Var> {
    match k {
        InstructionKind::Assign { dst, .. } => Some(dst),
        _ => None,
    }
}

/// The variable that block `b` defines at position `j` of kind `k`: the destination of phi
/// function `j` for kind zero, that of instruction `j` for kind one.
pub open spec fn def_at(b: Block, k: int, j: int) -> Option<Var> {
    if k == 0 && 0 <= j < b.phis_spec().len() {
        Some(b.phis_spec()[j].dst_spec())
    } else if k == 1 && 0 <= j < b.instructions_spec().len() {
        kind_def(b.instructions_spec()[j].kind)
    } else {
        None
    }
}

/// The definitions of `blocks`, by block, kind and position.
pub open spec fn blocks_defs(blocks: Seq<Block>) -> spec_fn(int, int, int) -> Option<Var> {
    |i: int, k: int, j: int|
        if 0 <= i < blocks.len() {
            def_at(blocks[i], k, j)
        } else {
            None
        }
}

/// No two definitions among `d` give the same variable, but for version zero.
pub open spec fn unique_defs(d: spec_fn(int, int, int) -> Option<Var>) -> bool {
    forall|i1: int, k1: int, j1: int, i2: int, k2: int, j2: int|
        #![trigger d(i1, k1, j1), d(i2, k2, j2)]
        (i1, k1, j1) != (i2, k2, j2) && d(i1, k1, j1) is Some && d(i1, k1, j1) == d(i2, k2, j2) ==> d(i1, k1, j1).unwrap().version_spec() == 0
}

/// Static single assignment: every variable with a version other than zero has one definition
/// in `blocks`, a phi function's or an assignment's.
pub open spec fn single_assignment(blocks: Seq<Block>) -> bool {
    unique_defs(blocks_defs(blocks))
}

/// Every phi function of `func` defines version zero of its place.
pub open spec fn phi_versions_zero(func: Function) -> bool {
    forall|i: int, j: int|
        0 <= i < func.blocks_spec().len() && 0 <= j < func.blocks_spec()[i].phis_spec().len() ==> (#[trigger] func.blocks_spec()[i].phis_spec()[j]).dst_spec().version_spec() == 0
}

impl RenameContext {
    /// No version of `d` lies beyond the count handed out for its place.
    spec fn bounds(&self, d: spec_fn(int, int, int) -> Option<Var>) -> bool {
        forall|i: int, k: int, j: int| #[trigger] d(i, k, j) is Some ==> d(i, k, j).unwrap().version_spec() <= self.counter_of(d(i, k, j).unwrap().place_spec())
    }

    /// Renaming has kept the definitions `d` to one per version, where no place ran out.
    spec fn renames(&self, d: spec_fn(int, int, int) -> Option<Var>) -> bool {
        self.overflowed || (self.bounds(d) && unique_defs(d))
    }

    /// `self` follows `old` by handing out version `v` of its place and nothing else.
    spec fn hands_out(&self, old: RenameContext, v: Var) -> bool {
        &&& self.overflowed == (old.overflowed || old.counter_of(v.place_spec()) == u32::MAX)
        &&& !self.overflowed ==> v.version_spec() == old.counter_of(v.place_spec()) + 1 && self.counter_of(v.place_spec()) == v.version_spec()
        &&& forall|p: Place| p != v.place_spec() ==> self.counter_of(p) == old.counter_of(p)
    }

    spec fn wf(&self) -> bool {
        &&& self.places@.len() == self.counters@.len()
        &&& self.places@.len() == self.stacks@.len()
        &&& self.places@.no_duplicates()
    }

    /// The version that a use of `place` reads now: the top of its stack, zero where there is
    /// none.
    pub closed spec fn top_of(&self, place: Place) -> u32 {
        if exists|i: int| 0 <= i < self.places@.len() && self.places@[i] == place {
            let i = choose|i: int| 0 <= i < self.places@.len() && self.places@[i] == place;
            if self.stacks@[i]@.len() > 0 {
                self.stacks@[i]@.last()
            } else {
                0
            }
        } else {
            0
        }
    }

    /// How many versions of `place` have been handed out.
    pub closed spec fn counter_of(&self, place: Place) -> u32 {
        if exists|i: int| 0 <= i < self.places@.len() && self.places@[i] == place {
            let i = choose|i: int| 0 <= i < self.places@.len() && self.places@[i] == place;
            self.counters@[i]
        } else {
            0
        }
    }

    fn new() -> (res: Self)
        ensures
            res.wf(),
            forall|p: Place| res.top_of(p) == 0 && res.counter_of(p) == 0,
            !res.overflowed,
    {
        RenameContext { places: Vec::new(), counters: Vec::new(), stacks: Vec::new(), overflowed: false }
    }

    fn find(&self, place: Place) -> (res: Option<usize>)
        requires
            self.wf(),
        ensures
            match res {
                Some(i) => i < self.places@.len() && self.places@[i as int] == place,
                None => forall|i: int| 0 <= i < self.places@.len() ==> self.places@[i] != place,
            },
    {
        let mut i: usize = 0;
        while i < self.places.len()
            invariant
                0 <= i <= self.places@.len(),
                forall|k: int| 0 <= k < i ==> self.places@[k] != place,
            decreases self.places@.len() - i,
        {
            if self.places[i] == place {
                return Some(i);
            }
            i = i + 1;
        }
        None
    }

    /// The variable that a use of `place` reads now.
    fn current_var(&self, place: Place) -> (res: Var)
        requires
            self.wf(),
        ensures
            res == Var::at(place, self.top_of(place)),
    {
        match self.find(place) {
            Some(i) => {
                proof {
                    let j = choose|j: int| 0 <= j < self.places@.len() && self.places@[j] == place;
                    assert(j == i as int);
                }
                let version = if self.stacks[i].len() > 0 {
                    self.stacks[i][self.stacks[i].len() - 1]
                } else {
                    0
                };
                Var::with_version(place, version)
            },
            None => Var::with_version(place, 0),
        }
    }

    /// A fresh version of `place` for a definition: the next count (held at `u32::MAX` once
    /// reached), pushed on its stack; `place` is noted in `pushed_places`.
    fn define_var(&mut self, place: Place, pushed_places: &mut Vec<Place>) -> (res: Var)
        requires
            old(self).wf(),
        ensures
            final(self).wf(),
            res.place_spec() == place,
            res.version_spec() == (if old(self).counter_of(place) < u32::MAX {
                old(self).counter_of(place) + 1
            } else {
                u32::MAX as int
            }),
            final(self).counter_of(place) == res.version_spec(),
            final(self).top_of(place) == res.version_spec(),
            forall|p: Place| p != place ==> final(self).counter_of(p) == old(self).counter_of(p) && final(self).top_of(p) == old(self).top_of(p),
            final(pushed_places)@ == old(pushed_places)@.push(place),
            final(self).overflowed == (old(self).overflowed || old(self).counter_of(place) == u32::MAX),
            forall|p: Place| #[trigger] final(self).has_place(p) == (old(self).has_place(p) || p == place),
            final(self).stack_of(place) == old(self).base_stack(place).push(res.version_spec()),
            forall|p: Place| p != place ==> #[trigger] final(self).stack_of(p) == old(self).stack_of(p),
    {
        let i = match self.find(place) {
            Some(i) => i,
            None => {
                self.places.push(place);
                self.counters.push(0);
                let mut base: Vec<u32> = Vec::new();
                base.push(0);
                self.stacks.push(base);
                proof {
                    assert forall|a: int, b: int| 0 <= a < b < self.places@.len() implies self.places@[a] != self.places@[b] by {
                        if b == self.places@.len() - 1 {
                            assert(old(self).places@[a] != place);
                        } else {
                            assert(old(self).places@[a] != old(self).places@[b]);
                        }
                    }
                }
                self.places.len() - 1
            },
        };
        let ghost mid = *self;
        proof {
            assert(mid.places@[i as int] == place);
            assert(mid.wf());
            mid.lemma_stack_at(i as int);
            assert(mid.stacks@[i as int]@ == old(self).base_stack(place)) by {
                if old(self).has_place(place) {
                    let k = choose|k: int| 0 <= k < old(self).places@.len() && old(self).places@[k] == place;
                    old(self).lemma_stack_at(k);
                    assert(k == i as int);
                } else {
                    assert(mid.stacks@[i as int]@ =~= seq![0u32]);
                }
            }
            assert forall|p: Place| #[trigger] mid.has_place(p) == (old(self).has_place(p) || p == place) by {
                if mid.has_place(p) && p != place {
                    let k = choose|k: int| 0 <= k < mid.places@.len() && mid.places@[k] == p;
                    assert(k < old(self).places@.len());
                    assert(old(self).places@[k] == p);
                }
                if old(self).has_place(p) {
                    let k = choose|k: int| 0 <= k < old(self).places@.len() && old(self).places@[k] == p;
                    assert(mid.places@[k] == p);
                }
            }
            assert forall|p: Place| p != place implies #[trigger] mid.stack_of(p) == old(self).stack_of(p) by {
                if old(self).has_place(p) {
                    let k = choose|k: int| 0 <= k < old(self).places@.len() && old(self).places@[k] == p;
                    old(self).lemma_stack_at(k);
                    assert(mid.places@[k] == p);
                    mid.lemma_stack_at(k);
                } else if mid.has_place(p) {
                    let k = choose|k: int| 0 <= k < mid.places@.len() && mid.places@[k] == p;
                    assert(k < old(self).places@.len());
                    assert(old(self).places@[k] == p);
                }
            }
            assert forall|p: Place| p != place implies mid.counter_of(p) == old(self).counter_of(p) && mid.top_of(p) == old(self).top_of(p) by {
                if exists|k: int| 0 <= k < old(self).places@.len() && old(self).places@[k] == p {
                    let k = choose|k: int| 0 <= k < old(self).places@.len() && old(self).places@[k] == p;
                    let k2 = choose|k2: int| 0 <= k2 < mid.places@.len() && mid.places@[k2] == p;
                    assert(mid.places@[k] == p);
                    assert(k == k2);
                    let k3 = choose|k3: int| 0 <= k3 < old(self).places@.len() && old(self).places@[k3] == p;
                    assert(k3 == k);
                } else {
                    if exists|k2: int| 0 <= k2 < mid.places@.len() && mid.places@[k2] == p {
                        let k2 = choose|k2: int| 0 <= k2 < mid.places@.len() && mid.places@[k2] == p;
                        assert(k2 < old(self).places@.len());
                    }
                }
            }
            let j = choose|j: int| 0 <= j < mid.places@.len() && mid.places@[j] == place;
            assert(j == i as int);
            if exists|k: int| 0 <= k < old(self).places@.len() && old(self).places@[k] == place {
                let k = choose|k: int| 0 <= k < old(self).places@.len() && old(self).places@[k] == place;
                assert(k == i as int);
            }
        }
        let c = self.counters[i];
        let version = if c < u32::MAX {
            c + 1
        } else {
            self.overflowed = true;
            u32::MAX
        };
        self.counters.set(i, version);
        let mut stack = self.stacks[i].clone();
        stack.push(version);
        self.stacks.set(i, stack);
        pushed_places.push(place);
        proof {
            assert(self.places@ == mid.places@);
            assert(self.counters@ == mid.counters@.update(i as int, version));
            assert(self.stacks@ == mid.stacks@.update(i as int, self.stacks@[i as int]));
            assert forall|p: Place| p != place implies self.counter_of(p) == mid.counter_of(p) && self.top_of(p) == mid.top_of(p) by {
                if exists|k: int| 0 <= k < mid.places@.len() && mid.places@[k] == p {
                    let k = choose|k: int| 0 <= k < mid.places@.len() && mid.places@[k] == p;
                    assert(k != i as int);
                    assert(self.counters@[k] == mid.counters@[k]);
                    assert(self.stacks@[k] == mid.stacks@[k]);
                }
            }
            let j = choose|j: int| 0 <= j < self.places@.len() && self.places@[j] == place;
            assert(j == i as int);
            self.lemma_stack_at(i as int);
            assert forall|p: Place| #[trigger] self.has_place(p) == mid.has_place(p) by {}
            assert forall|p: Place| p != place implies #[trigger] self.stack_of(p) == mid.stack_of(p) by {
                if mid.has_place(p) {
                    let k = choose|k: int| 0 <= k < mid.places@.len() && mid.places@[k] == p;
                    assert(k != i as int);
                    mid.lemma_stack_at(k);
                    self.lemma_stack_at(k);
                }
            }
            assert forall|p: Place| p != place implies self.counter_of(p) == old(self).counter_of(p) && self.top_of(p) == old(self).top_of(p) by {
                assert(self.counter_of(p) == mid.counter_of(p) && self.top_of(p) == mid.top_of(p));
                assert(mid.counter_of(p) == old(self).counter_of(p) && mid.top_of(p) == old(self).top_of(p));
            }
        }
        Var::with_version(place, version)
    }

    /// `place` has a stack.
    spec fn has_place(&self, place: Place) -> bool {
        exists|i: int| 0 <= i < self.places@.len() && self.places@[i] == place
    }

    /// The stack that the next version of `place` goes on: its own, or one holding version
    /// zero where it has none yet.
    spec fn base_stack(&self, place: Place) -> Seq<u32> {
        if self.has_place(place) {
            self.stack_of(place)
        } else {
            seq![0u32]
        }
    }

    /// The versions stacked for `place`, the latest last.
    spec fn stack_of(&self, place: Place) -> Seq<u32> {
        if exists|i: int| 0 <= i < self.places@.len() && self.places@[i] == place {
            let i = choose|i: int| 0 <= i < self.places@.len() && self.places@[i] == place;
            self.stacks@[i]@
        } else {
            Seq::empty()
        }
    }

    proof fn lemma_stack_at(&self, i: int)
        requires
            self.wf(),
            0 <= i < self.places@.len(),
        ensures
            self.stack_of(self.places@[i]) == self.stacks@[i]@,
    {
        let j = choose|j: int| 0 <= j < self.places@.len() && self.places@[j] == self.places@[i];
        assert(j == i);
    }

    /// Takes off the versions pushed for `pushed_places`, latest first: one version of each
    /// place for each time the list names it, as far as its stack goes.
    fn pop_versions(&mut self, pushed_places: Vec<Place>)
        requires
            old(self).wf(),
        ensures
            final(self).wf(),
            forall|p: Place| final(self).counter_of(p) == old(self).counter_of(p),
            final(self).overflowed == old(self).overflowed,
            forall|p: Place| #[trigger] final(self).stack_of(p) == popped(old(self).stack_of(p), place_count(pushed_places@, p)),
            final(self).places@ == old(self).places@,
    {
        let mut k: usize = pushed_places.len();
        proof {
            assert forall|p: Place| #[trigger] self.stack_of(p) == popped(old(self).stack_of(p), place_count(pushed_places@.subrange(k as int, pushed_places@.len() as int), p)) by {
                assert(pushed_places@.subrange(k as int, k as int) =~= Seq::<Place>::empty());
                assert(old(self).stack_of(p).take(old(self).stack_of(p).len() as int) =~= old(self).stack_of(p));
            }
        }
        while k > 0
            invariant
                0 <= k <= pushed_places@.len(),
                self.wf(),
                self.places@ == old(self).places@,
                self.counters@ == old(self).counters@,
                self.overflowed == old(self).overflowed,
                forall|p: Place| #[trigger] self.stack_of(p) == popped(old(self).stack_of(p), place_count(pushed_places@.subrange(k as int, pushed_places@.len() as int), p)),
            decreases k,
        {
            let ghost before = *self;
            k = k - 1;
            let place = pushed_places[k];
            proof {
                let rest = pushed_places@.subrange(k as int, pushed_places@.len() as int);
                assert(rest.drop_first() =~= pushed_places@.subrange(k + 1, pushed_places@.len() as int));
                assert(rest[0] == place);
            }
            match self.find(place) {
                Some(i) => {
                    let mut stack = self.stacks[i].clone();
                    stack.pop();
                    self.stacks.set(i, stack);
                    proof {
                        before.lemma_stack_at(i as int);
                        assert forall|p: Place| #[trigger] self.stack_of(p) == popped(old(self).stack_of(p), place_count(pushed_places@.subrange(k as int, pushed_places@.len() as int), p)) by {
                            let rest = pushed_places@.subrange(k as int, pushed_places@.len() as int);
                            let c1 = place_count(pushed_places@.subrange(k + 1, pushed_places@.len() as int), p);
                            let os = old(self).stack_of(p);
                            if p == place {
                                self.lemma_stack_at(i as int);
                                assert(before.stack_of(p) == popped(os, c1));
                                if c1 + 1 >= os.len() {
                                    assert(self.stacks@[i as int]@ =~= Seq::<u32>::empty());
                                } else {
                                    assert(self.stacks@[i as int]@ =~= os.take(os.len() - c1 - 1));
                                }
                            } else {
                                if exists|j: int| 0 <= j < self.places@.len() && self.places@[j] == p {
                                    let j = choose|j: int| 0 <= j < self.places@.len() && self.places@[j] == p;
                                    before.lemma_stack_at(j);
                                    self.lemma_stack_at(j);
                                    assert(j != i as int);
                                }
                            }
                        }
                    }
                },
                None => {
                    proof {
                        assert forall|p: Place| #[trigger] self.stack_of(p) == popped(old(self).stack_of(p), place_count(pushed_places@.subrange(k as int, pushed_places@.len() as int), p)) by {
                            if p == place {
                                assert(!(exists|j: int| 0 <= j < old(self).places@.len() && old(self).places@[j] == p));
                            }
                        }
                    }
                },
            }
        }
    }
}

/// How many times `s` names `p`.
spec fn place_count(s: Seq<Place>, p: Place) -> nat
    decreases s.len(),
{
    if s.len() == 0 {
        0
    } else {
        (if s[0] == p {
            1nat
        } else {
            0nat
        }) + place_count(s.drop_first(), p)
    }
}

/// `s` with its last `c` entries taken off, or nothing left where it holds no more.
spec fn popped(s: Seq<u32>, c: nat) -> Seq<u32> {
    if c >= s.len() {
        Seq::empty()
    } else {
        s.take(s.len() - c)
    }
}

/// `c1` follows `c0` by pushing one version for each of `places` on its stack: a place named
/// there has its base stack with that many versions on top, every other stack is unchanged.
spec fn grown(c0: RenameContext, c1: RenameContext, places: Seq<Place>) -> bool {
    &&& forall|p: Place| #[trigger] c1.has_place(p) == (c0.has_place(p) || place_count(places, p) > 0)
    &&& forall|p: Place| #[trigger] c1.stack_of(p) == (if place_count(places, p) > 0 {
        c0.base_stack(p) + c1.stack_of(p).skip(c0.base_stack(p).len() as int)
    } else {
        c0.stack_of(p)
    })
    &&& forall|p: Place| place_count(places, p) > 0 ==> (#[trigger] c1.stack_of(p)).len() == c0.base_stack(p).len() + place_count(places, p)
}

/// `c1` has the stacks of `c0`, but for places that had none, which may have one holding
/// version zero; it keeps every place of `c0`.
spec fn restored(c0: RenameContext, c1: RenameContext) -> bool {
    &&& forall|p: Place| #[trigger] c0.has_place(p) ==> c1.has_place(p)
    &&& forall|p: Place| #[trigger] c1.stack_of(p) == c0.stack_of(p) || (!c0.has_place(p) && c1.stack_of(p) == seq![0u32])
}

proof fn lemma_grown_empty(c: RenameContext)
    ensures
        grown(c, c, Seq::empty()),
{
    assert forall|p: Place| #[trigger] place_count(Seq::<Place>::empty(), p) == 0 by {}
}

proof fn lemma_grown_push(c0: RenameContext, c1: RenameContext, c2: RenameContext, a: Seq<Place>, q: Place, v: u32)
    requires
        grown(c0, c1, a),
        forall|p: Place| #[trigger] c2.has_place(p) == (c1.has_place(p) || p == q),
        c2.stack_of(q) == c1.base_stack(q).push(v),
        forall|p: Place| p != q ==> #[trigger] c2.stack_of(p) == c1.stack_of(p),
    ensures
        grown(c0, c2, a.push(q)),
{
    assert forall|p: Place| #[trigger] place_count(a.push(q), p) == place_count(a, p) + (if q == p {
        1nat
    } else {
        0nat
    }) by {
        lemma_place_count_push(a, q, p);
    }
    assert forall|p: Place| #[trigger] c2.stack_of(p) == (if place_count(a.push(q), p) > 0 {
        c0.base_stack(p) + c2.stack_of(p).skip(c0.base_stack(p).len() as int)
    } else {
        c0.stack_of(p)
    }) && (place_count(a.push(q), p) > 0 ==> c2.stack_of(p).len() == c0.base_stack(p).len() + place_count(a.push(q), p)) by {
        let b0 = c0.base_stack(p);
        if p == q {
            if place_count(a, p) > 0 {
                assert(c1.has_place(p));
                assert(c1.stack_of(p) == b0 + c1.stack_of(p).skip(b0.len() as int));
                assert(c2.stack_of(p) =~= b0 + c2.stack_of(p).skip(b0.len() as int));
            } else {
                assert(c1.has_place(p) == c0.has_place(p));
                assert(c1.stack_of(p) == c0.stack_of(p));
                assert(c1.base_stack(p) == b0);
                assert(c2.stack_of(p) =~= b0 + c2.stack_of(p).skip(b0.len() as int));
            }
        }
    }
}

proof fn lemma_grown_append(c0: RenameContext, c1: RenameContext, c2: RenameContext, a: Seq<Place>, b: Seq<Place>)
    requires
        grown(c0, c1, a),
        grown(c1, c2, b),
    ensures
        grown(c0, c2, a + b),
{
    assert forall|p: Place| #[trigger] place_count(a + b, p) == place_count(a, p) + place_count(b, p) by {
        lemma_place_count_append(a, b, p);
    }
    assert forall|p: Place| #[trigger] c2.stack_of(p) == (if place_count(a + b, p) > 0 {
        c0.base_stack(p) + c2.stack_of(p).skip(c0.base_stack(p).len() as int)
    } else {
        c0.stack_of(p)
    }) && (place_count(a + b, p) > 0 ==> c2.stack_of(p).len() == c0.base_stack(p).len() + place_count(a + b, p)) by {
        let b0 = c0.base_stack(p);
        let s1 = c1.stack_of(p);
        let s2 = c2.stack_of(p);
        if place_count(a, p) > 0 {
            assert(c1.has_place(p));
            assert(s1 == b0 + s1.skip(b0.len() as int));
            if place_count(b, p) > 0 {
                assert(c1.base_stack(p) == s1);
                assert(s2 == s1 + s2.skip(s1.len() as int));
                assert(s2 =~= b0 + s2.skip(b0.len() as int)) by {
                    assert forall|k: int| 0 <= k < b0.len() implies s2[k] == b0[k] by {
                        assert(s2[k] == s1[k]);
                        assert(s1[k] == b0[k]);
                    }
                }
            }
        } else {
            assert(c1.has_place(p) == c0.has_place(p));
            assert(s1 == c0.stack_of(p));
            assert(c1.base_stack(p) == b0);
        }
    }
}

proof fn lemma_restored_trans(c0: RenameContext, c1: RenameContext, c2: RenameContext)
    requires
        restored(c0, c1),
        restored(c1, c2),
    ensures
        restored(c0, c2),
{
    assert forall|p: Place| #[trigger] c2.stack_of(p) == c0.stack_of(p) || (!c0.has_place(p) && c2.stack_of(p) == seq![0u32]) by {
        if c2.stack_of(p) != c1.stack_of(p) {
            assert(!c1.has_place(p));
            assert(!c0.has_place(p));
        }
        if c1.stack_of(p) != c0.stack_of(p) && c2.stack_of(p) == c1.stack_of(p) {
            assert(!c0.has_place(p));
        }
    }
}

/// Pushing a version for each of `pushed`, walking on in a way that leaves the stacks as they
/// were, and popping one version for each of `pushed` leaves the stacks as they were.
proof fn lemma_pop_restores(c0: RenameContext, c2: RenameContext, c3: RenameContext, c4: RenameContext, pushed: Seq<Place>)
    requires
        grown(c0, c2, pushed),
        restored(c2, c3),
        forall|p: Place| #[trigger] c4.stack_of(p) == popped(c3.stack_of(p), place_count(pushed, p)),
        forall|p: Place| #[trigger] c4.has_place(p) == c3.has_place(p),
    ensures
        restored(c0, c4),
{
    assert forall|p: Place| #[trigger] c0.has_place(p) implies c4.has_place(p) by {
        assert(c2.has_place(p));
        assert(c3.has_place(p));
    }
    assert forall|p: Place| #[trigger] c4.stack_of(p) == c0.stack_of(p) || (!c0.has_place(p) && c4.stack_of(p) == seq![0u32]) by {
        let m = place_count(pushed, p);
        let b0 = c0.base_stack(p);
        let s2 = c2.stack_of(p);
        let s3 = c3.stack_of(p);
        if m > 0 {
            assert(c2.has_place(p));
            assert(s3 == s2);
            assert(s2 == b0 + s2.skip(b0.len() as int));
            if m >= s3.len() {
                assert(b0.len() == 0);
                assert(c0.has_place(p));
                assert(c4.stack_of(p) =~= c0.stack_of(p));
            } else {
                assert(c4.stack_of(p) == s3.take(s3.len() - m));
                assert(c4.stack_of(p) =~= b0);
            }
        } else {
            assert(s3.take(s3.len() as int) =~= s3);
            assert(c2.has_place(p) == c0.has_place(p));
            assert(s2 == c0.stack_of(p));
        }
    }
}

/// Handing out a fresh version for the definition at one position, the others unchanged,
/// keeps renaming to one definition per version.
proof fn lemma_renames_one(
    c0: RenameContext,
    c1: RenameContext,
    d0: spec_fn(int, int, int) -> Option<Var>,
    d1: spec_fn(int, int, int) -> Option<Var>,
    i: int,
    k: int,
    j: int,
    v: Var,
)
    requires
        c0.renames(d0),
        c1.hands_out(c0, v),
        d1(i, k, j) == Some(v),
        forall|i2: int, k2: int, j2: int| (i2, k2, j2) != (i, k, j) ==> #[trigger] d1(i2, k2, j2) == d0(i2, k2, j2),
    ensures
        c1.renames(d1),
{
    if !c1.overflowed {
        assert(!c0.overflowed);
        assert forall|i2: int, k2: int, j2: int| #[trigger] d1(i2, k2, j2) is Some implies d1(i2, k2, j2).unwrap().version_spec() <= c1.counter_of(
            d1(i2, k2, j2).unwrap().place_spec(),
        ) by {
            if (i2, k2, j2) != (i, k, j) {
                assert(d0(i2, k2, j2) is Some);
            }
        }
        assert forall|i1: int, k1: int, j1: int, i2: int, k2: int, j2: int|
            #![trigger d1(i1, k1, j1), d1(i2, k2, j2)]
            (i1, k1, j1) != (i2, k2, j2) && d1(i1, k1, j1) is Some && d1(i1, k1, j1) == d1(i2, k2, j2) implies d1(i1, k1, j1).unwrap().version_spec() == 0 by {
            if (i1, k1, j1) == (i, k, j) {
                assert(d0(i2, k2, j2) is Some);
                assert(d0(i2, k2, j2).unwrap().version_spec() <= c0.counter_of(v.place_spec()));
            } else if (i2, k2, j2) == (i, k, j) {
                assert(d0(i1, k1, j1) is Some);
                assert(d0(i1, k1, j1).unwrap().version_spec() <= c0.counter_of(v.place_spec()));
            } else {
                assert(d0(i1, k1, j1) == d1(i1, k1, j1));
                assert(d0(i2, k2, j2) == d1(i2, k2, j2));
            }
        }
    }
}

/// Renaming is kept where the counts and the definitions stay as they are.
proof fn lemma_renames_same(c0: RenameContext, c1: RenameContext, d0: spec_fn(int, int, int) -> Option<Var>, d1: spec_fn(int, int, int) -> Option<Var>)
    requires
        c0.renames(d0),
        c1.overflowed == c0.overflowed,
        forall|p: Place| #[trigger] c1.counter_of(p) == c0.counter_of(p),
        forall|i: int, k: int, j: int| #[trigger] d1(i, k, j) == d0(i, k, j),
    ensures
        c1.renames(d1),
{
    if !c1.overflowed {
        assert forall|i: int, k: int, j: int| #[trigger] d1(i, k, j) is Some implies d1(i, k, j).unwrap().version_spec() <= c1.counter_of(
            d1(i, k, j).unwrap().place_spec(),
        ) by {
            assert(d0(i, k, j) is Some);
            assert(c1.counter_of(d1(i, k, j).unwrap().place_spec()) == c0.counter_of(d1(i, k, j).unwrap().place_spec()));
        }
        assert forall|i1: int, k1: int, j1: int, i2: int, k2: int, j2: int|
            #![trigger d1(i1, k1, j1), d1(i2, k2, j2)]
            (i1, k1, j1) != (i2, k2, j2) && d1(i1, k1, j1) is Some && d1(i1, k1, j1) == d1(i2, k2, j2) implies d1(i1, k1, j1).unwrap().version_spec() == 0 by {
            assert(d0(i1, k1, j1) == d1(i1, k1, j1));
            assert(d0(i2, k2, j2) == d1(i2, k2, j2));
        }
    }
}

/// The definitions `d` with those of the instructions of block `id` taken from `renamed`, as
/// far as it goes.
pub open spec fn with_renamed(d: spec_fn(int, int, int) -> Option<Var>, id: int, renamed: Seq<Instruction>) -> spec_fn(int, int, int) -> Option<Var> {
    |i: int, k: int, j: int|
        if i == id && k == 1 && 0 <= j < renamed.len() {
            kind_def(renamed[j].kind)
        } else {
            d(i, k, j)
        }
}

/// `v` as a use reads it under `ctx`: a variable at the version on top of its place's stack.
spec fn renamed_value(ctx: RenameContext, v: Value) -> Value {
    match v {
        Value::Var(x) => Value::Var(Var::at(x.place_spec(), ctx.top_of(x.place_spec()))),
        Value::Imm(i) => Value::Imm(i),
    }
}

/// `t` with the value its conditional branch tests read under `ctx`.
pub closed spec fn renamed_terminator(ctx: RenameContext, t: Terminator) -> Terminator {
    match t.kind {
        TerminatorKind::ConditionalBranch { cond: BranchCondition::NonZero(v), target } => Terminator {
            addr: t.addr,
            kind: TerminatorKind::ConditionalBranch { cond: BranchCondition::NonZero(renamed_value(ctx, v)), target },
        },
        _ => t,
    }
}

/// `Value` with a use renamed: a variable reads the current version of its place.
fn rename_use(ctx: &RenameContext, v: Value) -> (res: Value)
    requires
        ctx.wf(),
    ensures
        erase_value(res) == erase_value(v),
        res == renamed_value(*ctx, v),
{
    match v {
        Value::Var(x) => {
            let r = ctx.current_var(x.place());
            proof {
                Var::lemma_at(x.place_spec(), ctx.top_of(x.place_spec()));
            }
            Value::Var(r)
        },
        Value::Imm(i) => Value::Imm(i),
    }
}

/// The place that an instruction of kind `k` defines, if any, as a sequence.
spec fn kind_places(k: InstructionKind) -> Seq<Place> {
    match kind_def(k) {
        Some(v) => seq![v.place_spec()],
        None => Seq::empty(),
    }
}

/// `src` with its uses read under `ctx`.
spec fn renamed_rhs(ctx: RenameContext, src: Rhs) -> Rhs {
    match src {
        Rhs::BinOp { op, lhs, rhs } => Rhs::BinOp { op, lhs: renamed_value(ctx, lhs), rhs: renamed_value(ctx, rhs) },
        Rhs::Load { src } => Rhs::Load { src: renamed_value(ctx, src) },
        Rhs::Copy { src } => Rhs::Copy { src: renamed_value(ctx, src) },
    }
}

/// `k` renamed under `ctx`: its uses read the versions on top of their stacks, its definition
/// gets the next version of its place.
pub closed spec fn kind_renamed(ctx: RenameContext, k: InstructionKind) -> InstructionKind {
    match k {
        InstructionKind::Assign { dst, src } => InstructionKind::Assign {
            dst: Var::at(dst.place_spec(), after_handouts(ctx.counter_of(dst.place_spec()), 1)),
            src: renamed_rhs(ctx, src),
        },
        InstructionKind::Store { dst, src } => InstructionKind::Store { dst: renamed_value(ctx, dst), src: renamed_value(ctx, src) },
        InstructionKind::Call { target } => InstructionKind::Call { target: renamed_value(ctx, target) },
    }
}

fn rename_kind(ctx: &mut RenameContext, k: InstructionKind, pushed: &mut Vec<Place>) -> (res: InstructionKind)
    requires
        old(ctx).wf(),
    ensures
        final(ctx).wf(),
        erase_kind(res) == erase_kind(k),
        kind_def(res) is Some <==> kind_def(k) is Some,
        match kind_def(res) {
            Some(v) => final(ctx).hands_out(*old(ctx), v),
            None => final(ctx).overflowed == old(ctx).overflowed && forall|p: Place| #[trigger] final(ctx).counter_of(p) == old(ctx).counter_of(p),
        },
        res == kind_renamed(*old(ctx), k),
        handed_out_all(*old(ctx), *final(ctx), kind_places(k)),
        final(pushed)@ == old(pushed)@ + kind_places(k),
        grown(*old(ctx), *final(ctx), kind_places(k)),
{
    proof {
        assert forall|p: Place| #[trigger] place_count(Seq::<Place>::empty(), p) == 0 by {}
        assert(old(pushed)@ + Seq::<Place>::empty() =~= old(pushed)@);
        lemma_grown_empty(*old(ctx));
    }
    match k {
        InstructionKind::Assign { dst, src } => {
            let src2 = match src {
                Rhs::BinOp { op, lhs, rhs } => {
                    let l = rename_use(ctx, lhs);
                    let r = rename_use(ctx, rhs);
                    Rhs::BinOp { op, lhs: l, rhs: r }
                },
                Rhs::Load { src } => Rhs::Load { src: rename_use(ctx, src) },
                Rhs::Copy { src } => Rhs::Copy { src: rename_use(ctx, src) },
            };
            let ghost c1 = *ctx;
            let dst2 = ctx.define_var(dst.place(), pushed);
            proof {
                Var::lemma_eq(erase_var(dst2), erase_var(dst));
                Var::lemma_at(dst2.place_spec(), 0);
                Var::lemma_at(dst.place_spec(), 0);
                let place = dst.place_spec();
                let ps = kind_places(k);
                assert(ps =~= Seq::<Place>::empty().push(place));
                assert forall|p: Place| #[trigger] place_count(ps, p) == (if place == p {
                    1nat
                } else {
                    0nat
                }) by {
                    lemma_place_count_push(Seq::<Place>::empty(), place, p);
                }
                assert(ps.take(0) =~= Seq::<Place>::empty());
                assert(c1 == *old(ctx));
                Var::lemma_eq(dst2, Var::at(place, after_handouts(old(ctx).counter_of(place), 1)));
                Var::lemma_at(place, after_handouts(old(ctx).counter_of(place), 1));
                assert(pushed@ =~= old(pushed)@ + ps);
                lemma_grown_push(c1, c1, *ctx, Seq::empty(), place, dst2.version_spec());
            }
            InstructionKind::Assign { dst: dst2, src: src2 }
        },
        InstructionKind::Store { dst, src } => {
            let d = rename_use(ctx, dst);
            let s = rename_use(ctx, src);
            InstructionKind::Store { dst: d, src: s }
        },
        InstructionKind::Call { target } => InstructionKind::Call { target: rename_use(ctx, target) },
    }
}

fn rename_terminator(ctx: &RenameContext, t: Terminator) -> (res: Terminator)
    requires
        ctx.wf(),
    ensures
        erase_term(res) == erase_term(t),
        res.addr == t.addr,
        res == renamed_terminator(*ctx, t),
{
    match t.kind {
        TerminatorKind::ConditionalBranch { cond: BranchCondition::NonZero(v), target } => Terminator {
            addr: t.addr,
            kind: TerminatorKind::ConditionalBranch { cond: BranchCondition::NonZero(rename_use(ctx, v)), target },
        },
        _ => t,
    }
}

/// `b` is `a` with the same graph and blocks, except for the phi functions of the blocks; each
/// block's instructions and terminator are the same once versions are dropped.
pub open spec fn body_kept(a: Function, b: Function) -> bool {
    &&& b.wf()
    &&& b.name_spec() == a.name_spec()
    &&& b.entry_spec() == a.entry_spec()
    &&& b.cfg_spec() == a.cfg_spec()
    &&& b.blocks_spec().len() == a.blocks_spec().len()
    &&& forall|i: int| #![trigger b.blocks_spec()[i]] 0 <= i < a.blocks_spec().len() ==> block_body_kept(a.blocks_spec()[i], b.blocks_spec()[i])
}

/// `y` is `x` with its variables' versions changed and its phi functions changed.
pub open spec fn block_body_kept(x: Block, y: Block) -> bool {
    &&& y.id_spec() == x.id_spec()
    &&& y.label_spec() == x.label_spec()
    &&& y.start_spec() == x.start_spec()
    &&& y.end_spec() == x.end_spec()
    &&& erase_insns(y.instructions_spec()) == erase_insns(x.instructions_spec())
    &&& erase_term(y.terminator_spec()) == erase_term(x.terminator_spec())
    &&& y.wf()
}

/// Besides `body_kept`, each block keeps its phi functions, with their places.
pub open spec fn shape_kept(a: Function, b: Function) -> bool {
    &&& body_kept(a, b)
    &&& forall|i: int| #![trigger b.blocks_spec()[i]] 0 <= i < a.blocks_spec().len() ==> phis_kept(a.blocks_spec()[i], b.blocks_spec()[i])
}

/// `y` has the phi functions of `x`, each for the same place.
pub open spec fn phis_kept(x: Block, y: Block) -> bool {
    &&& y.phis_spec().len() == x.phis_spec().len()
    &&& forall|j: int| 0 <= j < x.phis_spec().len() ==> erase_var(#[trigger] y.phis_spec()[j].dst_spec()) == erase_var(x.phis_spec()[j].dst_spec())
}

proof fn lemma_kept_blocks_wf(a: Function, b: Function)
    requires
        body_kept(a, b),
    ensures
        forall|i: int| 0 <= i < b.blocks_spec().len() ==> (#[trigger] b.blocks_spec()[i]).wf(),
{
    assert forall|i: int| 0 <= i < b.blocks_spec().len() implies (#[trigger] b.blocks_spec()[i]).wf() by {
        assert(block_body_kept(a.blocks_spec()[i], b.blocks_spec()[i]));
    }
}


proof fn lemma_shape_kept_refl(a: Function)
    requires
        a.wf(),
        forall|i: int| 0 <= i < a.blocks_spec().len() ==> (#[trigger] a.blocks_spec()[i]).wf(),
    ensures
        shape_kept(a, a),
{
}

proof fn lemma_shape_kept_trans(a: Function, b: Function, c: Function)
    requires
        shape_kept(a, b),
        shape_kept(b, c),
    ensures
        shape_kept(a, c),
{
    assert forall|i: int| #![trigger c.blocks_spec()[i]] 0 <= i < a.blocks_spec().len() implies phis_kept(a.blocks_spec()[i], c.blocks_spec()[i])
        && block_body_kept(a.blocks_spec()[i], c.blocks_spec()[i]) by {
        let x = a.blocks_spec()[i];
        let y = b.blocks_spec()[i];
        let z = c.blocks_spec()[i];
        assert(phis_kept(x, y) && phis_kept(y, z));
        assert(block_body_kept(x, y) && block_body_kept(y, z));
        assert forall|j: int| 0 <= j < x.phis_spec().len() implies erase_var(#[trigger] z.phis_spec()[j].dst_spec()) == erase_var(x.phis_spec()[j].dst_spec()) by {
            assert(erase_var(y.phis_spec()[j].dst_spec()) == erase_var(x.phis_spec()[j].dst_spec()));
        }
    }
}

/// `c` after `m` more versions are handed out, held at `u32::MAX` once reached.
spec fn after_handouts(c: u32, m: nat) -> u32 {
    if c + m <= u32::MAX {
        (c + m) as u32
    } else {
        u32::MAX
    }
}

/// The places that `phis` define, in order.
spec fn phi_places(phis: Seq<PhiFunc>) -> Seq<Place> {
    Seq::new(phis.len(), |j: int| phis[j].dst_spec().place_spec())
}

/// The version that the phi function at position `j` of `phis` gets when they are renamed in
/// order under `ctx`.
spec fn phi_version(ctx: RenameContext, phis: Seq<PhiFunc>, j: int) -> u32 {
    let p = phis[j].dst_spec().place_spec();
    after_handouts(ctx.counter_of(p), place_count(phi_places(phis).take(j + 1), p))
}

/// `y` is block `x` with its first `i` phi functions defining, in order, the versions that
/// `ctx` hands out for their places; nothing else differs.
spec fn phis_defined_upto(x: Block, y: Block, ctx: RenameContext, i: int) -> bool {
    &&& y.phis_spec().len() == x.phis_spec().len()
    &&& forall|j: int| 0 <= j < i && j < x.phis_spec().len() ==> (#[trigger] y.phis_spec()[j]).dst_spec() == Var::at(
        x.phis_spec()[j].dst_spec().place_spec(),
        phi_version(ctx, x.phis_spec(), j),
    ) && y.phis_spec()[j].args_spec() == x.phis_spec()[j].args_spec()
    &&& forall|j: int| i <= j < x.phis_spec().len() ==> #[trigger] y.phis_spec()[j] == x.phis_spec()[j]
    &&& y.id_spec() == x.id_spec()
    &&& y.label_spec() == x.label_spec()
    &&& y.instructions_spec() == x.instructions_spec()
    &&& y.terminator_spec() == x.terminator_spec()
    &&& y.start_spec() == x.start_spec()
    &&& y.end_spec() == x.end_spec()
}

/// `c1` follows `c0` by handing out one version for each of `places`, in order: the counts
/// grow, the stacks of those places get the last version on top, and the context runs out
/// where one place was at the limit when its turn came.
spec fn handed_out_all(c0: RenameContext, c1: RenameContext, places: Seq<Place>) -> bool {
    &&& forall|p: Place| #[trigger] c1.counter_of(p) == after_handouts(c0.counter_of(p), place_count(places, p))
    &&& forall|p: Place| #[trigger] c1.top_of(p) == (if place_count(places, p) > 0 {
        c1.counter_of(p)
    } else {
        c0.top_of(p)
    })
    &&& c1.overflowed == (c0.overflowed || exists|j: int| 0 <= j < places.len() && c0.counter_of(places[j]) + place_count(#[trigger] places.take(j), places[j]) >= u32::MAX)
}

proof fn lemma_place_count_push(s: Seq<Place>, x: Place, p: Place)
    ensures
        place_count(s.push(x), p) == place_count(s, p) + (if x == p {
            1nat
        } else {
            0nat
        }),
    decreases s.len(),
{
    if s.len() == 0 {
        assert(s.push(x).drop_first() =~= Seq::<Place>::empty());
        assert(place_count(Seq::<Place>::empty(), p) == 0);
    } else {
        assert(s.push(x).drop_first() =~= s.drop_first().push(x));
        lemma_place_count_push(s.drop_first(), x, p);
    }
}

/// Gives the phi functions of the block of `node` fresh versions of their places, in order.
fn rename_phi_defs(ctx: &mut RenameContext, func: &mut Function, node: usize, pushed: &mut Vec<Place>)
    requires
        old(ctx).wf(),
        old(func).wf(),
        old(func).keys_in_arena(),
        old(func).cfg_spec().nodes().contains_key(node as nat),
        forall|i: int| 0 <= i < old(func).blocks_spec().len() ==> (#[trigger] old(func).blocks_spec()[i]).wf(),
    ensures
        final(ctx).wf(),
        shape_kept(*old(func), *final(func)),
        final(func).keys_in_arena(),
        old(ctx).renames(blocks_defs(old(func).blocks_spec())) ==> final(ctx).renames(blocks_defs(final(func).blocks_spec())),
        final(func).blocks_spec().len() == old(func).blocks_spec().len(),
        forall|k: int| 0 <= k < old(func).blocks_spec().len() && k != old(func).cfg_spec().nodes()[node as nat] ==> #[trigger] final(func).blocks_spec()[k] == old(func).blocks_spec()[k],
        phis_defined_upto(
            node_block(*old(func), node),
            node_block(*final(func), node),
            *old(ctx),
            node_block(*old(func), node).phis_spec().len() as int,
        ),
        handed_out_all(*old(ctx), *final(ctx), phi_places(node_block(*old(func), node).phis_spec())),
        final(pushed)@ == old(pushed)@ + phi_places(node_block(*old(func), node).phis_spec()),
        grown(*old(ctx), *final(ctx), phi_places(node_block(*old(func), node).phis_spec())),
{
    proof {
        lemma_shape_kept_refl(*func);
    }
    let id = func.block_for_node(node);
    let n = func.block(id).phis().len();
    let ghost x = old(func).blocks_spec()[id as int];
    let ghost places = phi_places(x.phis_spec());
    proof {
        assert(places.take(0) =~= Seq::<Place>::empty());
        assert(old(pushed)@ + places.take(0) =~= old(pushed)@);
        lemma_grown_empty(*old(ctx));
    }
    let mut i: usize = 0;
    while i < n
        invariant
            0 <= i <= n,
            ctx.wf(),
            func.wf(),
            func.keys_in_arena(),
            id < func.blocks_spec().len(),
            id == old(func).cfg_spec().nodes()[node as nat],
            x == old(func).blocks_spec()[id as int],
            places == phi_places(x.phis_spec()),
            n == x.phis_spec().len(),
            n == func.blocks_spec()[id as int].phis_spec().len(),
            shape_kept(*old(func), *func),
            forall|k: int| 0 <= k < func.blocks_spec().len() ==> (#[trigger] func.blocks_spec()[k]).wf(),
            old(ctx).renames(blocks_defs(old(func).blocks_spec())) ==> ctx.renames(blocks_defs(func.blocks_spec())),
            func.blocks_spec().len() == old(func).blocks_spec().len(),
            forall|k: int| 0 <= k < old(func).blocks_spec().len() && k != id ==> #[trigger] func.blocks_spec()[k] == old(func).blocks_spec()[k],
            phis_defined_upto(x, func.blocks_spec()[id as int], *old(ctx), i as int),
            handed_out_all(*old(ctx), *ctx, places.take(i as int)),
            pushed@ == old(pushed)@ + places.take(i as int),
            grown(*old(ctx), *ctx, places.take(i as int)),
        decreases n - i,
    {
        let place = func.block(id).phis()[i].dst().place();
        let ghost c0 = *ctx;
        let v = ctx.define_var(place, pushed);
        proof {
            assert(place == places[i as int]);
            assert(places.take(i + 1) =~= places.take(i as int).push(place));
            assert(pushed@ =~= old(pushed)@ + places.take(i + 1));
            lemma_grown_push(*old(ctx), c0, *ctx, places.take(i as int), place, v.version_spec());
            assert forall|p: Place| #[trigger] place_count(places.take(i + 1), p) == place_count(places.take(i as int), p) + (if place == p {
                1nat
            } else {
                0nat
            }) by {
                lemma_place_count_push(places.take(i as int), place, p);
            }
            assert(v.version_spec() == phi_version(*old(ctx), x.phis_spec(), i as int));
            assert forall|p: Place| #[trigger] ctx.counter_of(p) == after_handouts(old(ctx).counter_of(p), place_count(places.take(i + 1), p)) by {
                assert(place_count(places.take(i + 1), p) == place_count(places.take(i as int), p) + (if place == p {
                    1nat
                } else {
                    0nat
                }));
            }
            assert forall|p: Place| #[trigger] ctx.top_of(p) == (if place_count(places.take(i + 1), p) > 0 {
                ctx.counter_of(p)
            } else {
                old(ctx).top_of(p)
            }) by {
                assert(place_count(places.take(i + 1), p) == place_count(places.take(i as int), p) + (if place == p {
                    1nat
                } else {
                    0nat
                }));
            }
            let full = c0.counter_of(place) == u32::MAX;
            assert(full == (old(ctx).counter_of(place) + place_count(places.take(i as int), place) >= u32::MAX));
            let e0 = exists|j: int| 0 <= j < i && old(ctx).counter_of(places.take(i as int)[j]) + place_count(#[trigger] places.take(i as int).take(j), places.take(i as int)[j]) >= u32::MAX;
            let e1 = exists|j: int| 0 <= j < i + 1 && old(ctx).counter_of(places.take(i + 1)[j]) + place_count(#[trigger] places.take(i + 1).take(j), places.take(i + 1)[j]) >= u32::MAX;
            assert(e1 == (e0 || full)) by {
                assert(places.take(i + 1).take(i as int) =~= places.take(i as int));
                if e0 {
                    let j = choose|j: int| 0 <= j < i && old(ctx).counter_of(places.take(i as int)[j]) + place_count(#[trigger] places.take(i as int).take(j), places.take(i as int)[j]) >= u32::MAX;
                    assert(places.take(i + 1).take(j) =~= places.take(i as int).take(j));
                    assert(places.take(i + 1)[j] == places.take(i as int)[j]);
                }
                if e1 {
                    let j = choose|j: int| 0 <= j < i + 1 && old(ctx).counter_of(places.take(i + 1)[j]) + place_count(#[trigger] places.take(i + 1).take(j), places.take(i + 1)[j]) >= u32::MAX;
                    if j < i {
                        assert(places.take(i + 1).take(j) =~= places.take(i as int).take(j));
                        assert(places.take(i + 1)[j] == places.take(i as int)[j]);
                    }
                }
                if full {
                    assert(places.take(i + 1)[i as int] == place);
                }
            }
        }
        let ghost f0 = *func;
        {
            let block = func.block_mut(id);
            let phi = block.phi_mut(i);
            phi.set_dst(v);
        }
        proof {
            let b0 = f0.blocks_spec();
            let b1 = func.blocks_spec();
            assert(ctx.hands_out(c0, v));
            assert(blocks_defs(b1)(id as int, 0, i as int) == Some(v));
            assert forall|i2: int, k2: int, j2: int| (i2, k2, j2) != (id as int, 0int, i as int) implies #[trigger] blocks_defs(b1)(i2, k2, j2)
                == blocks_defs(b0)(i2, k2, j2) by {
                if i2 == id as int && k2 == 0 && 0 <= j2 < b0[i2].phis_spec().len() {
                    assert(b1[i2].phis_spec()[j2] == b0[i2].phis_spec()[j2]);
                }
            }
            if old(ctx).renames(blocks_defs(old(func).blocks_spec())) {
                lemma_renames_one(c0, *ctx, blocks_defs(b0), blocks_defs(b1), id as int, 0, i as int, v);
            }
        }
        proof {
            Var::lemma_at(place, 0);
            Var::lemma_eq(erase_var(v), erase_var(f0.blocks_spec()[id as int].phis_spec()[i as int].dst_spec()));
            assert(shape_kept(f0, *func)) by {
                assert forall|k: int| #![trigger func.blocks_spec()[k]] 0 <= k < f0.blocks_spec().len() implies phis_kept(f0.blocks_spec()[k], func.blocks_spec()[k])
                    && block_body_kept(f0.blocks_spec()[k], func.blocks_spec()[k]) by {
                    if k == id as int {
                        let xk = f0.blocks_spec()[k];
                        assert forall|j: int| 0 <= j < xk.phis_spec().len() implies erase_var(#[trigger] func.blocks_spec()[k].phis_spec()[j].dst_spec()) == erase_var(xk.phis_spec()[j].dst_spec()) by {
                            if j != i as int {
                                assert(func.blocks_spec()[k].phis_spec()[j] == xk.phis_spec()[j]);
                            }
                        }
                        assert(func.blocks_spec()[k].wf());
                    }
                }
            }
            lemma_shape_kept_trans(*old(func), f0, *func);
        }
        proof {
            let y0 = f0.blocks_spec()[id as int];
            let y1 = func.blocks_spec()[id as int];
            assert(y0.phis_spec()[i as int] == x.phis_spec()[i as int]);
            assert forall|j: int| 0 <= j < i + 1 && j < x.phis_spec().len() implies (#[trigger] y1.phis_spec()[j]).dst_spec() == Var::at(
                x.phis_spec()[j].dst_spec().place_spec(),
                phi_version(*old(ctx), x.phis_spec(), j),
            ) && y1.phis_spec()[j].args_spec() == x.phis_spec()[j].args_spec() by {
                if j < i {
                    assert(y1.phis_spec()[j] == y0.phis_spec()[j]);
                } else {
                    Var::lemma_eq(v, Var::at(place, phi_version(*old(ctx), x.phis_spec(), j)));
                    Var::lemma_at(place, phi_version(*old(ctx), x.phis_spec(), j));
                }
            }
            assert forall|j: int| i + 1 <= j < x.phis_spec().len() implies #[trigger] y1.phis_spec()[j] == x.phis_spec()[j] by {
                assert(y1.phis_spec()[j] == y0.phis_spec()[j]);
            }
            assert(phis_defined_upto(x, y1, *old(ctx), i + 1));
        }
        i = i + 1;
    }
    proof {
        assert(places.take(n as int) =~= places);
    }
}

/// The places that `insns` define, in order.
spec fn def_places(insns: Seq<Instruction>) -> Seq<Place>
    decreases insns.len(),
{
    if insns.len() == 0 {
        Seq::empty()
    } else {
        def_places(insns.drop_last()) + kind_places(insns.last().kind)
    }
}

/// The version that a use of `p` reads once the first `j` of `insns` are renamed from `c0`.
pub closed spec fn top_after(c0: RenameContext, insns: Seq<Instruction>, j: int, p: Place) -> u32 {
    let m = place_count(def_places(insns.take(j)), p);
    if m > 0 {
        after_handouts(c0.counter_of(p), m)
    } else {
        c0.top_of(p)
    }
}

/// `v` as a use reads it once the first `j` of `insns` are renamed from `c0`.
spec fn value_after(c0: RenameContext, insns: Seq<Instruction>, j: int, v: Value) -> Value {
    match v {
        Value::Var(x) => Value::Var(Var::at(x.place_spec(), top_after(c0, insns, j, x.place_spec()))),
        Value::Imm(i) => Value::Imm(i),
    }
}

/// Instruction `j` of `insns` renamed in order from `c0`: its uses read the versions on top
/// once the instructions before it are renamed, its definition gets the next version.
pub closed spec fn renamed_insn(c0: RenameContext, insns: Seq<Instruction>, j: int) -> Instruction {
    Instruction {
        addr: insns[j].addr,
        kind: match insns[j].kind {
            InstructionKind::Assign { dst, src } => InstructionKind::Assign {
                dst: Var::at(dst.place_spec(), top_after(c0, insns, j + 1, dst.place_spec())),
                src: match src {
                    Rhs::BinOp { op, lhs, rhs } => Rhs::BinOp {
                        op,
                        lhs: value_after(c0, insns, j, lhs),
                        rhs: value_after(c0, insns, j, rhs),
                    },
                    Rhs::Load { src } => Rhs::Load { src: value_after(c0, insns, j, src) },
                    Rhs::Copy { src } => Rhs::Copy { src: value_after(c0, insns, j, src) },
                },
            },
            InstructionKind::Store { dst, src } => InstructionKind::Store {
                dst: value_after(c0, insns, j, dst),
                src: value_after(c0, insns, j, src),
            },
            InstructionKind::Call { target } => InstructionKind::Call { target: value_after(c0, insns, j, target) },
        },
    }
}

/// Terminator `t` read once all of `insns` are renamed from `c0`.
pub closed spec fn terminator_after(c0: RenameContext, insns: Seq<Instruction>, t: Terminator) -> Terminator {
    match t.kind {
        TerminatorKind::ConditionalBranch { cond: BranchCondition::NonZero(v), target } => Terminator {
            addr: t.addr,
            kind: TerminatorKind::ConditionalBranch {
                cond: BranchCondition::NonZero(value_after(c0, insns, insns.len() as int, v)),
                target,
            },
        },
        _ => t,
    }
}

/// Instruction `j` of `insns` defines a place whose count was at the limit when its turn came.
spec fn overflows_at(c0: RenameContext, insns: Seq<Instruction>, j: int) -> bool {
    match kind_def(insns[j].kind) {
        Some(v) => c0.counter_of(v.place_spec()) + place_count(def_places(insns.take(j)), v.place_spec()) >= u32::MAX,
        None => false,
    }
}

/// `y` is block `x` with its instructions and terminator renamed in order from `c0`.
spec fn block_renamed(x: Block, y: Block, c0: RenameContext) -> bool {
    &&& y.phis_spec() == x.phis_spec()
    &&& y.id_spec() == x.id_spec()
    &&& y.label_spec() == x.label_spec()
    &&& y.start_spec() == x.start_spec()
    &&& y.end_spec() == x.end_spec()
    &&& y.instructions_spec().len() == x.instructions_spec().len()
    &&& forall|j: int| 0 <= j < x.instructions_spec().len() ==> #[trigger] y.instructions_spec()[j] == renamed_insn(c0, x.instructions_spec(), j)
    &&& y.terminator_spec() == terminator_after(c0, x.instructions_spec(), x.terminator_spec())
}

/// `c1` follows `c0` by renaming all of `insns` in order.
spec fn renamed_through(c0: RenameContext, c1: RenameContext, insns: Seq<Instruction>, i: int) -> bool {
    &&& forall|p: Place| #[trigger] c1.counter_of(p) == after_handouts(c0.counter_of(p), place_count(def_places(insns.take(i)), p))
    &&& forall|p: Place| #[trigger] c1.top_of(p) == top_after(c0, insns, i, p)
    &&& c1.overflowed == (c0.overflowed || exists|j: int| 0 <= j < i && #[trigger] overflows_at(c0, insns, j))
}

proof fn lemma_def_places_step(insns: Seq<Instruction>, i: int)
    requires
        0 <= i < insns.len(),
    ensures
        def_places(insns.take(i + 1)) == def_places(insns.take(i)) + kind_places(insns[i].kind),
{
    assert(insns.take(i + 1).drop_last() =~= insns.take(i));
}

/// Renames the variables of the instructions and terminator of the block of `node`: uses read
/// the current versions, definitions get fresh ones, in the order the block touches them.
fn rename_block_vars(ctx: &mut RenameContext, func: &mut Function, node: usize, pushed: &mut Vec<Place>)
    requires
        old(ctx).wf(),
        old(func).wf(),
        old(func).keys_in_arena(),
        old(func).cfg_spec().nodes().contains_key(node as nat),
        forall|i: int| 0 <= i < old(func).blocks_spec().len() ==> (#[trigger] old(func).blocks_spec()[i]).wf(),
    ensures
        final(ctx).wf(),
        shape_kept(*old(func), *final(func)),
        final(func).keys_in_arena(),
        old(ctx).renames(blocks_defs(old(func).blocks_spec())) ==> final(ctx).renames(blocks_defs(final(func).blocks_spec())),
        final(func).blocks_spec().len() == old(func).blocks_spec().len(),
        forall|k: int| 0 <= k < old(func).blocks_spec().len() && k != old(func).cfg_spec().nodes()[node as nat] ==> #[trigger] final(func).blocks_spec()[k] == old(func).blocks_spec()[k],
        block_renamed(node_block(*old(func), node), node_block(*final(func), node), *old(ctx)),
        renamed_through(
            *old(ctx),
            *final(ctx),
            node_block(*old(func), node).instructions_spec(),
            node_block(*old(func), node).instructions_spec().len() as int,
        ),
        final(pushed)@ == old(pushed)@ + def_places(node_block(*old(func), node).instructions_spec()),
        grown(*old(ctx), *final(ctx), def_places(node_block(*old(func), node).instructions_spec())),
{
    let id = func.block_for_node(node);
    let insns = func.block(id).instructions();
    let ghost b0 = func.blocks_spec();
    let ghost d0 = blocks_defs(b0);
    let mut renamed: Vec<Instruction> = Vec::new();
    proof {
        assert(insns@.take(0) =~= Seq::<Instruction>::empty());
        assert(def_places(Seq::<Instruction>::empty()) =~= Seq::<Place>::empty());
        assert(old(pushed)@ + Seq::<Place>::empty() =~= old(pushed)@);
        assert forall|p: Place| #[trigger] place_count(Seq::<Place>::empty(), p) == 0 by {}
        lemma_grown_empty(*old(ctx));
    }
    let mut i: usize = 0;
    while i < insns.len()
        invariant
            0 <= i <= insns@.len(),
            ctx.wf(),
            renamed@.len() == i,
            forall|k: int| 0 <= k < i ==> erase_insn(#[trigger] renamed@[k]) == erase_insn(insns@[k]),
            id < b0.len(),
            id == old(func).cfg_spec().nodes()[node as nat],
            b0 == old(func).blocks_spec(),
            insns@ == b0[id as int].instructions_spec(),
            d0 == blocks_defs(b0),
            old(ctx).renames(d0) ==> ctx.renames(with_renamed(d0, id as int, renamed@)),
            forall|k: int| 0 <= k < i ==> #[trigger] renamed@[k] == renamed_insn(*old(ctx), insns@, k),
            renamed_through(*old(ctx), *ctx, insns@, i as int),
            pushed@ == old(pushed)@ + def_places(insns@.take(i as int)),
            grown(*old(ctx), *ctx, def_places(insns@.take(i as int))),
        decreases insns@.len() - i,
    {
        let insn = insns[i];
        let ghost c1 = *ctx;
        let ghost r0 = renamed@;
        let kind = rename_kind(ctx, insn.kind, pushed);
        renamed.push(Instruction { addr: insn.addr, kind });
        proof {
            let c0 = *old(ctx);
            let s = insns@;
            lemma_def_places_step(s, i as int);
            let ps0 = def_places(s.take(i as int));
            let ks = kind_places(s[i as int].kind);
            assert(pushed@ =~= old(pushed)@ + def_places(s.take(i + 1)));
            lemma_grown_append(c0, c1, *ctx, ps0, ks);
            assert forall|p: Place| #[trigger] place_count(def_places(s.take(i + 1)), p) == place_count(ps0, p) + place_count(ks, p) by {
                match kind_def(s[i as int].kind) {
                    Some(v) => {
                        assert(ps0 + ks =~= ps0.push(v.place_spec()));
                        assert(ks =~= Seq::<Place>::empty().push(v.place_spec()));
                        lemma_place_count_push(ps0, v.place_spec(), p);
                        lemma_place_count_push(Seq::<Place>::empty(), v.place_spec(), p);
                        assert(place_count(Seq::<Place>::empty(), p) == 0);
                    },
                    None => {
                        assert(ps0 + ks =~= ps0);
                        assert(place_count(Seq::<Place>::empty(), p) == 0);
                    },
                }
            }
            assert(renamed@[i as int] == renamed_insn(c0, s, i as int)) by {
                assert forall|v: Value| #[trigger] renamed_value(c1, v) == value_after(c0, s, i as int, v) by {
                    match v {
                        Value::Var(x) => {
                            assert(c1.top_of(x.place_spec()) == top_after(c0, s, i as int, x.place_spec()));
                        },
                        Value::Imm(_) => {},
                    }
                }
                match s[i as int].kind {
                    InstructionKind::Assign { dst, src } => {
                        let q = dst.place_spec();
                        assert(place_count(ks, q) == 1) by {
                            assert(ks =~= Seq::<Place>::empty().push(q));
                            lemma_place_count_push(Seq::<Place>::empty(), q, q);
                            assert(place_count(Seq::<Place>::empty(), q) == 0);
                        }
                        assert(after_handouts(c1.counter_of(q), 1) == top_after(c0, s, i + 1, q));
                    },
                    _ => {},
                }
            }
            assert forall|p: Place| #[trigger] ctx.counter_of(p) == after_handouts(c0.counter_of(p), place_count(def_places(s.take(i + 1)), p)) by {
                assert(place_count(def_places(s.take(i + 1)), p) == place_count(ps0, p) + place_count(ks, p));
            }
            assert forall|p: Place| #[trigger] ctx.top_of(p) == top_after(c0, s, i + 1, p) by {
                assert(place_count(def_places(s.take(i + 1)), p) == place_count(ps0, p) + place_count(ks, p));
            }
            assert(ctx.overflowed == (c0.overflowed || exists|j: int| 0 <= j < i + 1 && #[trigger] overflows_at(c0, s, j))) by {
                let e0 = exists|j: int| 0 <= j < i && #[trigger] overflows_at(c0, s, j);
                let e1 = exists|j: int| 0 <= j < i + 1 && #[trigger] overflows_at(c0, s, j);
                if e1 && !e0 {
                    let j = choose|j: int| 0 <= j < i + 1 && #[trigger] overflows_at(c0, s, j);
                    assert(j == i as int);
                }
                match kind_def(s[i as int].kind) {
                    Some(v) => {
                        assert(ks.take(0) =~= Seq::<Place>::empty());
                        if overflows_at(c0, s, i as int) {
                            assert(c1.counter_of(v.place_spec()) == u32::MAX);
                        }
                        assert(c1.counter_of(v.place_spec()) == u32::MAX ==> overflows_at(c0, s, i as int));
                    },
                    None => {
                        assert(!overflows_at(c0, s, i as int));
                        assert(!(exists|j: int| 0 <= j < ks.len() && c1.counter_of(ks[j]) + place_count(#[trigger] ks.take(j), ks[j]) >= u32::MAX));
                    },
                }
            }
        }
        proof {
            let e0 = with_renamed(d0, id as int, r0);
            let e1 = with_renamed(d0, id as int, renamed@);
            assert(renamed@ == r0.push(Instruction { addr: insn.addr, kind }));
            assert(d0(id as int, 1, i as int) == kind_def(insns@[i as int].kind));
            assert forall|i2: int, k2: int, j2: int| (i2, k2, j2) != (id as int, 1int, i as int) implies #[trigger] e1(i2, k2, j2) == e0(i2, k2, j2) by {
                if i2 == id as int && k2 == 1 && 0 <= j2 < i {
                    assert(renamed@[j2] == r0[j2]);
                }
            }
            if old(ctx).renames(d0) {
                match kind_def(kind) {
                    Some(v) => {
                        lemma_renames_one(c1, *ctx, e0, e1, id as int, 1, i as int, v);
                    },
                    None => {
                        assert forall|i2: int, k2: int, j2: int| #[trigger] e1(i2, k2, j2) == e0(i2, k2, j2) by {
                            if (i2, k2, j2) == (id as int, 1int, i as int) {
                                assert(kind_def(insn.kind) is None);
                            }
                        }
                        lemma_renames_same(c1, *ctx, e0, e1);
                    },
                }
            }
        }
        i = i + 1;
    }
    let term = rename_terminator(ctx, *func.block(id).terminator());
    let ghost f0 = *func;
    proof {
        assert(erase_insns(renamed@) =~= erase_insns(insns@));
    }
    let ghost rv = renamed@;
    {
        let block = func.block_mut(id);
        block.set_body(renamed, term);
    }
    proof {
        let e = with_renamed(d0, id as int, rv);
        let b1 = func.blocks_spec();
        assert forall|i2: int, k2: int, j2: int| #[trigger] blocks_defs(b1)(i2, k2, j2) == e(i2, k2, j2) by {
            if i2 == id as int && k2 == 0 && 0 <= j2 < b0[i2].phis_spec().len() {
                assert(b1[i2].phis_spec()[j2] == b0[i2].phis_spec()[j2]);
            }
        }
        if old(ctx).renames(d0) {
            lemma_renames_same(*ctx, *ctx, e, blocks_defs(b1));
        }
    }
    proof {
        assert(shape_kept(f0, *func)) by {
            assert forall|k: int| #![trigger func.blocks_spec()[k]] 0 <= k < f0.blocks_spec().len() implies phis_kept(f0.blocks_spec()[k], func.blocks_spec()[k])
                && block_body_kept(f0.blocks_spec()[k], func.blocks_spec()[k]) by {
                if k == id as int {
                    let x = f0.blocks_spec()[k];
                    assert forall|j: int| 0 <= j < x.phis_spec().len() implies erase_var(#[trigger] func.blocks_spec()[k].phis_spec()[j].dst_spec()) == erase_var(x.phis_spec()[j].dst_spec()) by {
                        assert(func.blocks_spec()[k].phis_spec()[j] == x.phis_spec()[j]);
                    }
                    assert(func.blocks_spec()[k].wf());
                }
            }
        }
    }
    proof {
        let x = b0[id as int];
        let y = func.blocks_spec()[id as int];
        assert(insns@.take(insns@.len() as int) =~= insns@);
        assert(y.instructions_spec() == rv);
        assert(y.terminator_spec() == terminator_after(*old(ctx), insns@, x.terminator_spec())) by {
            match x.terminator_spec().kind {
                TerminatorKind::ConditionalBranch { cond: BranchCondition::NonZero(v), target } => {
                    match v {
                        Value::Var(w) => {
                            assert(ctx.top_of(w.place_spec()) == top_after(*old(ctx), insns@, insns@.len() as int, w.place_spec()));
                        },
                        Value::Imm(_) => {},
                    }
                },
                _ => {},
            }
        }
        assert(block_renamed(x, y, *old(ctx)));
        assert forall|k: int| 0 <= k < b0.len() && k != id ==> #[trigger] func.blocks_spec()[k] == b0[k] by {}
    }
}

/// `y` is phi function `x` with the current version of its place, under `ctx`, as the argument
/// that block `id` hands in.
spec fn phi_given_arg(x: PhiFunc, y: PhiFunc, id: BlockId, ctx: RenameContext) -> bool {
    &&& y.dst_spec() == x.dst_spec()
    &&& y.arg_map() == x.arg_map().insert(id, renamed_value(ctx, Value::Var(x.dst_spec())))
}

/// `y` is block `x` with every phi function given the argument of block `id`.
spec fn block_given_args(x: Block, y: Block, id: BlockId, ctx: RenameContext) -> bool {
    &&& y.phis_spec().len() == x.phis_spec().len()
    &&& forall|j: int| 0 <= j < x.phis_spec().len() ==> phi_given_arg(x.phis_spec()[j], #[trigger] y.phis_spec()[j], id, ctx)
    &&& y.instructions_spec() == x.instructions_spec()
    &&& y.terminator_spec() == x.terminator_spec()
}

/// The blocks of the successors of `node` in `func`.
spec fn succ_blocks(func: Function, node: usize) -> Set<int> {
    Set::new(
        |b: int|
            exists|m: nat|
                neighbor_set(func.cfg_spec().sg(), node as nat, Direction::Outgoing).contains(m) && #[trigger] func.cfg_spec().nodes()[m] as int
                    == b,
    )
}

/// Gives the phi functions of each successor of `node` the current version of their place as
/// the argument from the block of `node`.
fn add_phi_args_to_successors(ctx: &RenameContext, func: &mut Function, node: usize)
    requires
        ctx.wf(),
        old(func).wf(),
        old(func).keys_in_arena(),
        old(func).cfg_spec().nodes().contains_key(node as nat),
        forall|i: int| 0 <= i < old(func).blocks_spec().len() ==> (#[trigger] old(func).blocks_spec()[i]).wf(),
    ensures
        shape_kept(*old(func), *final(func)),
        final(func).keys_in_arena(),
        forall|i: int, k: int, j: int| #[trigger] blocks_defs(final(func).blocks_spec())(i, k, j) == blocks_defs(old(func).blocks_spec())(i, k, j),
        forall|b: int| 0 <= b < old(func).blocks_spec().len() ==> if succ_blocks(*old(func), node).contains(b) {
            block_given_args(
                old(func).blocks_spec()[b],
                #[trigger] final(func).blocks_spec()[b],
                old(func).cfg_spec().nodes()[node as nat],
                *ctx,
            )
        } else {
            final(func).blocks_spec()[b] == old(func).blocks_spec()[b]
        },
{
    proof {
        lemma_shape_kept_refl(*func);
        func.lemma_wf();
        func.cfg_spec().lemma_wf();
    }
    let id = func.block_for_node(node);
    let succs = neighbors_directed(func.cfg().graph(), node, Direction::Outgoing);
    let mut k: usize = 0;
    while k < succs.len()
        invariant
            0 <= k <= succs@.len(),
            ctx.wf(),
            func.wf(),
            func.keys_in_arena(),
            shape_kept(*old(func), *func),
            func.cfg_spec() == old(func).cfg_spec(),
            forall|i: int| 0 <= i < succs@.len() ==> sg_nodes(old(func).cfg_spec().sg()).contains_key(#[trigger] succs@[i] as nat),
            forall|i: int| 0 <= i < func.blocks_spec().len() ==> (#[trigger] func.blocks_spec()[i]).wf(),
            forall|i: int, k2: int, j: int| #[trigger] blocks_defs(func.blocks_spec())(i, k2, j) == blocks_defs(old(func).blocks_spec())(i, k2, j),
            id == old(func).cfg_spec().nodes()[node as nat],
            forall|m: usize| #[trigger] succs@.contains(m) <==> neighbor_set(old(func).cfg_spec().sg(), node as nat, Direction::Outgoing).contains(m as nat),
            forall|b: int| 0 <= b < old(func).blocks_spec().len() ==> if exists|q: int| 0 <= q < k && old(func).cfg_spec().nodes()[succs@[q] as nat] as int == b {
                block_given_args(old(func).blocks_spec()[b], #[trigger] func.blocks_spec()[b], id, *ctx)
            } else {
                func.blocks_spec()[b] == old(func).blocks_spec()[b]
            },
        decreases succs@.len() - k,
    {
        let sid = func.block_for_node(succs[k]);
        let n = func.block(sid).phis().len();
        let ghost fs = *func;
        let ghost done = exists|q: int| 0 <= q < k && old(func).cfg_spec().nodes()[succs@[q] as nat] as int == sid as int;
        let mut i: usize = 0;
        while i < n
            invariant
                0 <= i <= n,
                ctx.wf(),
                func.wf(),
                func.keys_in_arena(),
                sid < func.blocks_spec().len(),
                n == func.blocks_spec()[sid as int].phis_spec().len(),
                shape_kept(*old(func), *func),
                func.cfg_spec() == old(func).cfg_spec(),
                forall|q: int| 0 <= q < func.blocks_spec().len() ==> (#[trigger] func.blocks_spec()[q]).wf(),
                forall|q: int, k2: int, j: int| #[trigger] blocks_defs(func.blocks_spec())(q, k2, j) == blocks_defs(old(func).blocks_spec())(q, k2, j),
                id == old(func).cfg_spec().nodes()[node as nat],
                sid < old(func).blocks_spec().len(),
                func.blocks_spec().len() == old(func).blocks_spec().len(),
                forall|b: int| 0 <= b < old(func).blocks_spec().len() && b != sid ==> #[trigger] func.blocks_spec()[b] == fs.blocks_spec()[b],
                func.blocks_spec()[sid as int].instructions_spec() == fs.blocks_spec()[sid as int].instructions_spec(),
                func.blocks_spec()[sid as int].terminator_spec() == fs.blocks_spec()[sid as int].terminator_spec(),
                func.blocks_spec()[sid as int].phis_spec().len() == fs.blocks_spec()[sid as int].phis_spec().len(),
                forall|j: int| i <= j < n ==> #[trigger] func.blocks_spec()[sid as int].phis_spec()[j] == fs.blocks_spec()[sid as int].phis_spec()[j],
                forall|j: int| 0 <= j < i ==> phi_given_arg(
                    old(func).blocks_spec()[sid as int].phis_spec()[j],
                    #[trigger] func.blocks_spec()[sid as int].phis_spec()[j],
                    id,
                    *ctx,
                ),
                fs.blocks_spec()[sid as int] == old(func).blocks_spec()[sid as int] || block_given_args(
                    old(func).blocks_spec()[sid as int],
                    fs.blocks_spec()[sid as int],
                    id,
                    *ctx,
                ),
                old(func).blocks_spec()[sid as int].phis_spec().len() == n,
            decreases n - i,
        {
            let place = func.block(sid).phis()[i].dst().place();
            let arg = ctx.current_var(place);
            let ghost f0 = *func;
            proof {
                assert(func.blocks_spec()[sid as int].wf());
                assert(func.blocks_spec()[sid as int].phis_spec()[i as int].wf());
            }
            {
                let block = func.block_mut(sid);
                let phi = block.phi_mut(i);
                phi.add_arg(id, Value::Var(arg));
            }
            proof {
                let ob = old(func).blocks_spec()[sid as int];
                let sb = fs.blocks_spec()[sid as int];
                let nb = func.blocks_spec()[sid as int];
                let op = ob.phis_spec()[i as int];
                assert(f0.blocks_spec()[sid as int].phis_spec()[i as int] == sb.phis_spec()[i as int]);
                Var::lemma_at(place, ctx.top_of(place));
                if sb == ob {
                    assert(nb.phis_spec()[i as int].arg_map() =~= op.arg_map().insert(id, renamed_value(*ctx, Value::Var(op.dst_spec()))));
                } else {
                    assert(phi_given_arg(op, sb.phis_spec()[i as int], id, *ctx));
                    assert(nb.phis_spec()[i as int].arg_map() =~= op.arg_map().insert(id, renamed_value(*ctx, Value::Var(op.dst_spec()))));
                }
                assert(phi_given_arg(op, nb.phis_spec()[i as int], id, *ctx));
                assert forall|j: int| i + 1 <= j < n implies #[trigger] func.blocks_spec()[sid as int].phis_spec()[j] == fs.blocks_spec()[sid as int].phis_spec()[j] by {
                    assert(nb.phis_spec()[j] == f0.blocks_spec()[sid as int].phis_spec()[j]);
                }
                assert forall|j: int| 0 <= j < i + 1 implies phi_given_arg(
                    old(func).blocks_spec()[sid as int].phis_spec()[j],
                    #[trigger] func.blocks_spec()[sid as int].phis_spec()[j],
                    id,
                    *ctx,
                ) by {
                    if j < i {
                        assert(nb.phis_spec()[j] == f0.blocks_spec()[sid as int].phis_spec()[j]);
                    }
                }
            }
            proof {
                let b0 = f0.blocks_spec();
                let b1 = func.blocks_spec();
                assert forall|q: int, k2: int, j: int| #[trigger] blocks_defs(b1)(q, k2, j) == blocks_defs(old(func).blocks_spec())(q, k2, j) by {
                    assert(blocks_defs(b0)(q, k2, j) == blocks_defs(old(func).blocks_spec())(q, k2, j));
                    if q == sid as int && k2 == 0 && 0 <= j < b0[q].phis_spec().len() {
                        if j != i as int {
                            assert(b1[q].phis_spec()[j] == b0[q].phis_spec()[j]);
                        }
                    }
                }
            }
            proof {
                assert(shape_kept(f0, *func)) by {
                                        assert forall|j: int| 0 <= j < func.blocks_spec()[sid as int].phis_spec().len() implies (#[trigger] func.blocks_spec()[sid as int].phis_spec()[j]).wf() by {
                        if j != i as int {
                            assert(func.blocks_spec()[sid as int].phis_spec()[j] == f0.blocks_spec()[sid as int].phis_spec()[j]);
                        }
                    }
                    assert forall|q: int| #![trigger func.blocks_spec()[q]] 0 <= q < f0.blocks_spec().len() implies phis_kept(f0.blocks_spec()[q], func.blocks_spec()[q])
                        && block_body_kept(f0.blocks_spec()[q], func.blocks_spec()[q]) by {
                        if q == sid as int {
                            let x = f0.blocks_spec()[q];
                            assert forall|j: int| 0 <= j < x.phis_spec().len() implies erase_var(#[trigger] func.blocks_spec()[q].phis_spec()[j].dst_spec()) == erase_var(x.phis_spec()[j].dst_spec()) by {
                                if j != i as int {
                                    assert(func.blocks_spec()[q].phis_spec()[j] == x.phis_spec()[j]);
                                }
                            }
                            assert(func.blocks_spec()[q].wf());
                        }
                    }
                }
                lemma_shape_kept_trans(*old(func), f0, *func);
            }
            i = i + 1;
        }
        proof {
            assert(block_given_args(old(func).blocks_spec()[sid as int], func.blocks_spec()[sid as int], id, *ctx));
            assert(old(func).cfg_spec().nodes()[succs@[k as int] as nat] as int == sid as int);
            assert forall|b: int| 0 <= b < old(func).blocks_spec().len() implies if exists|q: int|
                0 <= q < k + 1 && old(func).cfg_spec().nodes()[succs@[q] as nat] as int == b {
                block_given_args(old(func).blocks_spec()[b], #[trigger] func.blocks_spec()[b], id, *ctx)
            } else {
                func.blocks_spec()[b] == old(func).blocks_spec()[b]
            } by {
                if b != sid as int {
                    assert(func.blocks_spec()[b] == fs.blocks_spec()[b]);
                    if exists|q: int| 0 <= q < k + 1 && old(func).cfg_spec().nodes()[succs@[q] as nat] as int == b {
                        let q = choose|q: int| 0 <= q < k + 1 && old(func).cfg_spec().nodes()[succs@[q] as nat] as int == b;
                        assert(q != k as int);
                    }
                } else {
                    assert(exists|q: int| 0 <= q < k + 1 && old(func).cfg_spec().nodes()[succs@[q] as nat] as int == b) by {
                        assert(old(func).cfg_spec().nodes()[succs@[k as int] as nat] as int == b);
                    }
                }
            }
        }
        k = k + 1;
    }
    proof {
        assert forall|b: int| 0 <= b < old(func).blocks_spec().len() implies (succ_blocks(*old(func), node).contains(b) <==> exists|q: int|
            0 <= q < succs@.len() && old(func).cfg_spec().nodes()[succs@[q] as nat] as int == b) by {
            if succ_blocks(*old(func), node).contains(b) {
                let m = choose|m: nat|
                    neighbor_set(old(func).cfg_spec().sg(), node as nat, Direction::Outgoing).contains(m) && #[trigger] old(func).cfg_spec().nodes()[m] as int == b;
                assert(m < u32::MAX) by {
                    let e = choose|e: nat| #[trigger] crate::graph::edges_at(old(func).cfg_spec().sg(), node as nat, Direction::Outgoing).contains(e)
                        && crate::graph::far_end(old(func).cfg_spec().sg(), e, Direction::Outgoing) == m;
                    assert(crate::graph::sg_edges(old(func).cfg_spec().sg()).contains_key(e));
                }
                assert(succs@.contains(m as usize));
                let q = choose|q: int| 0 <= q < succs@.len() && succs@[q] == m as usize;
                assert(old(func).cfg_spec().nodes()[succs@[q] as nat] as int == b);
            }
            if exists|q: int| 0 <= q < succs@.len() && old(func).cfg_spec().nodes()[succs@[q] as nat] as int == b {
                let q = choose|q: int| 0 <= q < succs@.len() && old(func).cfg_spec().nodes()[succs@[q] as nat] as int == b;
                assert(succs@.contains(succs@[q]));
                assert(neighbor_set(old(func).cfg_spec().sg(), node as nat, Direction::Outgoing).contains(succs@[q] as nat));
            }
        }
    }
}

/// The places that block `b` defines, its phi functions' first, in order.
spec fn block_def_places(b: Block) -> Seq<Place> {
    phi_places(b.phis_spec()) + def_places(b.instructions_spec())
}

proof fn lemma_place_count_append(s: Seq<Place>, t: Seq<Place>, p: Place)
    ensures
        place_count(s + t, p) == place_count(s, p) + place_count(t, p),
    decreases s.len(),
{
    if s.len() == 0 {
        assert(s + t =~= t);
    } else {
        assert((s + t).drop_first() =~= s.drop_first() + t);
        assert((s + t)[0] == s[0]);
        lemma_place_count_append(s.drop_first(), t, p);
    }
}

/// Renames the variables of the block of `node` and, depth first, of the blocks it immediately
/// dominates, then takes its versions off the stacks; `fuel` bounds the depth.
fn rename_vars_in_block(ctx: &mut RenameContext, node: usize, func: &mut Function, idom: &HashMap<usize, usize>, fuel: usize)
    requires
        old(ctx).wf(),
        old(func).wf(),
        old(func).keys_in_arena(),
        old(func).cfg_spec().nodes().contains_key(node as nat),
        forall|i: int| 0 <= i < old(func).blocks_spec().len() ==> (#[trigger] old(func).blocks_spec()[i]).wf(),
    ensures
        final(ctx).wf(),
        shape_kept(*old(func), *final(func)),
        final(func).keys_in_arena(),
        old(ctx).renames(blocks_defs(old(func).blocks_spec())) ==> final(ctx).renames(blocks_defs(final(func).blocks_spec())),
        forall|p: Place| #[trigger] final(ctx).counter_of(p) >= after_handouts(old(ctx).counter_of(p), place_count(block_def_places(node_block(*old(func), node)), p)),
        old(ctx).overflowed ==> final(ctx).overflowed,
        restored(*old(ctx), *final(ctx)),
    decreases fuel,
{
    let mut pushed: Vec<Place> = Vec::new();
    rename_phi_defs(ctx, func, node, &mut pushed);
    let ghost f1 = *func;
    let ghost c1 = *ctx;
    proof {
        lemma_kept_blocks_wf(*old(func), f1);
    }
    rename_block_vars(ctx, func, node, &mut pushed);
    let ghost f2 = *func;
    let ghost c2 = *ctx;
    proof {
        lemma_shape_kept_trans(*old(func), f1, f2);
        lemma_kept_blocks_wf(*old(func), f2);
        let b = node_block(*old(func), node);
        let ps = phi_places(b.phis_spec());
        let ds = def_places(b.instructions_spec());
        assert(node_block(f1, node).instructions_spec() == b.instructions_spec());
        assert(ds.take(ds.len() as int) =~= ds);
        assert(b.instructions_spec().take(b.instructions_spec().len() as int) =~= b.instructions_spec());
        assert forall|p: Place| #[trigger] c2.counter_of(p) == after_handouts(old(ctx).counter_of(p), place_count(block_def_places(b), p)) by {
            lemma_place_count_append(ps, ds, p);
        }
        lemma_grown_append(*old(ctx), c1, c2, ps, ds);
        assert(pushed@ =~= ps + ds);
        if old(ctx).overflowed {
            assert(c1.overflowed);
        }
    }
    add_phi_args_to_successors(ctx, func, node);
    proof {
        lemma_kept_blocks_wf(f2, *func);
        lemma_shape_kept_trans(*old(func), f2, *func);
        func.lemma_wf();
        func.cfg_spec().lemma_wf();
        if old(ctx).renames(blocks_defs(old(func).blocks_spec())) {
            lemma_renames_same(*ctx, *ctx, blocks_defs(f2.blocks_spec()), blocks_defs(func.blocks_spec()));
        }
    }
    if fuel > 0 {
        let nodes = sg_node_indices(func.cfg().graph());
        let mut i: usize = 0;
        while i < nodes.len()
            invariant
                0 <= i <= nodes@.len(),
                ctx.wf(),
                func.wf(),
                func.keys_in_arena(),
                shape_kept(*old(func), *func),
                func.cfg_spec() == old(func).cfg_spec(),
                forall|x: usize| #[trigger] nodes@.contains(x) <==> sg_nodes(old(func).cfg_spec().sg()).contains_key(x as nat),
                forall|q: int| 0 <= q < func.blocks_spec().len() ==> (#[trigger] func.blocks_spec()[q]).wf(),
                fuel > 0,
                old(ctx).renames(blocks_defs(old(func).blocks_spec())) ==> ctx.renames(blocks_defs(func.blocks_spec())),
                forall|p: Place| #[trigger] ctx.counter_of(p) >= c2.counter_of(p),
                c2.overflowed ==> ctx.overflowed,
                restored(c2, *ctx),
            decreases nodes@.len() - i,
        {
            let m = nodes[i];
            proof {
                assert(nodes@.contains(m));
            }
            let child = match idom.get(&m) {
                Some(d) => *d == node,
                None => false,
            };
            if child {
                let ghost f3 = *func;
                let ghost c3 = *ctx;
                rename_vars_in_block(ctx, m, func, idom, fuel - 1);
                proof {
                    lemma_shape_kept_trans(*old(func), f3, *func);
                    lemma_kept_blocks_wf(f3, *func);
                    assert forall|p: Place| #[trigger] ctx.counter_of(p) >= c2.counter_of(p) by {
                        assert(ctx.counter_of(p) >= after_handouts(c3.counter_of(p), place_count(block_def_places(node_block(f3, m)), p)));
                    }
                    lemma_restored_trans(c2, c3, *ctx);
                }
            }
            i = i + 1;
        }
    }
    let ghost c4 = *ctx;
    let ghost pushed_all = pushed@;
    ctx.pop_versions(pushed);
    proof {
        assert forall|p: Place| #[trigger] ctx.has_place(p) == c4.has_place(p) by {}
        lemma_pop_restores(*old(ctx), c2, c4, *ctx, pushed_all);
        if old(ctx).renames(blocks_defs(old(func).blocks_spec())) {
            lemma_renames_same(c4, *ctx, blocks_defs(func.blocks_spec()), blocks_defs(func.blocks_spec()));
        }
    }
}

/// The destinations of `phis`, in order.
pub open spec fn phi_dsts(phis: Seq<PhiFunc>) -> Seq<Var> {
    phis.map_values(|p: PhiFunc| p.dst_spec())
}

/// The variables that `plan` puts a phi function for in block `b`, in the plan's order: those
/// with a site whose node carries `b`.
pub open spec fn planned_dsts(nodes: Map<nat, usize>, plan: Seq<(Var, Vec<usize>)>, b: int) -> Seq<Var>
    decreases plan.len(),
{
    if plan.len() == 0 {
        Seq::empty()
    } else {
        planned_dsts(nodes, plan.drop_last(), b) + if exists|t: int|
            0 <= t < plan.last().1@.len() && nodes[#[trigger] plan.last().1@[t] as nat] == b {
            seq![plan.last().0]
        } else {
            Seq::empty()
        }
    }
}

/// Adds a phi function for each variable of `plan` at the block of each of its sites.
fn place_phis(func: &mut Function, plan: &Vec<(Var, Vec<usize>)>)
    requires
        old(func).wf(),
        old(func).keys_in_arena(),
        forall|i: int| 0 <= i < old(func).blocks_spec().len() ==> (#[trigger] old(func).blocks_spec()[i]).wf(),
        forall|k: int| 0 <= k < plan@.len() ==> (#[trigger] plan@[k]).1@.no_duplicates(),
        forall|k: int, i: int| 0 <= k < plan@.len() && 0 <= i < plan@[k].1@.len() ==> old(func).cfg_spec().nodes().contains_key(
            (#[trigger] plan@[k].1@[i]) as nat,
        ),
    ensures
        body_kept(*old(func), *final(func)),
        final(func).keys_in_arena(),
        forall|b: int| 0 <= b < old(func).blocks_spec().len() ==> phi_dsts(#[trigger] final(func).blocks_spec()[b].phis_spec()) == phi_dsts(
            old(func).blocks_spec()[b].phis_spec(),
        ) + planned_dsts(old(func).cfg_spec().nodes(), plan@, b),
        forall|b: int| 0 <= b < old(func).blocks_spec().len() ==> (#[trigger] final(func).blocks_spec()[b]).instructions_spec()
            == old(func).blocks_spec()[b].instructions_spec(),
{
    proof {
        func.lemma_wf();
        func.cfg_spec().lemma_wf();
        assert forall|b: int| 0 <= b < func.blocks_spec().len() implies phi_dsts(#[trigger] func.blocks_spec()[b].phis_spec()) == phi_dsts(
            old(func).blocks_spec()[b].phis_spec(),
        ) + planned_dsts(old(func).cfg_spec().nodes(), plan@.take(0), b) by {
            assert(plan@.take(0) =~= Seq::<(Var, Vec<usize>)>::empty());
            assert(phi_dsts(old(func).blocks_spec()[b].phis_spec()) + Seq::<Var>::empty() =~= phi_dsts(old(func).blocks_spec()[b].phis_spec()));
        }
        assert forall|i: int| #![trigger func.blocks_spec()[i]] 0 <= i < old(func).blocks_spec().len() implies block_body_kept(
            old(func).blocks_spec()[i],
            func.blocks_spec()[i],
        ) by {
            assert(erase_insns(func.blocks_spec()[i].instructions_spec()) == erase_insns(old(func).blocks_spec()[i].instructions_spec()));
        }
    }
    let ghost nodes = old(func).cfg_spec().nodes();
    let mut k: usize = 0;
    while k < plan.len()
        invariant
            0 <= k <= plan@.len(),
            func.wf(),
            func.keys_in_arena(),
            func.cfg_spec() == old(func).cfg_spec(),
            nodes == old(func).cfg_spec().nodes(),
            crate::graph::unique_keys(func.cfg_spec().sg()),
            body_kept(*old(func), *func),
            forall|k2: int| 0 <= k2 < plan@.len() ==> (#[trigger] plan@[k2]).1@.no_duplicates(),
            forall|k2: int, i: int| 0 <= k2 < plan@.len() && 0 <= i < plan@[k2].1@.len() ==> old(func).cfg_spec().nodes().contains_key(
                (#[trigger] plan@[k2].1@[i]) as nat,
            ),
            forall|b: int| 0 <= b < old(func).blocks_spec().len() ==> phi_dsts(#[trigger] func.blocks_spec()[b].phis_spec()) == phi_dsts(
                old(func).blocks_spec()[b].phis_spec(),
            ) + planned_dsts(nodes, plan@.take(k as int), b),
            forall|b: int| 0 <= b < old(func).blocks_spec().len() ==> (#[trigger] func.blocks_spec()[b]).instructions_spec()
                == old(func).blocks_spec()[b].instructions_spec(),
        decreases plan@.len() - k,
    {
        let v = plan[k].0;
        let sites = &plan[k].1;
        let ghost base = *func;
        let mut t: usize = 0;
        while t < sites.len()
            invariant
                0 <= t <= sites@.len(),
                k < plan@.len(),
                *sites == plan@[k as int].1,
                v == plan@[k as int].0,
                sites@.no_duplicates(),
                forall|i: int| 0 <= i < sites@.len() ==> nodes.contains_key(#[trigger] sites@[i] as nat),
                func.wf(),
                func.keys_in_arena(),
                func.cfg_spec() == old(func).cfg_spec(),
                nodes == old(func).cfg_spec().nodes(),
                crate::graph::unique_keys(func.cfg_spec().sg()),
                body_kept(*old(func), *func),
                base.blocks_spec().len() == func.blocks_spec().len(),
                forall|b: int| 0 <= b < old(func).blocks_spec().len() ==> (#[trigger] func.blocks_spec()[b]).instructions_spec()
                    == old(func).blocks_spec()[b].instructions_spec(),
                forall|b: int| 0 <= b < base.blocks_spec().len() ==> phi_dsts(#[trigger] func.blocks_spec()[b].phis_spec()) == phi_dsts(
                    base.blocks_spec()[b].phis_spec(),
                ) + if exists|q: int| 0 <= q < t && nodes[#[trigger] sites@[q] as nat] == b {
                    seq![v]
                } else {
                    Seq::empty()
                },
            decreases sites@.len() - t,
        {
            proof {
                assert(nodes.contains_key(sites@[t as int] as nat));
            }
            let id = func.block_for_node(sites[t]);
            let ghost f0 = *func;
            proof {
                assert forall|q: int| 0 <= q < t implies nodes[#[trigger] sites@[q] as nat] != id by {
                    assert(sites@[q] != sites@[t as int]);
                    assert(nodes.contains_key(sites@[q] as nat));
                    assert(crate::graph::sg_nodes(func.cfg_spec().sg())[sites@[q] as nat] == crate::graph::sg_nodes(func.cfg_spec().sg())[sites@[t as int] as nat] ==> sites@[q] as nat == sites@[t as int] as nat);
                }
                assert(func.blocks_spec()[id as int].wf());
            }
            {
                let block = func.block_mut(id);
                block.add_phi(PhiFunc::new(v));
            }
            proof {
                assert forall|b: int| 0 <= b < base.blocks_spec().len() implies phi_dsts(#[trigger] func.blocks_spec()[b].phis_spec()) == phi_dsts(
                    base.blocks_spec()[b].phis_spec(),
                ) + if exists|q: int| 0 <= q < t + 1 && nodes[#[trigger] sites@[q] as nat] == b {
                    seq![v]
                } else {
                    Seq::empty()
                } by {
                    if b == id as int {
                        assert(nodes[sites@[t as int] as nat] == b);
                        assert(!exists|q: int| 0 <= q < t && nodes[#[trigger] sites@[q] as nat] == b);
                        assert(phi_dsts(func.blocks_spec()[b].phis_spec()) =~= phi_dsts(f0.blocks_spec()[b].phis_spec()).push(v));
                    } else {
                        assert(func.blocks_spec()[b] == f0.blocks_spec()[b]);
                        if exists|q: int| 0 <= q < t + 1 && nodes[#[trigger] sites@[q] as nat] == b {
                            let q = choose|q: int| 0 <= q < t + 1 && nodes[#[trigger] sites@[q] as nat] == b;
                            assert(q != t as int);
                        }
                    }
                }
                assert forall|i: int| #![trigger func.blocks_spec()[i]] 0 <= i < old(func).blocks_spec().len() implies block_body_kept(
                    old(func).blocks_spec()[i],
                    func.blocks_spec()[i],
                ) by {
                    assert(block_body_kept(old(func).blocks_spec()[i], f0.blocks_spec()[i]));
                    if i == id as int {
                        let x = func.blocks_spec()[i];
                        assert forall|j: int| 0 <= j < x.phis_spec().len() implies (#[trigger] x.phis_spec()[j]).wf() by {
                            if j < f0.blocks_spec()[i].phis_spec().len() {
                                assert(x.phis_spec()[j] == f0.blocks_spec()[i].phis_spec()[j]);
                            }
                        }
                    }
                }
            }
            t = t + 1;
        }
        proof {
            assert(plan@.take(k + 1).drop_last() =~= plan@.take(k as int));
            assert(plan@.take(k + 1).last() == plan@[k as int]);
            assert forall|b: int| 0 <= b < old(func).blocks_spec().len() implies phi_dsts(#[trigger] func.blocks_spec()[b].phis_spec()) == phi_dsts(
                old(func).blocks_spec()[b].phis_spec(),
            ) + planned_dsts(nodes, plan@.take(k + 1), b) by {
                assert(phi_dsts(base.blocks_spec()[b].phis_spec()) == phi_dsts(old(func).blocks_spec()[b].phis_spec()) + planned_dsts(nodes, plan@.take(k as int), b));
                if exists|q: int| 0 <= q < sites@.len() && nodes[#[trigger] sites@[q] as nat] == b {
                    let q = choose|q: int| 0 <= q < sites@.len() && nodes[#[trigger] sites@[q] as nat] == b;
                    assert(plan@.take(k + 1).last().1@[q] == sites@[q]);
                }
                if exists|q: int| 0 <= q < plan@.take(k + 1).last().1@.len() && nodes[#[trigger] plan@.take(k + 1).last().1@[q] as nat] == b {
                    let q = choose|q: int| 0 <= q < plan@.take(k + 1).last().1@.len() && nodes[#[trigger] plan@.take(k + 1).last().1@[q] as nat] == b;
                    assert(sites@[q] == plan@.take(k + 1).last().1@[q]);
                }
                assert(phi_dsts(func.blocks_spec()[b].phis_spec()) =~= phi_dsts(old(func).blocks_spec()[b].phis_spec()) + planned_dsts(nodes, plan@.take(k + 1), b));
            }
        }
        k = k + 1;
    }
    proof {
        assert(plan@.take(plan@.len() as int) =~= plan@);
    }
}

/// Every variable that `plan` places in block `b` is one of the plan's variables.
proof fn lemma_planned_from_plan(nodes: Map<nat, usize>, plan: Seq<(Var, Vec<usize>)>, b: int, t: int)
    requires
        0 <= t < planned_dsts(nodes, plan, b).len(),
    ensures
        exists|k: int| 0 <= k < plan.len() && plan[k].0 == planned_dsts(nodes, plan, b)[t],
    decreases plan.len(),
{
    if plan.len() == 0 {
        assert(planned_dsts(nodes, plan, b) =~= Seq::<Var>::empty());
    } else {
        let prev = planned_dsts(nodes, plan.drop_last(), b);
        if t < prev.len() {
            lemma_planned_from_plan(nodes, plan.drop_last(), b, t);
            let k = choose|k: int| 0 <= k < plan.drop_last().len() && plan.drop_last()[k].0 == prev[t];
            assert(plan[k] == plan.drop_last()[k]);
            assert(planned_dsts(nodes, plan, b)[t] == prev[t]);
        } else {
            assert(planned_dsts(nodes, plan, b)[t] == plan.last().0);
            assert(plan[plan.len() - 1].0 == planned_dsts(nodes, plan, b)[t]);
        }
    }
}

/// The destination of an assignment among `insns` is a definition among their occurrences.
proof fn lemma_def_occurs(insns: Seq<Instruction>, j: int)
    requires
        0 <= j < insns.len(),
        kind_def(insns[j].kind) is Some,
    ensures
        exists|t: int| 0 <= t < insns_occurrences(insns).len() && insns_occurrences(insns)[t] == (VarRole::Def, kind_def(insns[j].kind).unwrap()),
    decreases insns.len(),
{
    let prev = insns_occurrences(insns.drop_last());
    if j < insns.len() - 1 {
        lemma_def_occurs(insns.drop_last(), j);
        let t = choose|t: int| 0 <= t < prev.len() && prev[t] == (VarRole::Def, kind_def(insns.drop_last()[j].kind).unwrap());
        assert(insns_occurrences(insns)[t] == prev[t]);
    } else {
        let last = insns.last().occurrences();
        assert(last.last() == (VarRole::Def, kind_def(insns[j].kind).unwrap()));
        assert(insns_occurrences(insns)[prev.len() + last.len() - 1] == last.last());
    }
}

/// Where `func` is not yet renamed, its phi functions too, and `f1` is `func` with the phi
/// functions of `plan` placed, every definition of `f1` has version zero.
#[verifier::spinoff_prover]
proof fn lemma_defs_start_at_zero(func: Function, f1: Function, plan: Seq<(Var, Vec<usize>)>)
    requires
        func.keys_in_arena(),
        versions_zero(func),
        phi_versions_zero(func),
        f1.blocks_spec().len() == func.blocks_spec().len(),
        forall|b: int| 0 <= b < func.blocks_spec().len() ==> phi_dsts(#[trigger] f1.blocks_spec()[b].phis_spec()) == phi_dsts(
            func.blocks_spec()[b].phis_spec(),
        ) + planned_dsts(func.cfg_spec().nodes(), plan, b),
        forall|b: int| 0 <= b < func.blocks_spec().len() ==> (#[trigger] f1.blocks_spec()[b]).instructions_spec() == func.blocks_spec()[b].instructions_spec(),
        forall|k: int| 0 <= k < plan.len() ==> defined_in(func, (#[trigger] plan[k]).0),
    ensures
        forall|i: int, k: int, j: int| #[trigger] blocks_defs(f1.blocks_spec())(i, k, j) is Some ==> blocks_defs(f1.blocks_spec())(i, k, j).unwrap().version_spec() == 0,
{
    assert forall|i: int, k: int, j: int| #[trigger] blocks_defs(f1.blocks_spec())(i, k, j) is Some implies blocks_defs(f1.blocks_spec())(
        i,
        k,
        j,
    ).unwrap().version_spec() == 0 by {
        let b1 = f1.blocks_spec()[i];
        let b0 = func.blocks_spec()[i];
        let v = blocks_defs(f1.blocks_spec())(i, k, j).unwrap();
        if k == 0 {
            let own = phi_dsts(b0.phis_spec());
            let planned = planned_dsts(func.cfg_spec().nodes(), plan, i);
            assert(0 <= j < b1.phis_spec().len());
            assert(phi_dsts(b1.phis_spec()).len() == b1.phis_spec().len());
            assert(phi_dsts(b1.phis_spec()) == own + planned);
            assert(phi_dsts(b1.phis_spec())[j] == v);
            if j < own.len() {
                assert(own[j] == b0.phis_spec()[j].dst_spec());
            } else {
                lemma_planned_from_plan(func.cfg_spec().nodes(), plan, i, j - own.len());
                assert((own + planned)[j] == planned[j - own.len()]);
                assert(planned[j - own.len()] == v);
                let q = choose|q: int| 0 <= q < plan.len() && plan[q].0 == planned[j - own.len()];
                assert(defined_in(func, plan[q].0));
                let x = choose|x: usize| defines_at(func, x, v);
                let bi = func.cfg_spec().nodes()[x as nat] as int;
                let occs = func.blocks_spec()[bi].occurrences();
                assert(defined_vars(occs).contains(v));
                let t = choose|t: int| 0 <= t < occs.len() && occs[t] == (VarRole::Def, v);
                assert(func.blocks_spec()[bi].occurrences()[t].1.version_spec() == 0);
            }
        } else {
            assert(b1.instructions_spec() == b0.instructions_spec());
            lemma_def_occurs(b0.instructions_spec(), j);
            let t = choose|t: int| 0 <= t < insns_occurrences(b0.instructions_spec()).len() && insns_occurrences(b0.instructions_spec())[t] == (VarRole::Def, v);
            assert(b0.occurrences()[t] == (VarRole::Def, v));
            assert(func.blocks_spec()[i].occurrences()[t].1.version_spec() == 0);
        }
    }
}

/// Every block of `func` has a node in its graph.
pub open spec fn blocks_in_cfg(func: Function) -> bool {
    forall|k: usize| k < func.blocks_spec().len() ==> #[trigger] node_of_key(func.cfg_spec().sg(), k).is_some()
}

/// Whether every block of `func` has a node in its graph.
pub fn all_blocks_in_cfg(func: &Function) -> (res: bool)
    requires
        func.wf(),
    ensures
        res == blocks_in_cfg(*func),
{
    let n = func.block_count();
    let mut k: usize = 0;
    while k < n
        invariant
            0 <= k <= n,
            n == func.blocks_spec().len(),
            func.wf(),
            forall|j: usize| j < k ==> #[trigger] node_of_key(func.cfg_spec().sg(), j).is_some(),
        decreases n - k,
    {
        proof {
            func.lemma_wf();
        }
        if func.cfg().node_for_key(k).is_none() {
            return false;
        }
        k = k + 1;
    }
    true
}

/// Every variable that the blocks of `func` touch has version zero.
pub open spec fn versions_zero(func: Function) -> bool {
    forall|i: int, j: int|
        0 <= i < func.blocks_spec().len() && 0 <= j < func.blocks_spec()[i].occurrences().len() ==> (#[trigger] func.blocks_spec()[i].occurrences()[j]).1.version_spec() == 0
}

/// Whether every variable that the blocks of `func` touch has version zero.
pub fn all_versions_zero(func: &Function) -> (res: bool)
    requires
        func.wf(),
    ensures
        res == versions_zero(*func),
{
    let blocks = func.blocks();
    let mut i: usize = 0;
    while i < blocks.len()
        invariant
            0 <= i <= blocks@.len(),
            blocks@.len() == func.blocks_spec().len(),
            forall|q: int| 0 <= q < blocks@.len() ==> *blocks@[q] == #[trigger] func.blocks_spec()[q],
            forall|a: int, j: int|
                0 <= a < i && 0 <= j < func.blocks_spec()[a].occurrences().len() ==> (#[trigger] func.blocks_spec()[a].occurrences()[j]).1.version_spec() == 0,
        decreases blocks@.len() - i,
    {
        let occs = blocks[i].occurrence_list();
        let mut j: usize = 0;
        while j < occs.len()
            invariant
                0 <= j <= occs@.len(),
                i < blocks@.len(),
                blocks@.len() == func.blocks_spec().len(),
                occs@ == func.blocks_spec()[i as int].occurrences(),
                *blocks@[i as int] == func.blocks_spec()[i as int],
                forall|q: int| 0 <= q < j ==> occs@[q].1.version_spec() == 0,
            decreases occs@.len() - j,
        {
            if occs[j].1.version() != 0 {
                proof {
                    assert(0 <= i < func.blocks_spec().len());
                    assert(0 <= j < func.blocks_spec()[i as int].occurrences().len());
                    assert(func.blocks_spec()[i as int].occurrences()[j as int].1.version_spec() != 0);
                    assert(!versions_zero(*func));
                }
                return false;
            }
            j = j + 1;
        }
        i = i + 1;
    }
    true
}

/// Every block of `func` is well formed.
pub open spec fn blocks_wf(func: Function) -> bool {
    forall|i: int| 0 <= i < func.blocks_spec().len() ==> (#[trigger] func.blocks_spec()[i]).wf()
}

/// The SSA form of `func`: a phi function for each variable at the iterated dominance frontier
/// of its definitions where it is live, then every definition given a fresh version and every
/// use the version that reaches it, walking the dominator tree from the entry; `None` where a
/// place would need more than `u32::MAX` versions.
pub fn construct_ssa(func: &Function) -> (res: Option<Function>)
    requires
        func.wf(),
        func.keys_in_arena(),
        blocks_wf(*func),
        versions_zero(*func),
        blocks_in_cfg(*func),
    ensures
        res matches Some(r) ==> exists|f0: Function, idom: Map<usize, usize>, live: Map<usize, Set<Var>>, plan: Seq<(Var, Vec<usize>)>|
            #[trigger] phi_plan(f0, idom, live, plan) && {
                let g = f0.cfg_spec().sg();
                &&& f0.blocks_spec() == func.blocks_spec()
                &&& f0.entry_spec() == func.entry_spec()
                &&& f0.name_spec() == func.name_spec()
                &&& f0.cfg_spec().nodes() == func.cfg_spec().nodes()
                &&& f0.cfg_spec().edges() == func.cfg_spec().edges()
                &&& is_dominator_tree(node_set(g), forward(g), f0.entry_spec(), idom)
                &&& is_liveness(f0, live)
                &&& body_kept(f0, r)
                &&& forall|b: int| 0 <= b < func.blocks_spec().len() ==> phi_dsts(#[trigger] r.blocks_spec()[b].phis_spec()).map_values(
                    |v: Var| erase_var(v),
                ) == (phi_dsts(func.blocks_spec()[b].phis_spec()) + planned_dsts(func.cfg_spec().nodes(), plan, b)).map_values(
                    |v: Var| erase_var(v),
                )
            },
        res matches Some(r) ==> (phi_versions_zero(*func) ==> single_assignment(r.blocks_spec())),
{
    let mut f = func.clone_function();
    proof {
        f.lemma_wf();
        f.cfg_spec().lemma_wf();
    }
    let ghost f0 = f;
    let entry = f.entry();
    let idom = sg_immediate_dominators(f.cfg().graph(), entry);
    let live = compute_live_in(&f);
    let plan = compute_phi_sites(&f, &idom, &live);
    proof {
        assert forall|k: int| 0 <= k < plan@.len() implies (#[trigger] plan@[k]).1@.no_duplicates() by {
            assert(phi_sites_of(f0, idom@, live_view(live@), plan@[k].0, plan@[k].1@));
        }
    }
    place_phis(&mut f, &plan);
    let ghost f1 = f;
    proof {
        lemma_kept_blocks_wf(f0, f1);
    }
    let mut ctx = RenameContext::new();
    proof {
        if phi_versions_zero(*func) {
            lemma_defs_start_at_zero(f0, f1, plan@);
            let d = blocks_defs(f1.blocks_spec());
            assert forall|i: int, k: int, j: int| #[trigger] d(i, k, j) is Some implies d(i, k, j).unwrap().version_spec() <= ctx.counter_of(
                d(i, k, j).unwrap().place_spec(),
            ) by {
                assert(ctx.counter_of(d(i, k, j).unwrap().place_spec()) == 0);
            }
            assert(ctx.renames(d));
        }
    }
    let fuel = crate::graph::sg_node_count(f.cfg().graph());
    rename_vars_in_block(&mut ctx, entry, &mut f, &idom, fuel);
    if ctx.overflowed {
        return None;
    }
    proof {
        let g = f0.cfg_spec().sg();
        assert(body_kept(f0, f)) by {
            assert forall|i: int| #![trigger f.blocks_spec()[i]] 0 <= i < f0.blocks_spec().len() implies block_body_kept(f0.blocks_spec()[i], f.blocks_spec()[i]) by {
                assert(block_body_kept(f0.blocks_spec()[i], f1.blocks_spec()[i]));
                assert(block_body_kept(f1.blocks_spec()[i], f.blocks_spec()[i]));
            }
        }
        assert forall|b: int| 0 <= b < func.blocks_spec().len() implies phi_dsts(#[trigger] f.blocks_spec()[b].phis_spec()).map_values(
            |v: Var| erase_var(v),
        ) == (phi_dsts(func.blocks_spec()[b].phis_spec()) + planned_dsts(func.cfg_spec().nodes(), plan@, b)).map_values(
            |v: Var| erase_var(v),
        ) by {
            assert(phis_kept(f1.blocks_spec()[b], f.blocks_spec()[b]));
            assert(phi_dsts(f1.blocks_spec()[b].phis_spec()) == phi_dsts(f0.blocks_spec()[b].phis_spec()) + planned_dsts(f0.cfg_spec().nodes(), plan@, b));
            assert(phi_dsts(f.blocks_spec()[b].phis_spec()).map_values(|v: Var| erase_var(v)) =~= phi_dsts(f1.blocks_spec()[b].phis_spec()).map_values(
                |v: Var| erase_var(v),
            ));
        }
        assert(phi_plan(f0, idom@, live_view(live@), plan@));
    }
    Some(f)
}


/// Every variable that `occ` reads carries the version `version` gives its place.
pub open spec fn uses_read(occ: Seq<(VarRole, Var)>, version: spec_fn(Place) -> u32) -> bool {
    forall|i: int| 0 <= i < occ.len() && (#[trigger] occ[i]).0 == VarRole::Use ==> occ[i].1.version_spec() == version(occ[i].1.place_spec())
}

proof fn lemma_uses_read_add(a: Seq<(VarRole, Var)>, b: Seq<(VarRole, Var)>, version: spec_fn(Place) -> u32)
    requires
        uses_read(a, version),
        uses_read(b, version),
    ensures
        uses_read(a + b, version),
{
    assert forall|i: int| 0 <= i < (a + b).len() && (#[trigger] (a + b)[i]).0 == VarRole::Use implies (a + b)[i].1.version_spec() == version(
        (a + b)[i].1.place_spec(),
    ) by {
        if i < a.len() {
            assert((a + b)[i] == a[i]);
        } else {
            assert((a + b)[i] == b[i - a.len()]);
        }
    }
}

proof fn lemma_uses_read_def(a: Seq<(VarRole, Var)>, v: Var, version: spec_fn(Place) -> u32)
    requires
        uses_read(a, version),
    ensures
        uses_read(a.push((VarRole::Def, v)), version),
{
    assert forall|i: int| 0 <= i < a.push((VarRole::Def, v)).len() && (#[trigger] a.push((VarRole::Def, v))[i]).0 == VarRole::Use
        implies a.push((VarRole::Def, v))[i].1.version_spec() == version(a.push((VarRole::Def, v))[i].1.place_spec()) by {
        assert(i < a.len());
        assert(a.push((VarRole::Def, v))[i] == a[i]);
    }
}

proof fn lemma_value_reads(v: Value, version: spec_fn(Place) -> u32)
    requires
        forall|x: Var| v == Value::Var(x) ==> x.version_spec() == version(x.place_spec()),
    ensures
        uses_read(v.occurrences(), version),
{
    if let Value::Var(x) = v {
        assert(v.occurrences() =~= seq![(VarRole::Use, x)]);
    }
}

proof fn lemma_renamed_value_reads(ctx: RenameContext, v: Value)
    ensures
        uses_read(renamed_value(ctx, v).occurrences(), |p: Place| ctx.top_of(p)),
{
    if let Value::Var(x) = v {
        Var::lemma_at(x.place_spec(), ctx.top_of(x.place_spec()));
    }
    lemma_value_reads(renamed_value(ctx, v), |p: Place| ctx.top_of(p));
}

/// Renaming an instruction under `ctx` makes every variable it reads, the source of a copy
/// among them, carry the version on top of its place's stack: that of the definition of the
/// place that reaches the instruction.
pub proof fn lemma_renamed_kind_reads_top(ctx: RenameContext, k: InstructionKind)
    ensures
        uses_read(kind_renamed(ctx, k).occurrences(), |p: Place| ctx.top_of(p)),
{
    let f = |p: Place| ctx.top_of(p);
    match k {
        InstructionKind::Assign { dst, src } => {
            match src {
                Rhs::BinOp { lhs, rhs, .. } => {
                    lemma_renamed_value_reads(ctx, lhs);
                    lemma_renamed_value_reads(ctx, rhs);
                    lemma_uses_read_add(renamed_value(ctx, lhs).occurrences(), renamed_value(ctx, rhs).occurrences(), f);
                },
                Rhs::Load { src } => lemma_renamed_value_reads(ctx, src),
                Rhs::Copy { src } => lemma_renamed_value_reads(ctx, src),
            }
            let d = Var::at(dst.place_spec(), after_handouts(ctx.counter_of(dst.place_spec()), 1));
            lemma_uses_read_def(renamed_rhs(ctx, src).occurrences(), d, f);
        },
        InstructionKind::Store { dst, src } => {
            lemma_renamed_value_reads(ctx, dst);
            lemma_renamed_value_reads(ctx, src);
            lemma_uses_read_add(renamed_value(ctx, dst).occurrences(), renamed_value(ctx, src).occurrences(), f);
        },
        InstructionKind::Call { target } => lemma_renamed_value_reads(ctx, target),
    }
}

proof fn lemma_value_after_reads(c0: RenameContext, insns: Seq<Instruction>, j: int, v: Value)
    ensures
        uses_read(value_after(c0, insns, j, v).occurrences(), |p: Place| top_after(c0, insns, j, p)),
{
    if let Value::Var(x) = v {
        Var::lemma_at(x.place_spec(), top_after(c0, insns, j, x.place_spec()));
    }
    lemma_value_reads(value_after(c0, insns, j, v), |p: Place| top_after(c0, insns, j, p));
}

/// Renaming the instructions of a block in order from `c0` makes every variable that
/// instruction `j` reads, the source of a copy among them, carry the version on top of its
/// place's stack once the instructions before `j` are renamed: that of the last definition of the
/// place before it in the block, or the one that reaches the block where there is none.
pub proof fn lemma_renamed_insn_reads_top(c0: RenameContext, insns: Seq<Instruction>, j: int)
    requires
        0 <= j < insns.len(),
    ensures
        uses_read(renamed_insn(c0, insns, j).occurrences(), |p: Place| top_after(c0, insns, j, p)),
{
    let f = |p: Place| top_after(c0, insns, j, p);
    match insns[j].kind {
        InstructionKind::Assign { dst, src } => {
            let rs = match src {
                Rhs::BinOp { op, lhs, rhs } => Rhs::BinOp {
                    op,
                    lhs: value_after(c0, insns, j, lhs),
                    rhs: value_after(c0, insns, j, rhs),
                },
                Rhs::Load { src } => Rhs::Load { src: value_after(c0, insns, j, src) },
                Rhs::Copy { src } => Rhs::Copy { src: value_after(c0, insns, j, src) },
            };
            match src {
                Rhs::BinOp { lhs, rhs, .. } => {
                    lemma_value_after_reads(c0, insns, j, lhs);
                    lemma_value_after_reads(c0, insns, j, rhs);
                    lemma_uses_read_add(value_after(c0, insns, j, lhs).occurrences(), value_after(c0, insns, j, rhs).occurrences(), f);
                },
                Rhs::Load { src } => lemma_value_after_reads(c0, insns, j, src),
                Rhs::Copy { src } => lemma_value_after_reads(c0, insns, j, src),
            }
            let d = Var::at(dst.place_spec(), top_after(c0, insns, j + 1, dst.place_spec()));
            lemma_uses_read_def(rs.occurrences(), d, f);
        },
        InstructionKind::Store { dst, src } => {
            lemma_value_after_reads(c0, insns, j, dst);
            lemma_value_after_reads(c0, insns, j, src);
            lemma_uses_read_add(value_after(c0, insns, j, dst).occurrences(), value_after(c0, insns, j, src).occurrences(), f);
        },
        InstructionKind::Call { target } => lemma_value_after_reads(c0, insns, j, target),
    }
}


/// Renaming an instruction under `ctx` keeps the place it defines and gives the definition the
/// next version of that place: one past the versions handed out so far.
pub proof fn lemma_renamed_kind_defines_next(ctx: RenameContext, k: InstructionKind)
    ensures
        kind_def(kind_renamed(ctx, k)) is Some <==> kind_def(k) is Some,
        kind_def(k) matches Some(d) ==> kind_def(kind_renamed(ctx, k)).unwrap().place_spec() == d.place_spec() && (ctx.counter_of(
            d.place_spec(),
        ) < u32::MAX ==> kind_def(kind_renamed(ctx, k)).unwrap().version_spec() == ctx.counter_of(d.place_spec()) + 1),
{
    if let InstructionKind::Assign { dst, src } = k {
        Var::lemma_at(dst.place_spec(), after_handouts(ctx.counter_of(dst.place_spec()), 1));
    }
}

/// The value a renamed conditional branch tests reads the version on top of its place's stack,
/// under `ctx` and once all instructions of the block are renamed from `c0`.
pub proof fn lemma_renamed_terminator_reads_top(ctx: RenameContext, c0: RenameContext, insns: Seq<Instruction>, t: Terminator)
    ensures
        uses_read(renamed_terminator(ctx, t).occurrences(), |p: Place| ctx.top_of(p)),
        uses_read(terminator_after(c0, insns, t).occurrences(), |p: Place| top_after(c0, insns, insns.len() as int, p)),
        renamed_terminator(ctx, t).addr == t.addr && terminator_after(c0, insns, t).addr == t.addr,
{
    if let TerminatorKind::ConditionalBranch { cond: BranchCondition::NonZero(v), target } = t.kind {
        lemma_renamed_value_reads(ctx, v);
        lemma_value_after_reads(c0, insns, insns.len() as int, v);
    } else {
        assert(renamed_terminator(ctx, t) == t);
        assert(terminator_after(c0, insns, t) == t);
        if let TerminatorKind::ConditionalBranch { cond, target } = t.kind {
            assert(cond.occurrences() =~= Seq::<(VarRole, Var)>::empty());
        }
        assert(t.occurrences() =~= Seq::<(VarRole, Var)>::empty());
    }
}

} // verus!
