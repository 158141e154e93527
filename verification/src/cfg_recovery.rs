use vstd::prelude::*;

use std::collections::{HashMap, HashSet};

use crate::binary::Symbol;
use crate::cfg_recovery::cfg::EdgeLabel;
use crate::graph::{node_of_key, sg_nodes, IndexedGraph, IndexedGraphView};
use crate::llir::icfg::Icfg;
use crate::llir::{
    BranchTarget, Instruction, InstructionOrTerminator, LinearProgram, Terminator, TerminatorKind,
};

pub mod cfg;

verus! {

broadcast use vstd::std_specs::hash::group_hash_axioms;

/// The immediate target of the branch that item `it` is, if it is one.
pub open spec fn item_branch_target(it: InstructionOrTerminator) -> Option<u64> {
    match it {
        InstructionOrTerminator::Terminator(t) => match t.kind {
            TerminatorKind::Branch { target: BranchTarget::Imm(a) } => Some(a),
            TerminatorKind::ConditionalBranch { target: BranchTarget::Imm(a), .. } => Some(a),
            TerminatorKind::Ret => None,
        },
        InstructionOrTerminator::Instruction(_) => None,
    }
}

/// The addresses at which a block starts: every symbol, the first item, every branch target,
/// and every item that follows a terminator.
pub open spec fn block_starts(items: Seq<InstructionOrTerminator>, symbols: Seq<Symbol>) -> Set<u64> {
    Set::new(
        |a: u64|
            (exists|k: int| 0 <= k < symbols.len() && #[trigger] symbols[k].addr == a) || (items.len() > 0
                && items[0].addr_spec() == a) || (exists|i: int|
                0 <= i < items.len() && #[trigger] item_branch_target(items[i]) == Some(a)) || (exists|i: int|
                0 <= i < items.len() - 1 && #[trigger] items[i] is Terminator && items[i + 1].addr_spec() == a),
    )
}

/// `i` is the first position of an item at address `a`.
pub open spec fn is_first_index(items: Seq<InstructionOrTerminator>, a: u64, i: int) -> bool {
    &&& 0 <= i < items.len()
    &&& items[i].addr_spec() == a
    &&& forall|j: int| 0 <= j < i ==> (#[trigger] items[j]).addr_spec() != a
}

/// The position of the first item at address `a`, for each address that some item has.
pub fn build_addr_to_index(items: &[InstructionOrTerminator]) -> (res: HashMap<u64, usize>)
    ensures
        forall|a: u64| #[trigger]
            res@.contains_key(a) <==> exists|i: int| 0 <= i < items@.len() && items@[i].addr_spec() == a,
        forall|a: u64| #[trigger] res@.contains_key(a) ==> is_first_index(items@, a, res@[a] as int),
{
    let mut addr_to_index: HashMap<u64, usize> = HashMap::new();
    let mut idx: usize = 0;
    while idx < items.len()
        invariant
            0 <= idx <= items@.len(),
            forall|a: u64| #[trigger]
                addr_to_index@.contains_key(a) <==> exists|i: int| 0 <= i < idx && items@[i].addr_spec() == a,
            forall|a: u64| #[trigger] addr_to_index@.contains_key(a) ==> is_first_index(items@, a, addr_to_index@[a] as int),
        decreases items@.len() - idx,
    {
        let a = items[idx].addr();
        if !addr_to_index.contains_key(&a) {
            addr_to_index.insert(a, idx);
        }
        proof {
            assert forall|b: u64| #[trigger]
                addr_to_index@.contains_key(b) <==> exists|i: int| 0 <= i < idx + 1 && items@[i].addr_spec() == b by {
                if b == a {
                    assert(items@[idx as int].addr_spec() == b);
                }
            }
        }
        idx = idx + 1;
    }
    addr_to_index
}

/// Where every block starts; a terminator must not share its address with the item after it.
pub fn find_block_start_addrs(insns: &[InstructionOrTerminator], symbols: &[Symbol]) -> (res: HashSet<u64>)
    requires
        forall|i: int| 0 <= i < insns@.len() - 1 && #[trigger] insns@[i] is Terminator ==> insns@[i + 1].addr_spec() != insns@[i].addr_spec(),
    ensures
        res@ == block_starts(insns@, symbols@),
{
    let mut starts: HashSet<u64> = HashSet::new();
    let mut k: usize = 0;
    while k < symbols.len()
        invariant
            0 <= k <= symbols@.len(),
            starts@ == Set::new(|a: u64| exists|j: int| 0 <= j < k && #[trigger] symbols@[j].addr == a),
        decreases symbols@.len() - k,
    {
        starts.insert(symbols[k].addr());
        proof {
            assert(starts@ =~= Set::new(|a: u64| exists|j: int| 0 <= j < k + 1 && #[trigger] symbols@[j].addr == a)) by {
                assert(symbols@[k as int].addr == symbols@[k as int].addr);
            }
        }
        k = k + 1;
    }
    if insns.len() > 0 {
        starts.insert(insns[0].addr());
    }
    let ghost head = starts@;
    let mut idx: usize = 0;
    while idx < insns.len()
        invariant
            0 <= idx <= insns@.len(),
            forall|i: int| 0 <= i < insns@.len() - 1 && #[trigger] insns@[i] is Terminator ==> insns@[i + 1].addr_spec() != insns@[i].addr_spec(),
            starts@ == head + Set::new(
                |a: u64|
                    (exists|i: int| 0 <= i < idx && #[trigger] item_branch_target(insns@[i]) == Some(a)) || (exists|i: int|
                        0 <= i < idx && i < insns@.len() - 1 && #[trigger] insns@[i] is Terminator && insns@[i + 1].addr_spec() == a),
            ),
        decreases insns@.len() - idx,
    {
        let ghost before = starts@;
        match insns[idx].terminator() {
            None => {},
            Some(term) => {
                match term.branch_target() {
                    Some(BranchTarget::Imm(target)) => {
                        starts.insert(*target);
                    },
                    None => {},
                }
                if idx + 1 < insns.len() {
                    starts.insert(insns[idx + 1].addr());
                }
            },
        }
        proof {
            let s = |n: int|
                Set::new(
                    |a: u64|
                        (exists|i: int| 0 <= i < n && #[trigger] item_branch_target(insns@[i]) == Some(a)) || (exists|i: int|
                            0 <= i < n && i < insns@.len() - 1 && #[trigger] insns@[i] is Terminator && insns@[i + 1].addr_spec() == a),
                );
            assert(starts@ =~= head + s(idx + 1)) by {
                assert forall|a: u64| starts@.contains(a) <==> (head + s(idx + 1)).contains(a) by {
                    if item_branch_target(insns@[idx as int]) == Some(a) {
                        assert(s(idx + 1).contains(a));
                    }
                    if idx < insns@.len() - 1 && insns@[idx as int] is Terminator && insns@[idx + 1].addr_spec() == a {
                        assert(s(idx + 1).contains(a));
                    }
                    if s(idx + 1).contains(a) && !s(idx as int).contains(a) {
                        if exists|i: int| 0 <= i < idx + 1 && #[trigger] item_branch_target(insns@[i]) == Some(a) {
                            let i = choose|i: int| 0 <= i < idx + 1 && #[trigger] item_branch_target(insns@[i]) == Some(a);
                            assert(i == idx);
                        } else {
                            let i = choose|i: int| 0 <= i < idx + 1 && i < insns@.len() - 1 && #[trigger] insns@[i] is Terminator && insns@[i + 1].addr_spec() == a;
                            assert(i == idx);
                        }
                    }
                }
            }
        }
        idx = idx + 1;
    }
    proof {
        assert(starts@ =~= block_starts(insns@, symbols@)) by {
            assert forall|a: u64| starts@.contains(a) <==> block_starts(insns@, symbols@).contains(a) by {
                if exists|i: int| 0 <= i < insns@.len() - 1 && #[trigger] insns@[i] is Terminator && insns@[i + 1].addr_spec() == a {
                    let i = choose|i: int| 0 <= i < insns@.len() - 1 && #[trigger] insns@[i] is Terminator && insns@[i + 1].addr_spec() == a;
                    assert(i < insns@.len() - 1);
                }
            }
        }
    }
    starts
}

/// The block that scanning forward from position `i` builds, with `acc` the instructions met
/// so far: it ends at the first terminator, or with a jump to the next address where that is
/// where a block starts; `None` where the items run out first.
pub open spec fn scan_block(
    items: Seq<InstructionOrTerminator>,
    starts: Set<u64>,
    i: int,
    acc: Seq<Instruction>,
) -> Option<(Seq<Instruction>, Terminator)>
    decreases items.len() - i,
{
    if i < 0 || i >= items.len() {
        None
    } else {
        match items[i] {
            InstructionOrTerminator::Terminator(t) => Some((acc, t)),
            InstructionOrTerminator::Instruction(insn) => if starts.contains((insn.addr + 4) as u64) {
                Some(
                    (
                        acc.push(insn),
                        Terminator {
                            addr: insn.addr,
                            kind: TerminatorKind::Branch { target: BranchTarget::Imm((insn.addr + 4) as u64) },
                        },
                    ),
                )
            } else {
                scan_block(items, starts, i + 1, acc.push(insn))
            },
        }
    }
}

/// Position `i` starts a block: its address is a block start and no earlier item has it.
pub open spec fn is_start_index(items: Seq<InstructionOrTerminator>, starts: Set<u64>, i: int) -> bool {
    &&& 0 <= i < items.len()
    &&& starts.contains(items[i].addr_spec())
    &&& forall|j: int| 0 <= j < i ==> (#[trigger] items[j]).addr_spec() != items[i].addr_spec()
}

/// A recovered block: its start address, its instructions and its terminator.
pub type RawBlock = (u64, Seq<Instruction>, Terminator);

/// The blocks that the positions before `n` start, in order of position.
pub open spec fn blocks_upto(items: Seq<InstructionOrTerminator>, starts: Set<u64>, n: int) -> Seq<RawBlock>
    decreases n,
{
    if n <= 0 {
        Seq::empty()
    } else {
        let prev = blocks_upto(items, starts, n - 1);
        let i = n - 1;
        if is_start_index(items, starts, i) && scan_block(items, starts, i, Seq::empty()) is Some {
            let b = scan_block(items, starts, i, Seq::empty()).unwrap();
            prev.push((items[i].addr_spec(), b.0, b.1))
        } else {
            prev
        }
    }
}

/// The blocks recovered from `items` with the block starts that `symbols` adds.
pub open spec fn recovered_blocks(items: Seq<InstructionOrTerminator>, symbols: Seq<Symbol>) -> Seq<RawBlock> {
    blocks_upto(items, block_starts(items, symbols), items.len() as int)
}

/// The position of the first recovered block that starts at `a`.
pub open spec fn block_at(blocks: Seq<RawBlock>, a: u64) -> Option<int>
    decreases blocks.len(),
{
    if blocks.len() == 0 {
        None
    } else {
        match block_at(blocks.drop_last(), a) {
            Some(k) => Some(k),
            None => if blocks.last().0 == a {
                Some(blocks.len() - 1)
            } else {
                None
            },
        }
    }
}

/// `block_at` finds a block exactly where some block starts at `a`, and that block starts there.
pub proof fn lemma_block_at_sound(blocks: Seq<RawBlock>, a: u64)
    ensures
        block_at(blocks, a) matches Some(k) ==> 0 <= k < blocks.len() && blocks[k].0 == a,
        block_at(blocks, a) is None <==> forall|k: int| 0 <= k < blocks.len() ==> (#[trigger] blocks[k]).0 != a,
    decreases blocks.len(),
{
    if blocks.len() > 0 {
        lemma_block_at_sound(blocks.drop_last(), a);
        assert forall|k: int| 0 <= k < blocks.len() - 1 implies #[trigger] blocks.drop_last()[k] == blocks[k] by {}
        if block_at(blocks, a) is None {
            assert forall|k: int| 0 <= k < blocks.len() implies (#[trigger] blocks[k]).0 != a by {
                if k < blocks.len() - 1 {
                    assert(blocks.drop_last()[k] == blocks[k]);
                }
            }
        } else {
            if forall|k: int| 0 <= k < blocks.len() ==> (#[trigger] blocks[k]).0 != a {
                match block_at(blocks.drop_last(), a) {
                    Some(k) => {
                        assert(blocks.drop_last()[k] == blocks[k]);
                    },
                    None => {
                        assert(blocks[blocks.len() - 1].0 != a);
                    },
                }
            }
        }
    }
}

/// The edges that leave recovered block `k`, as (source block, target block, label): a jump
/// goes to its target, a conditional branch to its target and, where a block starts there,
/// to the next address.
pub open spec fn block_edges(blocks: Seq<RawBlock>, k: int) -> Seq<(int, int, EdgeLabel)> {
    let t = blocks[k].2;
    match t.kind {
        TerminatorKind::Branch { target: BranchTarget::Imm(a) } => seq![(k, block_at(blocks, a).unwrap(), EdgeLabel::Unconditional)],
        TerminatorKind::ConditionalBranch { target: BranchTarget::Imm(a), .. } => {
            let taken = seq![(k, block_at(blocks, a).unwrap(), EdgeLabel::TrueBranch(None))];
            match block_at(blocks, (t.addr + 4) as u64) {
                Some(f) => taken.push((k, f, EdgeLabel::FalseBranch(None))),
                None => taken,
            }
        },
        TerminatorKind::Ret => Seq::empty(),
    }
}

/// The edges of the blocks before `n`, block by block.
pub open spec fn edges_upto(blocks: Seq<RawBlock>, n: int) -> Seq<(int, int, EdgeLabel)>
    decreases n,
{
    if n <= 0 {
        Seq::empty()
    } else {
        edges_upto(blocks, n - 1) + block_edges(blocks, n - 1)
    }
}

/// The name of the last symbol at address `a`, if any.
pub open spec fn label_upto(symbols: Seq<Symbol>, a: u64, n: int) -> Option<Seq<char>>
    decreases n,
{
    if n <= 0 {
        None
    } else if symbols[n - 1].addr == a {
        Some(symbols[n - 1].name@)
    } else {
        label_upto(symbols, a, n - 1)
    }
}

/// What recovery needs of a program: item addresses leave room for the next one, no
/// terminator shares its address with the item after it, every block start is the address of
/// some item, every branch target of a recovered block starts a recovered block, and the
/// counts fit the graph.
pub open spec fn recoverable(items: Seq<InstructionOrTerminator>, symbols: Seq<Symbol>) -> bool {
    let starts = block_starts(items, symbols);
    let blocks = recovered_blocks(items, symbols);
    &&& items.len() < 0x1000_0000
    &&& forall|i: int| 0 <= i < items.len() ==> (#[trigger] items[i]).addr_spec() + 4 <= u64::MAX
    &&& forall|i: int| 0 <= i < items.len() - 1 && #[trigger] items[i] is Terminator ==> items[i + 1].addr_spec() != items[i].addr_spec()
    &&& forall|a: u64| #[trigger] starts.contains(a) ==> exists|i: int| 0 <= i < items.len() && items[i].addr_spec() == a
    &&& forall|k: int| 0 <= k < blocks.len() ==> target_resolves(blocks, #[trigger] blocks[k].2)
}

/// The immediate target of `t`, if it has one, starts one of `blocks`.
pub open spec fn target_resolves(blocks: Seq<RawBlock>, t: Terminator) -> bool {
    match t.branch_target_spec() {
        Some(BranchTarget::Imm(a)) => block_at(blocks, a) is Some,
        None => true,
    }
}

/// `icfg` holds the recovered blocks in order, each labelled with the last symbol at its start,
/// and exactly the edges that `edges` lists, by block id.
pub open spec fn icfg_matches(icfg: Icfg, blocks: Seq<RawBlock>, symbols: Seq<Symbol>, edges: Seq<(int, int, EdgeLabel)>) -> bool {
    &&& icfg.wf()
    &&& icfg.blocks_spec().len() == blocks.len()
    &&& forall|k: int| 0 <= k < blocks.len() ==> block_matches(#[trigger] icfg.blocks_spec()[k], blocks[k], label_upto(symbols, blocks[k].0, symbols.len() as int))
    &&& exists|ids: Seq<nat>| edges_listed(icfg, edges, ids)
}

/// Block `b` is recovered block `rb` with label `label`.
pub open spec fn block_matches(b: crate::llir::Block, rb: RawBlock, label: Option<Seq<char>>) -> bool {
    &&& b.start_spec() == rb.0
    &&& b.instructions_spec() == rb.1
    &&& b.terminator_spec() == rb.2
    &&& b.label_spec() == label
    &&& b.phis_spec().len() == 0
}

/// The edges of `icfg` are, under the indices `ids`, the edges that `edges` lists by block id.
pub open spec fn edges_listed(icfg: Icfg, edges: Seq<(int, int, EdgeLabel)>, ids: Seq<nat>) -> bool {
    edges_listed_in(icfg.inner_spec(), edges, ids)
}

pub open spec fn edges_listed_in(g: IndexedGraph, edges: Seq<(int, int, EdgeLabel)>, ids: Seq<nat>) -> bool {
    &&& ids.len() == edges.len()
    &&& ids.no_duplicates()
    &&& g.edges().dom() == ids.to_set()
    &&& forall|j: int| 0 <= j < ids.len() ==> {
        let e = #[trigger] g.edges()[ids[j]];
        &&& g.nodes()[e.0] == edges[j].0
        &&& g.nodes()[e.1] == edges[j].1
        &&& e.2 == edges[j].2
    }
}

/// Adding a fresh edge `e` that stands for `item` extends a listing by `item`.
proof fn lemma_push_edge(
    before: IndexedGraph,
    after: IndexedGraph,
    edges: Seq<(int, int, EdgeLabel)>,
    ids: Seq<nat>,
    e: nat,
    item: (int, int, EdgeLabel),
)
    requires
        edges_listed_in(before, edges, ids),
        !before.edges().contains_key(e),
        after.nodes() == before.nodes(),
        after.edges().contains_key(e),
        after.edges() == before.edges().insert(e, after.edges()[e]),
        before.nodes()[after.edges()[e].0] == item.0,
        before.nodes()[after.edges()[e].1] == item.1,
        after.edges()[e].2 == item.2,
    ensures
        edges_listed_in(after, edges.push(item), ids.push(e)),
{
    let nids = ids.push(e);
    assert(!ids.contains(e));
    assert forall|p: int, q: int| 0 <= p < q < nids.len() implies nids[p] != nids[q] by {
        if q < ids.len() {
        } else {
            assert(ids.contains(ids[p]));
        }
    }
    assert(after.edges().dom() =~= nids.to_set()) by {
        assert forall|x: nat| after.edges().dom().contains(x) <==> nids.to_set().contains(x) by {
            if ids.to_set().contains(x) {
                let j = choose|j: int| 0 <= j < ids.len() && ids[j] == x;
                assert(nids[j] == x);
            }
            if nids.to_set().contains(x) && x != e {
                let j = choose|j: int| 0 <= j < nids.len() && nids[j] == x;
                assert(ids[j] == x);
                assert(ids.to_set().contains(x));
            }
            if x == e {
                assert(nids[ids.len() as int] == e);
            }
        }
    }
    assert forall|j: int| 0 <= j < nids.len() implies {
        let x = #[trigger] after.edges()[nids[j]];
        &&& after.nodes()[x.0] == edges.push(item)[j].0
        &&& after.nodes()[x.1] == edges.push(item)[j].1
        &&& x.2 == edges.push(item)[j].2
    } by {
        if j < ids.len() {
            assert(ids.contains(ids[j]));
            assert(ids[j] != e);
            assert(after.edges()[nids[j]] == before.edges()[ids[j]]);
        }
    }
}

/// Scanning from a block start gives a block that starts at that position's address.
proof fn lemma_scan_start(items: Seq<InstructionOrTerminator>, starts: Set<u64>, i: int)
    requires
        0 <= i < items.len(),
        scan_block(items, starts, i, Seq::empty()) is Some,
    ensures
        ({
            let r = scan_block(items, starts, i, Seq::empty()).unwrap();
            &&& r.0.len() == 0 ==> items[i] is Terminator && r.1 == items[i]->Terminator_0
            &&& r.0.len() > 0 ==> r.0[0].addr == items[i].addr_spec()
        }),
{
    match items[i] {
        InstructionOrTerminator::Terminator(_) => {},
        InstructionOrTerminator::Instruction(insn) => {
            let acc = Seq::<Instruction>::empty().push(insn);
            if !starts.contains((insn.addr + 4) as u64) {
                lemma_scan_prefix(items, starts, i + 1, acc);
            }
        },
    }
}

proof fn lemma_scan_prefix(items: Seq<InstructionOrTerminator>, starts: Set<u64>, i: int, acc: Seq<Instruction>)
    requires
        acc.len() > 0,
    ensures
        scan_block(items, starts, i, acc) matches Some(r) ==> r.0.len() > 0 && r.0[0] == acc[0],
    decreases items.len() - i,
{
    if 0 <= i < items.len() {
        match items[i] {
            InstructionOrTerminator::Terminator(_) => {},
            InstructionOrTerminator::Instruction(insn) => {
                if !starts.contains((insn.addr + 4) as u64) {
                    lemma_scan_prefix(items, starts, i + 1, acc.push(insn));
                }
            },
        }
    }
}

/// Every block before `n` starts at the address of a start position before `n`, the starts are
/// distinct, and there are at most `n` blocks.
proof fn lemma_blocks_upto_starts(items: Seq<InstructionOrTerminator>, st: Set<u64>, n: int)
    requires
        0 <= n <= items.len(),
    ensures
        blocks_upto(items, st, n).len() <= n,
        forall|k: int| 0 <= k < blocks_upto(items, st, n).len() ==> exists|j: int|
            0 <= j < n && is_start_index(items, st, j) && #[trigger] blocks_upto(items, st, n)[k].0 == items[j].addr_spec(),
        forall|k1: int, k2: int|
            0 <= k1 < k2 < blocks_upto(items, st, n).len() ==> #[trigger] blocks_upto(items, st, n)[k1].0 != #[trigger] blocks_upto(items, st, n)[k2].0,
    decreases n,
{
    if n > 0 {
        lemma_blocks_upto_starts(items, st, n - 1);
        let prev = blocks_upto(items, st, n - 1);
        let cur = blocks_upto(items, st, n);
        if is_start_index(items, st, n - 1) && scan_block(items, st, n - 1, Seq::empty()) is Some {
            assert forall|k: int| 0 <= k < cur.len() implies exists|j: int|
                0 <= j < n && is_start_index(items, st, j) && #[trigger] cur[k].0 == items[j].addr_spec() by {
                if k < prev.len() {
                    assert(cur[k] == prev[k]);
                    let j = choose|j: int| 0 <= j < n - 1 && is_start_index(items, st, j) && #[trigger] prev[k].0 == items[j].addr_spec();
                } else {
                    assert(is_start_index(items, st, n - 1));
                }
            }
            assert forall|k1: int, k2: int| 0 <= k1 < k2 < cur.len() implies #[trigger] cur[k1].0 != #[trigger] cur[k2].0 by {
                if k2 < prev.len() {
                    assert(cur[k1] == prev[k1] && cur[k2] == prev[k2]);
                } else {
                    assert(cur[k1] == prev[k1]);
                    let j = choose|j: int| 0 <= j < n - 1 && is_start_index(items, st, j) && #[trigger] prev[k1].0 == items[j].addr_spec();
                    assert(items[j].addr_spec() != items[n - 1].addr_spec());
                }
            }
        }
    }
}

/// The terminator that a scan ends with sits at the address of an item.
proof fn lemma_scan_term_addr(items: Seq<InstructionOrTerminator>, starts: Set<u64>, i: int, acc: Seq<Instruction>)
    ensures
        scan_block(items, starts, i, acc) matches Some(r) ==> exists|j: int| 0 <= j < items.len() && r.1.addr == (#[trigger] items[j]).addr_spec(),
    decreases items.len() - i,
{
    if 0 <= i < items.len() {
        match items[i] {
            InstructionOrTerminator::Terminator(t) => {
                assert(t.addr == items[i].addr_spec());
            },
            InstructionOrTerminator::Instruction(insn) => {
                assert(insn.addr == items[i].addr_spec());
                if !starts.contains((insn.addr + 4) as u64) {
                    lemma_scan_term_addr(items, starts, i + 1, acc.push(insn));
                }
            },
        }
    }
}

/// Every recovered terminator leaves room for the address after it.
proof fn lemma_blocks_term_bound(items: Seq<InstructionOrTerminator>, st: Set<u64>, n: int)
    requires
        forall|i: int| 0 <= i < items.len() ==> (#[trigger] items[i]).addr_spec() + 4 <= u64::MAX,
    ensures
        forall|k: int| 0 <= k < blocks_upto(items, st, n).len() ==> (#[trigger] blocks_upto(items, st, n)[k].2).addr + 4 <= u64::MAX,
    decreases n,
{
    if n > 0 {
        lemma_blocks_term_bound(items, st, n - 1);
        lemma_scan_term_addr(items, st, n - 1, Seq::empty());
        let prev = blocks_upto(items, st, n - 1);
        let cur = blocks_upto(items, st, n);
        assert forall|k: int| 0 <= k < cur.len() implies (#[trigger] cur[k].2).addr + 4 <= u64::MAX by {
            if k < prev.len() {
                assert(cur[k] == prev[k]);
            }
        }
    }
}

/// Where starts are distinct, `block_at` finds the block that starts at its own start.
proof fn lemma_block_at(blocks: Seq<RawBlock>, k: int)
    requires
        0 <= k < blocks.len(),
        forall|k1: int, k2: int| 0 <= k1 < k2 < blocks.len() ==> #[trigger] blocks[k1].0 != #[trigger] blocks[k2].0,
    ensures
        block_at(blocks, blocks[k].0) == Some(k),
{
    lemma_block_at_sound(blocks, blocks[k].0);
    let c = block_at(blocks, blocks[k].0).unwrap();
    if c < k {
        assert(blocks[c].0 != blocks[k].0);
    } else if c > k {
        assert(blocks[k].0 != blocks[c].0);
    }
}

/// Each block before `n` is what scanning from some start position before `n` builds.
proof fn lemma_blocks_upto_from(items: Seq<InstructionOrTerminator>, st: Set<u64>, n: int)
    requires
        0 <= n <= items.len(),
    ensures
        forall|k: int| 0 <= k < blocks_upto(items, st, n).len() ==> exists|j: int|
            0 <= j < n && is_start_index(items, st, j) && scan_block(items, st, j, Seq::empty()) is Some
                && #[trigger] blocks_upto(items, st, n)[k] == (
                items[j].addr_spec(),
                scan_block(items, st, j, Seq::empty()).unwrap().0,
                scan_block(items, st, j, Seq::empty()).unwrap().1,
            ),
    decreases n,
{
    if n > 0 {
        lemma_blocks_upto_from(items, st, n - 1);
        let prev = blocks_upto(items, st, n - 1);
        let cur = blocks_upto(items, st, n);
        assert forall|k: int| 0 <= k < cur.len() implies exists|j: int|
            0 <= j < n && is_start_index(items, st, j) && scan_block(items, st, j, Seq::empty()) is Some
                && #[trigger] cur[k] == (
                items[j].addr_spec(),
                scan_block(items, st, j, Seq::empty()).unwrap().0,
                scan_block(items, st, j, Seq::empty()).unwrap().1,
            ) by {
            if k < prev.len() {
                assert(cur[k] == prev[k]);
                let j = choose|j: int|
                    0 <= j < n - 1 && is_start_index(items, st, j) && scan_block(items, st, j, Seq::empty()) is Some
                        && #[trigger] prev[k] == (
                        items[j].addr_spec(),
                        scan_block(items, st, j, Seq::empty()).unwrap().0,
                        scan_block(items, st, j, Seq::empty()).unwrap().1,
                    );
            } else {
                assert(is_start_index(items, st, n - 1));
            }
        }
    }
}

/// What scanning from a start position before `n` builds is among the blocks before `n`.
proof fn lemma_blocks_upto_contains(items: Seq<InstructionOrTerminator>, st: Set<u64>, n: int, j: int)
    requires
        0 <= j < n <= items.len(),
        is_start_index(items, st, j),
        scan_block(items, st, j, Seq::empty()) is Some,
    ensures
        exists|k: int| 0 <= k < blocks_upto(items, st, n).len() && (#[trigger] blocks_upto(items, st, n)[k]).0 == items[j].addr_spec(),
    decreases n,
{
    if j < n - 1 {
        lemma_blocks_upto_contains(items, st, n - 1, j);
        let prev = blocks_upto(items, st, n - 1);
        let k = choose|k: int| 0 <= k < prev.len() && (#[trigger] prev[k]).0 == items[j].addr_spec();
        assert(blocks_upto(items, st, n)[k] == prev[k]);
    } else {
        let cur = blocks_upto(items, st, n);
        assert(cur[cur.len() - 1].0 == items[j].addr_spec());
    }
}

/// The target of the terminator that scanning builds is a block start: that of a terminator of
/// the items, or the address after an instruction that jumps to the next start.
proof fn lemma_scan_target_start(items: Seq<InstructionOrTerminator>, symbols: Seq<Symbol>, i: int, acc: Seq<Instruction>)
    ensures
        scan_block(items, block_starts(items, symbols), i, acc) matches Some(r) ==> (r.1.branch_target_spec() matches Some(
            BranchTarget::Imm(a),
        ) ==> block_starts(items, symbols).contains(a)),
    decreases items.len() - i,
{
    let st = block_starts(items, symbols);
    if 0 <= i < items.len() {
        match items[i] {
            InstructionOrTerminator::Terminator(t) => {
                match t.branch_target_spec() {
                    Some(BranchTarget::Imm(a)) => {
                        assert(item_branch_target(items[i]) == Some(a));
                    },
                    None => {},
                }
            },
            InstructionOrTerminator::Instruction(insn) => {
                if !st.contains((insn.addr + 4) as u64) {
                    lemma_scan_target_start(items, symbols, i + 1, acc.push(insn));
                }
            },
        }
    }
}

/// Two start positions at one address are the same position.
proof fn lemma_start_index_unique(items: Seq<InstructionOrTerminator>, st: Set<u64>, i: int, j: int)
    requires
        is_start_index(items, st, i),
        is_start_index(items, st, j),
        items[i].addr_spec() == items[j].addr_spec(),
    ensures
        i == j,
{
    if i < j {
        assert(items[i].addr_spec() != items[j].addr_spec());
    } else if j < i {
        assert(items[j].addr_spec() != items[i].addr_spec());
    }
}

/// Where the block that position `i` starts branches to `a`, and scanning from the position `j`
/// that starts at `a` fails, no block starts at `a` and recovery is not possible.
proof fn lemma_unresolved(items: Seq<InstructionOrTerminator>, symbols: Seq<Symbol>, i: int, j: int, a: u64)
    requires
        is_start_index(items, block_starts(items, symbols), i),
        scan_block(items, block_starts(items, symbols), i, Seq::empty()) matches Some(r) && r.1.branch_target_spec() == Some(
            BranchTarget::Imm(a),
        ),
        is_start_index(items, block_starts(items, symbols), j),
        items[j].addr_spec() == a,
        scan_block(items, block_starts(items, symbols), j, Seq::empty()) is None,
    ensures
        !recoverable(items, symbols),
{
    let st = block_starts(items, symbols);
    let blocks = recovered_blocks(items, symbols);
    let n = items.len() as int;
    let t = scan_block(items, st, i, Seq::empty()).unwrap().1;
    lemma_blocks_upto_from(items, st, n);
    lemma_blocks_upto_contains(items, st, n, i);
    let k = choose|k: int| 0 <= k < blocks.len() && (#[trigger] blocks[k]).0 == items[i].addr_spec();
    let j3 = choose|j3: int|
        0 <= j3 < n && is_start_index(items, st, j3) && scan_block(items, st, j3, Seq::empty()) is Some
            && #[trigger] blocks[k] == (
            items[j3].addr_spec(),
            scan_block(items, st, j3, Seq::empty()).unwrap().0,
            scan_block(items, st, j3, Seq::empty()).unwrap().1,
        );
    lemma_start_index_unique(items, st, i, j3);
    assert(blocks[k].2 == t);
    lemma_block_at_sound(blocks, a);
    if block_at(blocks, a) is Some {
        let k2 = block_at(blocks, a).unwrap();
        let j2 = choose|j2: int|
            0 <= j2 < n && is_start_index(items, st, j2) && scan_block(items, st, j2, Seq::empty()) is Some
                && #[trigger] blocks[k2] == (
                items[j2].addr_spec(),
                scan_block(items, st, j2, Seq::empty()).unwrap().0,
                scan_block(items, st, j2, Seq::empty()).unwrap().1,
            );
        lemma_start_index_unique(items, st, j, j2);
    }
    assert(!target_resolves(blocks, blocks[k].2));
}

/// Whether `program` with `symbols` meets what recovery needs; where it does not, recovery of
/// the program would have a branch without a block to go to.
pub fn is_recoverable(program: &LinearProgram, symbols: &[Symbol]) -> (res: bool)
    ensures
        res == recoverable(program.items_spec(), symbols@),
{
    let items = program.items();
    let n = items.len();
    if n >= 0x1000_0000 {
        proof {
            assert(!recoverable(items@, symbols@));
        }
        return false;
    }
    let mut i: usize = 0;
    while i < n
        invariant
            0 <= i <= n,
            n == items@.len(),
            items@ == program.items_spec(),
            forall|k: int| 0 <= k < i ==> (#[trigger] items@[k]).addr_spec() + 4 <= u64::MAX,
            forall|k: int| 0 <= k < i && k < n - 1 && #[trigger] items@[k] is Terminator ==> items@[k + 1].addr_spec() != items@[k].addr_spec(),
        decreases n - i,
    {
        let a = items[i].addr();
        if a > u64::MAX - 4 {
            proof {
                assert(items@[i as int].addr_spec() + 4 > u64::MAX);
                assert(!recoverable(items@, symbols@));
            }
            return false;
        }
        if i + 1 < n && items[i].terminator().is_some() && items[i + 1].addr() == a {
            proof {
                assert(items@[i as int] is Terminator && items@[i + 1].addr_spec() == items@[i as int].addr_spec());
                assert(!recoverable(items@, symbols@));
            }
            return false;
        }
        i = i + 1;
    }
    let ghost its = items@;
    let starts = find_block_start_addrs(items, symbols);
    let index = build_addr_to_index(items);
    let mut k: usize = 0;
    while k < symbols.len()
        invariant
            0 <= k <= symbols@.len(),
            forall|q: int| 0 <= q < k ==> index@.contains_key(#[trigger] symbols@[q].addr),
            its == items@,
            its == program.items_spec(),
            forall|a: u64| #[trigger] index@.contains_key(a) <==> exists|q: int| 0 <= q < its.len() && its[q].addr_spec() == a,
        decreases symbols@.len() - k,
    {
        if !index.contains_key(&symbols[k].addr) {
            proof {
                let a = symbols@[k as int].addr;
                assert(block_starts(its, symbols@).contains(a));
                assert(!(exists|q: int| 0 <= q < its.len() && its[q].addr_spec() == a));
            }
            return false;
        }
        k = k + 1;
    }
    let mut i: usize = 0;
    while i < n
        invariant
            0 <= i <= n,
            n == items@.len(),
            forall|q: int| 0 <= q < i ==> (item_branch_target(#[trigger] items@[q]) matches Some(a) ==> index@.contains_key(a)),
            its == items@,
            its == program.items_spec(),
            forall|a: u64| #[trigger] index@.contains_key(a) <==> exists|q: int| 0 <= q < its.len() && its[q].addr_spec() == a,
        decreases n - i,
    {
        match items[i].terminator() {
            Some(t) => match t.branch_target() {
                Some(BranchTarget::Imm(a)) => {
                    if !index.contains_key(a) {
                        proof {
                            assert(item_branch_target(items@[i as int]) == Some(*a));
                            assert(block_starts(its, symbols@).contains(*a));
                            assert(!(exists|q: int| 0 <= q < its.len() && its[q].addr_spec() == *a));
                        }
                        return false;
                    }
                },
                None => {},
            },
            None => {},
        }
        i = i + 1;
    }
    proof {
        let st = block_starts(its, symbols@);
        assert forall|a: u64| #[trigger] st.contains(a) implies exists|q: int| 0 <= q < its.len() && its[q].addr_spec() == a by {
            if exists|q: int| 0 <= q < symbols@.len() && #[trigger] symbols@[q].addr == a {
                let q = choose|q: int| 0 <= q < symbols@.len() && #[trigger] symbols@[q].addr == a;
                assert(index@.contains_key(symbols@[q].addr));
            } else if exists|q: int| 0 <= q < its.len() && #[trigger] item_branch_target(its[q]) == Some(a) {
                let q = choose|q: int| 0 <= q < its.len() && #[trigger] item_branch_target(its[q]) == Some(a);
                assert(index@.contains_key(a));
            } else if exists|q: int| 0 <= q < its.len() - 1 && #[trigger] its[q] is Terminator && its[q + 1].addr_spec() == a {
                let q = choose|q: int| 0 <= q < its.len() - 1 && #[trigger] its[q] is Terminator && its[q + 1].addr_spec() == a;
                assert(its[q + 1].addr_spec() == a);
            } else {
                assert(its[0].addr_spec() == a);
            }
        }
    }
    let mut i: usize = 0;
    while i < n
        invariant
            0 <= i <= n,
            n == items@.len(),
            its == items@,
            its == program.items_spec(),
            starts@ == block_starts(its, symbols@),
            forall|a: u64| #[trigger] index@.contains_key(a) ==> is_first_index(its, a, index@[a] as int),
            forall|a: u64| #[trigger]
                index@.contains_key(a) <==> exists|q: int| 0 <= q < its.len() && its[q].addr_spec() == a,
            forall|k: int| 0 <= k < n ==> (#[trigger] its[k]).addr_spec() + 4 <= u64::MAX,
            forall|q: int|
                #![trigger scan_block(its, starts@, q, Seq::empty())]
                0 <= q < i && is_start_index(its, starts@, q) && scan_block(its, starts@, q, Seq::empty()) is Some ==> match scan_block(
                    its,
                    starts@,
                    q,
                    Seq::empty(),
                ).unwrap().1.branch_target_spec() {
                    Some(BranchTarget::Imm(a)) => exists|j: int|
                        0 <= j < n && is_start_index(its, starts@, j) && scan_block(its, starts@, j, Seq::empty()) is Some && its[j].addr_spec() == a,
                    None => true,
                },
        decreases n - i,
    {
        let a0 = items[i].addr();
        let first = match index.get(&a0) {
            Some(j) => *j == i,
            None => false,
        };
        if starts.contains(&a0) && first {
            match scan_block_at(items, &starts, i) {
                Some((_, t)) => match t.branch_target() {
                    Some(BranchTarget::Imm(a)) => {
                        proof {
                            lemma_scan_target_start(its, symbols@, i as int, Seq::empty());
                            assert(starts@.contains(*a));
                        }
                        let j = match index.get(a) {
                            Some(j) => *j,
                            None => {
                                proof {
                                    assert(!(exists|q: int| 0 <= q < its.len() && its[q].addr_spec() == *a));
                                }
                                return false;
                            },
                        };
                        if !starts.contains(a) {
                            return false;
                        }
                        if scan_block_at(items, &starts, j).is_none() {
                            proof {
                                assert(is_first_index(its, *a, j as int));
                                assert(is_start_index(its, starts@, i as int));
                                lemma_unresolved(its, symbols@, i as int, j as int, *a);
                            }
                            return false;
                        }
                        proof {
                            assert(is_first_index(its, *a, j as int));
                            assert(is_start_index(its, starts@, j as int));
                        }
                    },
                    None => {},
                },
                None => {},
            }
        }
        proof {
            if is_start_index(its, starts@, i as int) {
                assert(its[i as int].addr_spec() == a0);
                assert(index@.contains_key(a0));
                assert(is_first_index(its, a0, index@[a0] as int));
                assert(index@[a0] == i);
            }
        }
        i = i + 1;
    }
    proof {
        let st = block_starts(its, symbols@);
        let blocks = recovered_blocks(its, symbols@);
        lemma_blocks_upto_from(its, st, its.len() as int);
        assert forall|k: int| 0 <= k < blocks.len() implies target_resolves(blocks, #[trigger] blocks[k].2) by {
            let j = choose|j: int|
                0 <= j < its.len() && is_start_index(its, st, j) && scan_block(its, st, j, Seq::empty()) is Some
                    && #[trigger] blocks[k] == (
                    its[j].addr_spec(),
                    scan_block(its, st, j, Seq::empty()).unwrap().0,
                    scan_block(its, st, j, Seq::empty()).unwrap().1,
                );
            match blocks[k].2.branch_target_spec() {
                Some(BranchTarget::Imm(a)) => {
                    let j2 = choose|j2: int|
                        0 <= j2 < n && is_start_index(its, st, j2) && scan_block(its, st, j2, Seq::empty()) is Some && its[j2].addr_spec() == a;
                    lemma_blocks_upto_contains(its, st, its.len() as int, j2);
                    let k2 = choose|k2: int| 0 <= k2 < blocks.len() && (#[trigger] blocks[k2]).0 == its[j2].addr_spec();
                    lemma_block_at_sound(blocks, a);
                },
                None => {},
            }
        }
    }
    true
}

/// The block that scanning from position `idx` builds.
fn scan_block_at(items: &[InstructionOrTerminator], starts: &HashSet<u64>, idx: usize) -> (res: Option<(Vec<Instruction>, Terminator)>)
    requires
        forall|i: int| 0 <= i < items@.len() ==> (#[trigger] items@[i]).addr_spec() + 4 <= u64::MAX,
    ensures
        match scan_block(items@, starts@, idx as int, Seq::empty()) {
            None => res is None,
            Some(r) => res matches Some(p) && p.0@ == r.0 && p.1 == r.1,
        },
{
    let mut i: usize = idx;
    let mut insns: Vec<Instruction> = Vec::new();
    while i < items.len()
        invariant
            idx <= i,
            forall|i: int| 0 <= i < items@.len() ==> (#[trigger] items@[i]).addr_spec() + 4 <= u64::MAX,
            scan_block(items@, starts@, idx as int, Seq::empty()) == scan_block(items@, starts@, i as int, insns@),
        decreases items@.len() - i,
    {
        match &items[i] {
            InstructionOrTerminator::Terminator(t) => {
                return Some((insns, *t));
            },
            InstructionOrTerminator::Instruction(insn) => {
                assert(items@[i as int].addr_spec() + 4 <= u64::MAX);
                insns.push(*insn);
                let next = insn.next_addr();
                if starts.contains(&next) {
                    return Some(
                        (insns, Terminator::new(insn.addr, TerminatorKind::Branch { target: BranchTarget::Imm(next) })),
                    );
                }
                i = i + 1;
            },
        }
    }
    None
}

/// Recovers the control-flow graph of `program`: splits it into blocks at every block start,
/// links them by their branches, and labels them with the symbols.
pub fn recover_icfg(program: &LinearProgram, symbols: &[Symbol]) -> (res: Icfg)
    requires
        recoverable(program.items_spec(), symbols@),
    ensures
        icfg_matches(
            res,
            recovered_blocks(program.items_spec(), symbols@),
            symbols@,
            edges_upto(
                recovered_blocks(program.items_spec(), symbols@),
                recovered_blocks(program.items_spec(), symbols@).len() as int,
            ),
        ),
{
    CfgRecovery::new().recover(program, symbols)
}

/// The state of recovery: the graph built so far and the node of each block start.
struct CfgRecovery {
    graph: Icfg,
    addr_to_node: HashMap<u64, usize>,
}

impl CfgRecovery {
    fn new() -> (res: Self)
        ensures
            res.graph.wf(),
            res.graph.blocks_spec().len() == 0,
            res.graph.inner_spec().edges().dom() == Set::<nat>::empty(),
            res.addr_to_node@.dom() == Set::<u64>::empty(),
    {
        CfgRecovery { graph: Icfg::new(), addr_to_node: HashMap::new() }
    }

    /// The graph holds the blocks `blocks`, unlabelled, and `addr_to_node` maps the start of
    /// each to its node.
    spec fn holds_blocks(&self, blocks: Seq<RawBlock>) -> bool {
        let g = self.graph.inner_spec();
        &&& self.graph.wf()
        &&& self.graph.blocks_spec().len() == blocks.len()
        &&& forall|k: int| 0 <= k < blocks.len() ==> block_matches(#[trigger] self.graph.blocks_spec()[k], blocks[k], None)
        &&& forall|a: u64| #[trigger] self.addr_to_node@.contains_key(a) <==> block_at(blocks, a) is Some
        &&& forall|a: u64| #[trigger] self.addr_to_node@.contains_key(a) ==> g.nodes().contains_key(
            self.addr_to_node@[a] as nat,
        ) && g.nodes()[self.addr_to_node@[a] as nat] == block_at(blocks, a).unwrap()
    }

    fn recover(self, program: &LinearProgram, symbols: &[Symbol]) -> (res: Icfg)
        requires
            self.graph.wf(),
            self.graph.blocks_spec().len() == 0,
            self.graph.inner_spec().edges().dom() == Set::<nat>::empty(),
            self.addr_to_node@.dom() == Set::<u64>::empty(),
            recoverable(program.items_spec(), symbols@),
        ensures
            icfg_matches(
                res,
                recovered_blocks(program.items_spec(), symbols@),
                symbols@,
                edges_upto(
                    recovered_blocks(program.items_spec(), symbols@),
                    recovered_blocks(program.items_spec(), symbols@).len() as int,
                ),
            ),
    {
        let ghost blocks = recovered_blocks(program.items_spec(), symbols@);
        proof {
            let items = program.items_spec();
            lemma_blocks_upto_starts(items, block_starts(items, symbols@), items.len() as int);
            lemma_blocks_term_bound(items, block_starts(items, symbols@), items.len() as int);
        }
        let mut this = self;
        this.construct_blocks(program.items(), symbols);
        let ids = this.construct_edges(Ghost(blocks));
        this.label_blocks(symbols, Ghost(blocks), Ghost(edges_upto(blocks, blocks.len() as int)), ids);
        this.graph
    }

    fn construct_blocks(&mut self, items: &[InstructionOrTerminator], symbols: &[Symbol])
        requires
            old(self).graph.wf(),
            old(self).graph.blocks_spec().len() == 0,
            old(self).graph.inner_spec().edges().dom() == Set::<nat>::empty(),
            old(self).addr_to_node@.dom() == Set::<u64>::empty(),
            recoverable(items@, symbols@),
        ensures
            final(self).holds_blocks(recovered_blocks(items@, symbols@)),
            final(self).graph.inner_spec().edges().dom() == Set::<nat>::empty(),
    {
        let addr_to_index = build_addr_to_index(items);
        let starts = find_block_start_addrs(items, symbols);
        let ghost st = starts@;
        proof {
            assert(self.addr_to_node@ =~= Map::<u64, usize>::empty());
        }
        let mut idx: usize = 0;
        while idx < items.len()
            invariant
                0 <= idx <= items@.len(),
                st == starts@,
                st == block_starts(items@, symbols@),
                recoverable(items@, symbols@),
                forall|a: u64| #[trigger]
                    addr_to_index@.contains_key(a) <==> exists|i: int| 0 <= i < items@.len() && items@[i].addr_spec() == a,
                forall|a: u64| #[trigger] addr_to_index@.contains_key(a) ==> is_first_index(items@, a, addr_to_index@[a] as int),
                self.holds_blocks(blocks_upto(items@, st, idx as int)),
                self.graph.inner_spec().edges().dom() == Set::<nat>::empty(),
            decreases items@.len() - idx,
        {
            let a = items[idx].addr();
            proof {
                assert(addr_to_index@.contains_key(a));
                lemma_blocks_upto_starts(items@, st, idx as int);
            }
            let first = *addr_to_index.get(&a).unwrap();
            let is_start = starts.contains(&a) && first == idx;
            proof {
                if is_start {
                    assert(is_start_index(items@, st, idx as int));
                } else if st.contains(a) {
                    assert(is_first_index(items@, a, first as int));
                    if first < idx {
                        assert(items@[first as int].addr_spec() == a);
                    } else {
                        assert(items@[idx as int].addr_spec() == a);
                    }
                    assert(!is_start_index(items@, st, idx as int));
                }
            }
            if is_start {
                match scan_block_at(items, &starts, idx) {
                    Some((insns, term)) => {
                        proof {
                            lemma_scan_start(items@, st, idx as int);
                            let prev = blocks_upto(items@, st, idx as int);
                            lemma_block_at_sound(prev, a);
                            if block_at(prev, a) is Some {
                                let k = block_at(prev, a).unwrap();
                                let j = choose|j: int| 0 <= j < idx && is_start_index(items@, st, j) && #[trigger] prev[k].0 == items@[j].addr_spec();
                                assert(items@[j].addr_spec() != items@[idx as int].addr_spec());
                            }
                            assert(block_at(prev, a) is None);
                            assert(insns@.len() > 0 ==> insns@[0].addr == a);
                            assert(insns@.len() == 0 ==> term.addr == a);
                            assert(prev.len() < 0x1000_0000);
                        }
                        self.add_block(insns, term, Ghost(blocks_upto(items@, st, idx as int)), Ghost(a));
                        proof {
                            assert(blocks_upto(items@, st, idx + 1) == blocks_upto(items@, st, idx as int).push((a, insns@, term)));
                        }
                    },
                    None => {},
                }
            }
            idx = idx + 1;
        }
    }

    /// Adds the block of `insns` and `term`, which starts at `a`, after the blocks `blocks`.
    fn add_block(&mut self, insns: Vec<Instruction>, term: Terminator, Ghost(blocks): Ghost<Seq<RawBlock>>, Ghost(a): Ghost<u64>)
        requires
            old(self).holds_blocks(blocks),
            blocks.len() < 0x1000_0000,
            block_at(blocks, a) is None,
            insns@.len() > 0 ==> insns@[0].addr == a,
            insns@.len() == 0 ==> term.addr == a,
        ensures
            final(self).holds_blocks(blocks.push((a, insns@, term))),
            final(self).graph.inner_spec().edges() == old(self).graph.inner_spec().edges(),
    {
        let start = if insns.len() > 0 {
            insns[0].addr()
        } else {
            term.addr()
        };
        let ghost v = insns@;
        let node = self.graph.add_block(insns, term);
        self.addr_to_node.insert(start, node);
        proof {
            let nb = blocks.push((a, v, term));
            assert(nb.drop_last() =~= blocks);
            assert(block_at(nb, a) == Some(blocks.len() as int));
            assert forall|b: u64| b != a implies #[trigger] block_at(nb, b) == block_at(blocks, b) by {
            }
            assert forall|k: int| 0 <= k < nb.len() implies block_matches(#[trigger] self.graph.blocks_spec()[k], nb[k], None) by {
                if k < blocks.len() {
                    assert(self.graph.blocks_spec()[k] == self.graph.blocks_spec().drop_last()[k]);
                }
            }
            let g = self.graph.inner_spec();
            assert forall|b: u64| #[trigger] self.addr_to_node@.contains_key(b) implies g.nodes().contains_key(
                self.addr_to_node@[b] as nat,
            ) && g.nodes()[self.addr_to_node@[b] as nat] == block_at(nb, b).unwrap() by {
                if b != a {
                    assert(old(self).addr_to_node@.contains_key(b));
                }
            }
        }
    }

    /// The start and the terminator of every block, in order.
    fn block_ends(&self, Ghost(blocks): Ghost<Seq<RawBlock>>) -> (res: Vec<(u64, Terminator)>)
        requires
            self.holds_blocks(blocks),
        ensures
            res@.len() == blocks.len(),
            forall|j: int| 0 <= j < blocks.len() ==> #[trigger] res@[j] == (blocks[j].0, blocks[j].2),
    {
        let all = self.graph.blocks();
        let mut res: Vec<(u64, Terminator)> = Vec::new();
        let mut k: usize = 0;
        while k < all.len()
            invariant
                0 <= k <= all@.len(),
                all@.len() == blocks.len(),
                forall|j: int| 0 <= j < all@.len() ==> *all@[j] == #[trigger] self.graph.blocks_spec()[j],
                self.holds_blocks(blocks),
                res@.len() == k,
                forall|j: int| 0 <= j < k ==> #[trigger] res@[j] == (blocks[j].0, blocks[j].2),
            decreases all@.len() - k,
        {
            let b = all[k];
            assert(block_matches(self.graph.blocks_spec()[k as int], blocks[k as int], None));
            res.push((b.start(), *b.terminator()));
            k = k + 1;
        }
        res
    }

    /// Adds the edges of every block, block by block, and returns their indices in that order.
    fn construct_edges(&mut self, Ghost(blocks): Ghost<Seq<RawBlock>>) -> (ids: Ghost<Seq<nat>>)
        requires
            old(self).holds_blocks(blocks),
            old(self).graph.inner_spec().edges().dom() == Set::<nat>::empty(),
            blocks.len() < 0x1000_0000,
            forall|k1: int, k2: int| 0 <= k1 < k2 < blocks.len() ==> #[trigger] blocks[k1].0 != #[trigger] blocks[k2].0,
            forall|k: int| 0 <= k < blocks.len() ==> (#[trigger] blocks[k].2).addr + 4 <= u64::MAX,
            forall|k: int| 0 <= k < blocks.len() ==> target_resolves(blocks, #[trigger] blocks[k].2),
        ensures
            final(self).holds_blocks(blocks),
            edges_listed(final(self).graph, edges_upto(blocks, blocks.len() as int), ids@),
    {
        let ghost mut ids: Seq<nat> = Seq::empty();
        let info = self.block_ends(Ghost(blocks));
        let n = info.len();
        let mut k: usize = 0;
        proof {
            assert(ids.to_set() =~= Set::<nat>::empty());
        }
        while k < n
            invariant
                0 <= k <= n,
                n == blocks.len(),
                blocks.len() < 0x1000_0000,
                info@.len() == n,
                forall|j: int| 0 <= j < n ==> #[trigger] info@[j] == (blocks[j].0, blocks[j].2),
                forall|k1: int, k2: int| 0 <= k1 < k2 < blocks.len() ==> #[trigger] blocks[k1].0 != #[trigger] blocks[k2].0,
                forall|j: int| 0 <= j < blocks.len() ==> (#[trigger] blocks[j].2).addr + 4 <= u64::MAX,
                forall|j: int| 0 <= j < blocks.len() ==> target_resolves(blocks, #[trigger] blocks[j].2),
                self.holds_blocks(blocks),
                edges_listed(self.graph, edges_upto(blocks, k as int), ids),
                ids.len() <= 2 * k,
            decreases n - k,
        {
            let (start, term) = info[k];
            proof {
                lemma_block_at(blocks, k as int);
                ids.unique_seq_to_set();
                assert(info@[k as int] == (blocks[k as int].0, blocks[k as int].2));
                assert(self.addr_to_node@.contains_key(start));
            }
            let from = *self.addr_to_node.get(&start).unwrap();
            match term.kind {
                TerminatorKind::Branch { target: BranchTarget::Imm(target) } => {
                    assert(target_resolves(blocks, blocks[k as int].2));
                    let to = *self.addr_to_node.get(&target).unwrap();
                    let ghost before = self.graph.inner_spec();
                    let e = self.graph.add_edge(from, to, EdgeLabel::Unconditional);
                    proof {
                        lemma_push_edge(before, self.graph.inner_spec(), edges_upto(blocks, k as int), ids, e as nat, (k as int, block_at(blocks, target).unwrap(), EdgeLabel::Unconditional));
                        ids = ids.push(e as nat);
                    }
                },
                TerminatorKind::ConditionalBranch { target: BranchTarget::Imm(target), .. } => {
                    assert(target_resolves(blocks, blocks[k as int].2));
                    let to = *self.addr_to_node.get(&target).unwrap();
                    let ghost before = self.graph.inner_spec();
                    let e = self.graph.add_edge(from, to, EdgeLabel::TrueBranch(None));
                    proof {
                        lemma_push_edge(before, self.graph.inner_spec(), edges_upto(blocks, k as int), ids, e as nat, (k as int, block_at(blocks, target).unwrap(), EdgeLabel::TrueBranch(None)));
                        ids = ids.push(e as nat);
                        ids.unique_seq_to_set();
                    }
                    let next = term.next_addr();
                    match self.addr_to_node.get(&next) {
                        Some(f) => {
                            let f = *f;
                            let ghost before2 = self.graph.inner_spec();
                            let e2 = self.graph.add_edge(from, f, EdgeLabel::FalseBranch(None));
                            proof {
                                lemma_push_edge(before2, self.graph.inner_spec(), edges_upto(blocks, k as int).push((k as int, block_at(blocks, target).unwrap(), EdgeLabel::TrueBranch(None))), ids, e2 as nat, (k as int, block_at(blocks, next).unwrap(), EdgeLabel::FalseBranch(None)));
                                ids = ids.push(e2 as nat);
                            }
                        },
                        None => {},
                    }
                },
                TerminatorKind::Ret => {},
            }
            proof {
                assert(edges_upto(blocks, k + 1) == edges_upto(blocks, k as int) + block_edges(blocks, k as int));
                assert(edges_listed(self.graph, edges_upto(blocks, k + 1), ids));
            }
            k = k + 1;
        }
        Ghost(ids)
    }

    /// Labels each block with the last symbol at its start.
    fn label_blocks(&mut self, symbols: &[Symbol], Ghost(blocks): Ghost<Seq<RawBlock>>, Ghost(edges): Ghost<Seq<(int, int, EdgeLabel)>>, ids: Ghost<Seq<nat>>)
        requires
            old(self).holds_blocks(blocks),
            edges_listed(old(self).graph, edges, ids@),
            forall|k1: int, k2: int| 0 <= k1 < k2 < blocks.len() ==> #[trigger] blocks[k1].0 != #[trigger] blocks[k2].0,
        ensures
            icfg_matches(final(self).graph, blocks, symbols@, edges),
    {
        let all = self.graph.blocks();
        proof {
            assert forall|j: int| 0 <= j < all@.len() implies block_matches(*all@[j], #[trigger] blocks[j], None) by {
                assert(*all@[j] == self.graph.blocks_spec()[j]);
            }
        }
        let mut starts: Vec<u64> = Vec::new();
        let mut k: usize = 0;
        while k < all.len()
            invariant
                0 <= k <= all@.len(),
                all@.len() == blocks.len(),
                forall|j: int| 0 <= j < all@.len() ==> block_matches(*all@[j], #[trigger] blocks[j], None),
                starts@.len() == k,
                forall|j: int| 0 <= j < k ==> #[trigger] starts@[j] == blocks[j].0,
            decreases all@.len() - k,
        {
            starts.push(all[k].start());
            k = k + 1;
        }
        let mut j: usize = 0;
        while j < symbols.len()
            invariant
                0 <= j <= symbols@.len(),
                starts@.len() == blocks.len(),
                forall|i: int| 0 <= i < blocks.len() ==> #[trigger] starts@[i] == blocks[i].0,
                forall|k1: int, k2: int| 0 <= k1 < k2 < blocks.len() ==> #[trigger] blocks[k1].0 != #[trigger] blocks[k2].0,
                self.graph.wf(),
                self.graph.inner_spec() == old(self).graph.inner_spec(),
                self.graph.blocks_spec().len() == blocks.len(),
                forall|i: int| 0 <= i < blocks.len() ==> block_matches(#[trigger] self.graph.blocks_spec()[i], blocks[i], label_upto(symbols@, blocks[i].0, j as int)),
            decreases symbols@.len() - j,
        {
            let a = symbols[j].addr();
            let mut i: usize = 0;
            while i < starts.len() && starts[i] != a
                invariant
                    0 <= i <= starts@.len(),
                    forall|m: int| 0 <= m < i ==> starts@[m] != a,
                decreases starts@.len() - i,
            {
                i = i + 1;
            }
            if i < starts.len() {
                self.graph.set_block_label(i, symbols[j].name());
                proof {
                    assert forall|m: int| 0 <= m < blocks.len() implies block_matches(#[trigger] self.graph.blocks_spec()[m], blocks[m], label_upto(symbols@, blocks[m].0, j + 1)) by {
                        if m != i {
                            assert(blocks[m].0 != a) by {
                                if m < i {
                                } else {
                                    assert(blocks[i as int].0 != blocks[m].0);
                                }
                            }
                        }
                    }
                }
            } else {
                proof {
                    assert forall|m: int| 0 <= m < blocks.len() implies block_matches(#[trigger] self.graph.blocks_spec()[m], blocks[m], label_upto(symbols@, blocks[m].0, j + 1)) by {
                        assert(starts@[m] != a);
                    }
                }
            }
            j = j + 1;
        }
        proof {
            assert(edges_listed(self.graph, edges, ids@));
        }
    }
}

} // verus!
