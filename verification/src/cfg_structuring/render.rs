use vstd::prelude::*;

use crate::cfg_recovery::cfg::{Condition, EdgeLabel, TailKind};
use crate::cfg_structuring::cycle::LoopKind;
use crate::cfg_structuring::region::{Region, RegionCfg, RegionId, RegionStore};
use crate::cfg_structuring::{is_entry, StructuredCfg, VirtualizedEdge};
use crate::graph::{sg_nodes, IndexedGraphView};
use crate::llir::{Block, BlockId, Function};
use crate::text::{dec_string, dec_text};

verus! {

/// Four spaces for each level of indentation.
pub open spec fn pad(indent: nat) -> Seq<char>
    decreases indent,
{
    if indent == 0 {
        Seq::empty()
    } else {
        pad((indent - 1) as nat) + "    "@
    }
}

/// One line of output: the indentation, the text and a line break.
pub open spec fn line_text(indent: nat, t: Seq<char>) -> Seq<char> {
    pad(indent) + t + "\n"@
}

/// The index of the first line break in `t`, or its length where it has none.
pub open spec fn first_newline(t: Seq<char>) -> nat
    decreases t.len(),
{
    if t.len() == 0 {
        0
    } else if t[0] == '\n' {
        0
    } else {
        1 + first_newline(t.drop_first())
    }
}

proof fn lemma_first_newline(t: Seq<char>)
    ensures
        first_newline(t) <= t.len(),
        first_newline(t) < t.len() ==> t[first_newline(t) as int] == '\n',
        forall|k: int| 0 <= k < first_newline(t) ==> t[k] != '\n',
    decreases t.len(),
{
    if t.len() > 0 && t[0] != '\n' {
        lemma_first_newline(t.drop_first());
        assert forall|k: int| 0 <= k < first_newline(t) implies t[k] != '\n' by {
            if k > 0 {
                assert(t[k] == t.drop_first()[k - 1]);
            }
        }
    }
}

/// Each line of `t` (a last line without a line break counts too) with `p` before it.
pub open spec fn indent_lines(t: Seq<char>, p: Seq<char>) -> Seq<char>
    decreases t.len(),
{
    if t.len() == 0 {
        Seq::empty()
    } else {
        let i = first_newline(t);
        let rest = if i < t.len() {
            t.skip((i + 1) as int)
        } else {
            Seq::empty()
        };
        p + t.take(i as int) + "\n"@ + indent_lines(rest, p)
    }
}

/// The text of a condition, `unknown` where there is none.
pub open spec fn cond_text(cond: Option<Condition>) -> Seq<char> {
    match cond {
        Some(c) => crate::cfg_recovery::cfg::condition_text(c.lhs_view(), c.op_view(), c.rhs_view()),
        None => "unknown"@,
    }
}

/// The statement that stands for an edge taken out of the graph.
pub open spec fn tail_line(label: EdgeLabel, indent: nat) -> Seq<char> {
    match label {
        EdgeLabel::Virtualized(TailKind::Continue) => line_text(indent, "continue;"@),
        EdgeLabel::Virtualized(TailKind::Break) => line_text(indent, "break;"@),
        EdgeLabel::Virtualized(TailKind::Goto { target }) => line_text(indent, "goto Id { idx: "@ + dec_text(target as nat) + " };"@),
        _ => Seq::empty(),
    }
}

/// The statements for the edges taken out of the graph whose source is `source`, in order.
pub open spec fn tail_text(ves: Seq<VirtualizedEdge>, source: RegionId, indent: nat) -> Seq<char>
    decreases ves.len(),
{
    if ves.len() == 0 {
        Seq::empty()
    } else {
        tail_text(ves.drop_last(), source, indent) + if ves.last().source == source {
            tail_line(ves.last().label, indent)
        } else {
            Seq::empty()
        }
    }
}

/// The text of region `id` at depth `indent`; a region refers only to regions made before it,
/// and a reference to any other is left out.
pub open spec fn region_text(regions: Seq<Region>, ves: Seq<VirtualizedEdge>, blocks: Seq<Block>, id: nat, indent: nat) -> Seq<char>
    decreases id + 1, 0nat,
{
    if id >= regions.len() {
        Seq::empty()
    } else {
        match regions[id as int] {
            Region::Leaf(b) => {
                let bt = if b < blocks.len() {
                    blocks[b as int].text()
                } else {
                    Seq::empty()
                };
                indent_lines(bt, pad(indent)) + tail_text(ves, id as usize, indent)
            },
            Region::Sequence(v) => list_text(regions, ves, blocks, v@, id, indent),
            Region::If { head, then_br, else_br, cond, .. } => {
                let head_text = if head < id {
                    region_text(regions, ves, blocks, head as nat, indent)
                } else {
                    Seq::empty()
                };
                let else_text = match else_br {
                    Some(e) => line_text(indent, "} else {"@) + list_text(regions, ves, blocks, e@, id, indent + 1),
                    None => Seq::empty(),
                };
                head_text + line_text(indent, "if ("@ + cond_text(cond) + ") {"@) + list_text(
                    regions,
                    ves,
                    blocks,
                    then_br@,
                    id,
                    indent + 1,
                ) + else_text + line_text(indent, "}"@)
            },
            Region::Loop { kind, meta, body } => {
                let body_text = if body < id {
                    region_text(regions, ves, blocks, body as nat, indent + 1)
                } else {
                    Seq::empty()
                };
                match kind {
                    LoopKind::DoWhile => line_text(indent, "do {"@) + body_text + line_text(
                        indent,
                        "} while ("@ + cond_text(meta.cond) + ");"@,
                    ),
                    _ => line_text(indent, "while ("@ + cond_text(meta.cond) + ") {"@) + body_text + line_text(indent, "}"@),
                }
            },
            Region::VirtualExit => Seq::empty(),
        }
    }
}

/// A do-while loop region prints as `do {` on its own line, then its body, then
/// `} while (<cond>);`, both lines at the loop's indentation; a while loop (or a natural loop)
/// prints its test first, as `while (<cond>) {`, and closes with `}`.
pub proof fn lemma_loop_text(
    regions: Seq<Region>,
    ves: Seq<VirtualizedEdge>,
    blocks: Seq<Block>,
    id: nat,
    indent: nat,
    kind: LoopKind,
    meta: crate::cfg_structuring::cycle::StructuredLoop,
    body: RegionId,
)
    requires
        id < regions.len(),
        regions[id as int] == (Region::Loop { kind, meta, body }),
    ensures
        kind == LoopKind::DoWhile ==> region_text(regions, ves, blocks, id, indent) == pad(indent) + "do {"@ + "\n"@
            + (if body < id { region_text(regions, ves, blocks, body as nat, indent + 1) } else { Seq::empty() }) + pad(indent)
            + "} while ("@ + cond_text(meta.cond) + ");"@ + "\n"@,
        kind != LoopKind::DoWhile ==> region_text(regions, ves, blocks, id, indent) == pad(indent) + "while ("@ + cond_text(meta.cond)
            + ") {"@ + "\n"@ + (if body < id { region_text(regions, ves, blocks, body as nat, indent + 1) } else { Seq::empty() })
            + pad(indent) + "}"@ + "\n"@,
{
    let body_text = if body < id {
        region_text(regions, ves, blocks, body as nat, indent + 1)
    } else {
        Seq::empty()
    };
    let p = pad(indent);
    assert(p + "do {"@ + "\n"@ + body_text + p + "} while ("@ + cond_text(meta.cond) + ");"@ + "\n"@ =~= line_text(indent, "do {"@)
        + body_text + line_text(indent, "} while ("@ + cond_text(meta.cond) + ");"@));
    assert(p + "while ("@ + cond_text(meta.cond) + ") {"@ + "\n"@ + body_text + p + "}"@ + "\n"@ =~= line_text(
        indent,
        "while ("@ + cond_text(meta.cond) + ") {"@,
    ) + body_text + line_text(indent, "}"@));
}

/// A taken-out edge prints as `continue;`, `break;` or `goto Id { idx: <target> };` on a line of
/// its own, by its kind, and any other label prints nothing.
pub proof fn lemma_tail_lines(indent: nat, target: RegionId)
    ensures
        tail_line(EdgeLabel::Virtualized(TailKind::Continue), indent) == pad(indent) + "continue;"@ + "\n"@,
        tail_line(EdgeLabel::Virtualized(TailKind::Break), indent) == pad(indent) + "break;"@ + "\n"@,
        tail_line(EdgeLabel::Virtualized(TailKind::Goto { target }), indent) == pad(indent) + "goto Id { idx: "@ + dec_text(
            target as nat,
        ) + " };"@ + "\n"@,
        tail_line(EdgeLabel::Unconditional, indent) == Seq::<char>::empty(),
{
    assert(pad(indent) + "goto Id { idx: "@ + dec_text(target as nat) + " };"@ + "\n"@ =~= line_text(
        indent,
        "goto Id { idx: "@ + dec_text(target as nat) + " };"@,
    ));
}

/// A conditional region prints its head, then `if (<cond>) {`, its then-branch one level deeper,
/// where it has an else-branch `} else {` and that branch one level deeper, and `}`.
pub proof fn lemma_if_text(
    regions: Seq<Region>,
    ves: Seq<VirtualizedEdge>,
    blocks: Seq<Block>,
    id: nat,
    indent: nat,
    head: RegionId,
    then_br: Vec<RegionId>,
    else_br: Option<Vec<RegionId>>,
    cond: Option<Condition>,
)
    requires
        id < regions.len(),
        regions[id as int] matches Region::If { head: h, then_br: t, else_br: e, cond: c, .. } && h == head && t == then_br && e
            == else_br && c == cond,
    ensures
        region_text(regions, ves, blocks, id, indent) == (if head < id { region_text(regions, ves, blocks, head as nat, indent) } else {
            Seq::empty()
        }) + pad(indent) + "if ("@ + cond_text(cond) + ") {"@ + "\n"@ + list_text(regions, ves, blocks, then_br@, id, indent + 1)
            + (match else_br {
            Some(e) => pad(indent) + "} else {"@ + "\n"@ + list_text(regions, ves, blocks, e@, id, indent + 1),
            None => Seq::empty(),
        }) + pad(indent) + "}"@ + "\n"@,
{
    let head_text = if head < id {
        region_text(regions, ves, blocks, head as nat, indent)
    } else {
        Seq::empty()
    };
    let then_text = list_text(regions, ves, blocks, then_br@, id, indent + 1);
    let else_text = match else_br {
        Some(e) => line_text(indent, "} else {"@) + list_text(regions, ves, blocks, e@, id, indent + 1),
        None => Seq::empty(),
    };
    let else2 = match else_br {
        Some(e) => pad(indent) + "} else {"@ + "\n"@ + list_text(regions, ves, blocks, e@, id, indent + 1),
        None => Seq::empty(),
    };
    assert(else_text =~= else2);
    assert(head_text + pad(indent) + "if ("@ + cond_text(cond) + ") {"@ + "\n"@ + then_text + else2 + pad(indent) + "}"@ + "\n"@
        =~= head_text + line_text(indent, "if ("@ + cond_text(cond) + ") {"@) + then_text + else_text + line_text(indent, "}"@));
}

/// The texts of the regions `ids` that were made before region `bound`, in order.
pub open spec fn list_text(regions: Seq<Region>, ves: Seq<VirtualizedEdge>, blocks: Seq<Block>, ids: Seq<RegionId>, bound: nat, indent: nat) -> Seq<char>
    decreases bound, ids.len(),
{
    if ids.len() == 0 {
        Seq::empty()
    } else {
        list_text(regions, ves, blocks, ids.drop_last(), bound, indent) + if ids.last() < bound {
            region_text(regions, ves, blocks, ids.last() as nat, indent)
        } else {
            Seq::empty()
        }
    }
}

/// Every leaf region names a block of a function with `n` blocks.
pub open spec fn leaves_within(regions: Seq<Region>, n: nat) -> bool {
    forall|i: int| 0 <= i < regions.len() ==> (#[trigger] regions[i] matches Region::Leaf(b) ==> b < n)
}

/// Whether every leaf region of `regions` names one of the first `n` blocks.
pub fn leaves_name_blocks(regions: &RegionStore, n: usize) -> (res: bool)
    requires
        regions.wf(),
    ensures
        res == leaves_within(regions@, n as nat),
{
    let len = regions.len();
    let mut i: usize = 0;
    while i < len
        invariant
            regions.wf(),
            len == regions@.len(),
            0 <= i <= len,
            forall|k: int| 0 <= k < i ==> (#[trigger] regions@[k] matches Region::Leaf(b) ==> b < n),
        decreases len - i,
    {
        match regions.get(i) {
            Some(Region::Leaf(b)) => {
                if *b >= n {
                    proof {
                        assert(regions@[i as int] matches Region::Leaf(b2) && b2 >= n);
                    }
                    return false;
                }
            },
            _ => {},
        }
        i = i + 1;
    }
    true
}

/// The structured text of a function: the text of the region at the graph's entry, nothing
/// where the graph has no entry or the entry is the virtual exit.
pub open spec fn structured_text(s: StructuredCfg, func: Function) -> Seq<char> {
    let g = s.cfg.sg();
    if exists|r: nat| is_entry(g, r) {
        let r = choose|r: nat| is_entry(g, r);
        if r == s.cfg.vexit_spec() {
            Seq::empty()
        } else {
            region_text(s.regions@, s.virtualized_edges@, func.blocks_spec(), sg_nodes(g)[r] as nat, 0)
        }
    } else {
        Seq::empty()
    }
}

struct Renderer<'a> {
    out: String,
    regions: &'a RegionStore,
    virtualized_edges: &'a [VirtualizedEdge],
    func: &'a Function,
    indent: usize,
}

impl<'a> Renderer<'a> {
    spec fn inputs_ok(&self) -> bool {
        &&& self.regions.wf()
        &&& self.func.wf()
        &&& leaves_within(self.regions@, self.func.blocks_spec().len())
    }

    fn new(structured_cfg: &'a StructuredCfg, func: &'a Function) -> (res: Self)
        ensures
            res.out@ == Seq::<char>::empty(),
            *res.regions == structured_cfg.regions,
            res.virtualized_edges@ == structured_cfg.virtualized_edges@,
            *res.func == *func,
            res.indent == 0,
    {
        Renderer {
            out: String::new(),
            regions: &structured_cfg.regions,
            virtualized_edges: structured_cfg.virtualized_edges.as_slice(),
            func,
            indent: 0,
        }
    }

    /// Appends the text of region `region_id`.
    fn region(&mut self, region_id: RegionId)
        requires
            old(self).inputs_ok(),
            region_id < old(self).regions@.len(),
            old(self).indent + region_id + 1 < usize::MAX,
        ensures
            final(self).regions == old(self).regions,
            final(self).virtualized_edges == old(self).virtualized_edges,
            final(self).func == old(self).func,
            final(self).indent == old(self).indent,
            final(self).out@ == old(self).out@ + region_text(
                old(self).regions@,
                old(self).virtualized_edges@,
                old(self).func.blocks_spec(),
                region_id as nat,
                old(self).indent as nat,
            ),
        decreases region_id + 1, 0nat, 2nat,
    {
        let ghost regions = self.regions@;
        let ghost blocks = self.func.blocks_spec();
        let store: &'a RegionStore = self.regions;
        let region = match store.get(region_id) {
            Some(r) => r,
            None => {
                return;
            },
        };
        match region {
            Region::Leaf(block) => {
                proof {
                    assert(regions[region_id as int] matches Region::Leaf(b) ==> b < blocks.len());
                }
                self.block(*block);
                self.virtualized_tail(region_id);
            },
            Region::Sequence(seq_regions) => {
                self.list(seq_regions, region_id);
            },
            Region::If { head, then_br, else_br, cond, .. } => {
                self.if_region(region_id, *head, then_br, else_br, cond);
            },
            Region::Loop { kind, meta, body } => {
                self.loop_region(region_id, *kind, &meta.cond, *body);
            },
            Region::VirtualExit => {},
        }
    }

    /// Appends the text of the conditional region `region_id`.
    #[verifier::spinoff_prover]
    fn if_region(
        &mut self,
        region_id: RegionId,
        head: RegionId,
        then_br: &Vec<RegionId>,
        else_br: &Option<Vec<RegionId>>,
        cond: &Option<Condition>,
    )
        requires
            old(self).inputs_ok(),
            region_id < old(self).regions@.len(),
            old(self).indent + region_id + 1 < usize::MAX,
            old(self).regions@[region_id as int] matches Region::If { head: h, then_br: t, else_br: e, cond: c, .. } && h == head
                && t == *then_br && e == *else_br && c == *cond,
        ensures
            final(self).regions == old(self).regions,
            final(self).virtualized_edges == old(self).virtualized_edges,
            final(self).func == old(self).func,
            final(self).indent == old(self).indent,
            final(self).out@ == old(self).out@ + region_text(
                old(self).regions@,
                old(self).virtualized_edges@,
                old(self).func.blocks_spec(),
                region_id as nat,
                old(self).indent as nat,
            ),
        decreases region_id + 1, 0nat, 1nat,
    {
        let ghost regions = self.regions@;
        let ghost ves = self.virtualized_edges@;
        let ghost blocks = self.func.blocks_spec();
        let ghost indent = self.indent as nat;
        if head < region_id {
            self.region(head);
        }
        let ghost after_head = self.out@;
        let mut text = String::from_str("if (");
        let c = display_cond(cond);
        text.append(c.as_str());
        text.append(") {");
        proof {
            reveal_strlit("if (");
            reveal_strlit(") {");
        }
        self.line(text.as_str());
        self.indent = self.indent + 1;
        self.list(then_br, region_id);
        let ghost after_then = self.out@;
        match else_br {
            Some(else_br) => {
                self.indent = self.indent - 1;
                self.line("} else {");
                self.indent = self.indent + 1;
                self.list(else_br, region_id);
            },
            None => {},
        }
        let ghost after_else = self.out@;
        self.indent = self.indent - 1;
        self.line("}");
        proof {
            reveal_strlit("} else {");
            reveal_strlit("}");
            let else_text = match else_br {
                Some(e) => line_text(indent, "} else {"@) + list_text(regions, ves, blocks, e@, region_id as nat, indent + 1),
                None => Seq::empty(),
            };
            assert(after_else =~= after_then + else_text);
            assert(self.out@ =~= old(self).out@ + region_text(regions, ves, blocks, region_id as nat, indent));
        }
    }

    /// Appends the text of the loop region `region_id`.
    fn loop_region(&mut self, region_id: RegionId, kind: LoopKind, cond: &Option<Condition>, body: RegionId)
        requires
            old(self).inputs_ok(),
            region_id < old(self).regions@.len(),
            old(self).indent + region_id + 1 < usize::MAX,
            old(self).regions@[region_id as int] matches Region::Loop { kind: k, meta: m, body: b } && k == kind && m.cond
                == *cond && b == body,
        ensures
            final(self).regions == old(self).regions,
            final(self).virtualized_edges == old(self).virtualized_edges,
            final(self).func == old(self).func,
            final(self).indent == old(self).indent,
            final(self).out@ == old(self).out@ + region_text(
                old(self).regions@,
                old(self).virtualized_edges@,
                old(self).func.blocks_spec(),
                region_id as nat,
                old(self).indent as nat,
            ),
        decreases region_id + 1, 0nat, 1nat,
    {
        let ghost regions = self.regions@;
        let ghost ves = self.virtualized_edges@;
        let ghost blocks = self.func.blocks_spec();
        let ghost indent = self.indent as nat;
        let c = display_cond(cond);
        match kind {
            LoopKind::DoWhile => {
                self.line("do {");
                self.indent = self.indent + 1;
                if body < region_id {
                    self.region(body);
                }
                self.indent = self.indent - 1;
                let mut text = String::from_str("} while (");
                text.append(c.as_str());
                text.append(");");
                proof {
                    reveal_strlit("} while (");
                    reveal_strlit(");");
                    reveal_strlit("do {");
                }
                self.line(text.as_str());
            },
            _ => {
                let mut text = String::from_str("while (");
                text.append(c.as_str());
                text.append(") {");
                proof {
                    reveal_strlit("while (");
                    reveal_strlit(") {");
                    reveal_strlit("}");
                }
                self.line(text.as_str());
                self.indent = self.indent + 1;
                if body < region_id {
                    self.region(body);
                }
                self.indent = self.indent - 1;
                self.line("}");
            },
        }
        proof {
            assert(self.out@ =~= old(self).out@ + region_text(regions, ves, blocks, region_id as nat, indent));
        }
    }

    /// Appends the texts of the regions `ids` that were made before region `bound`.
    fn list(&mut self, ids: &Vec<RegionId>, bound: RegionId)
        requires
            old(self).inputs_ok(),
            bound < old(self).regions@.len(),
            old(self).indent + bound < usize::MAX,
        ensures
            final(self).regions == old(self).regions,
            final(self).virtualized_edges == old(self).virtualized_edges,
            final(self).func == old(self).func,
            final(self).indent == old(self).indent,
            final(self).out@ == old(self).out@ + list_text(
                old(self).regions@,
                old(self).virtualized_edges@,
                old(self).func.blocks_spec(),
                ids@,
                bound as nat,
                old(self).indent as nat,
            ),
        decreases bound, ids@.len(), 0nat,
    {
        let ghost regions = self.regions@;
        let ghost ves = self.virtualized_edges@;
        let ghost blocks = self.func.blocks_spec();
        let ghost indent = self.indent as nat;
        let mut i: usize = 0;
        while i < ids.len()
            invariant
                0 <= i <= ids@.len(),
                self.inputs_ok(),
                self.regions == old(self).regions,
                self.virtualized_edges == old(self).virtualized_edges,
                self.func == old(self).func,
                self.indent == old(self).indent,
                bound < self.regions@.len(),
                self.indent + bound < usize::MAX,
                regions == old(self).regions@,
                ves == old(self).virtualized_edges@,
                blocks == old(self).func.blocks_spec(),
                indent == old(self).indent as nat,
                self.out@ == old(self).out@ + list_text(regions, ves, blocks, ids@.take(i as int), bound as nat, indent),
            decreases ids@.len() - i,
        {
            let id = ids[i];
            let ghost before = self.out@;
            if id < bound {
                self.region(id);
            }
            proof {
                assert(ids@.take(i + 1).drop_last() =~= ids@.take(i as int));
                assert(ids@.take(i + 1).last() == id);
                assert(self.out@ =~= old(self).out@ + list_text(regions, ves, blocks, ids@.take(i + 1), bound as nat, indent));
            }
            i = i + 1;
        }
        proof {
            assert(ids@.take(ids@.len() as int) =~= ids@);
        }
    }

    /// Appends a statement for each edge taken out of the graph at `source`.
    fn virtualized_tail(&mut self, source: RegionId)
        requires
            old(self).inputs_ok(),
        ensures
            final(self).regions == old(self).regions,
            final(self).virtualized_edges == old(self).virtualized_edges,
            final(self).func == old(self).func,
            final(self).indent == old(self).indent,
            final(self).out@ == old(self).out@ + tail_text(old(self).virtualized_edges@, source, old(self).indent as nat),
    {
        let mut i: usize = 0;
        while i < self.virtualized_edges.len()
            invariant
                0 <= i <= self.virtualized_edges@.len(),
                self.inputs_ok(),
                self.regions == old(self).regions,
                self.virtualized_edges == old(self).virtualized_edges,
                self.func == old(self).func,
                self.indent == old(self).indent,
                self.out@ == old(self).out@ + tail_text(self.virtualized_edges@.take(i as int), source, self.indent as nat),
            decreases self.virtualized_edges@.len() - i,
        {
            let edge = &self.virtualized_edges[i];
            if edge.source == source {
                match &edge.label {
                    EdgeLabel::Virtualized(TailKind::Continue) => {
                        self.line("continue;");
                    },
                    EdgeLabel::Virtualized(TailKind::Break) => {
                        self.line("break;");
                    },
                    EdgeLabel::Virtualized(TailKind::Goto { target }) => {
                        let mut text = String::from_str("goto Id { idx: ");
                        let t = dec_string(*target as u64);
                        text.append(t.as_str());
                        text.append(" };");
                        proof {
                            reveal_strlit("goto Id { idx: ");
                            reveal_strlit(" };");
                        }
                        self.line(text.as_str());
                    },
                    _ => {},
                }
            }
            proof {
                assert(self.virtualized_edges@.take(i + 1).drop_last() =~= self.virtualized_edges@.take(i as int));
            }
            i = i + 1;
        }
        proof {
            assert(self.virtualized_edges@.take(self.virtualized_edges@.len() as int) =~= self.virtualized_edges@);
        }
    }

    /// Appends each line of the text of block `block_id`, indented.
    fn block(&mut self, block_id: BlockId)
        requires
            old(self).inputs_ok(),
            block_id < old(self).func.blocks_spec().len(),
        ensures
            final(self).regions == old(self).regions,
            final(self).virtualized_edges == old(self).virtualized_edges,
            final(self).func == old(self).func,
            final(self).indent == old(self).indent,
            final(self).out@ == old(self).out@ + indent_lines(
                old(self).func.blocks_spec()[block_id as int].text(),
                pad(old(self).indent as nat),
            ),
    {
        let func: &'a Function = self.func;
        let block = func.block(block_id);
        let text = block.to_text();
        push_indented_lines(&mut self.out, text.as_str(), self.indent);
    }

    /// Appends `text` as one line at the current indentation.
    fn line(&mut self, text: &str)
        ensures
            final(self).regions == old(self).regions,
            final(self).virtualized_edges == old(self).virtualized_edges,
            final(self).func == old(self).func,
            final(self).indent == old(self).indent,
            final(self).out@ == old(self).out@ + line_text(old(self).indent as nat, text@),
    {
        push_pad(&mut self.out, self.indent);
        self.out.append(text);
        self.out.append("\n");
        proof {
            reveal_strlit("\n");
        }
    }
}

/// Appends the indentation for depth `indent`.
fn push_pad(out: &mut String, indent: usize)
    ensures
        final(out)@ == old(out)@ + pad(indent as nat),
{
    let mut i: usize = 0;
    while i < indent
        invariant
            0 <= i <= indent,
            out@ == old(out)@ + pad(i as nat),
        decreases indent - i,
    {
        out.append("    ");
        proof {
            reveal_strlit("    ");
        }
        i = i + 1;
    }
}

/// The index of the first line break in `t`, or its length.
fn find_newline(t: &str) -> (res: usize)
    ensures
        res == first_newline(t@),
{
    let n = t.unicode_len();
    let mut i: usize = 0;
    proof {
        lemma_first_newline(t@);
    }
    while i < n
        invariant
            0 <= i <= n,
            n == t@.len(),
            forall|k: int| 0 <= k < i ==> t@[k] != '\n',
        decreases n - i,
    {
        if t.get_char(i) == '\n' {
            proof {
                lemma_first_newline_at(t@, i as int);
            }
            return i;
        }
        i = i + 1;
    }
    proof {
        lemma_first_newline_at(t@, n as int);
    }
    n
}

proof fn lemma_first_newline_at(t: Seq<char>, i: int)
    requires
        0 <= i <= t.len(),
        i < t.len() ==> t[i] == '\n',
        forall|k: int| 0 <= k < i ==> t[k] != '\n',
    ensures
        first_newline(t) == i,
    decreases t.len(),
{
    if t.len() > 0 && t[0] != '\n' {
        assert(i > 0);
        assert forall|k: int| 0 <= k < i - 1 implies t.drop_first()[k] != '\n' by {
            assert(t.drop_first()[k] == t[k + 1]);
        }
        lemma_first_newline_at(t.drop_first(), i - 1);
    }
}

/// Appends each line of `t` with the indentation for depth `indent` before it.
fn push_indented_lines(out: &mut String, t: &str, indent: usize)
    ensures
        final(out)@ == old(out)@ + indent_lines(t@, pad(indent as nat)),
    decreases t@.len(),
{
    let n = t.unicode_len();
    if n == 0 {
        proof {
            assert(out@ =~= old(out)@ + indent_lines(t@, pad(indent as nat)));
        }
        return;
    }
    let i = find_newline(t);
    proof {
        lemma_first_newline(t@);
    }
    push_pad(out, indent);
    out.append(t.substring_char(0, i));
    out.append("\n");
    proof {
        reveal_strlit("\n");
    }
    let ghost mid = out@;
    if i < n {
        let rest = t.substring_char(i + 1, n);
        proof {
            assert(rest@ =~= t@.skip(i + 1));
        }
        push_indented_lines(out, rest, indent);
    }
    proof {
        assert(t@.subrange(0, i as int) =~= t@.take(i as int));
        if i < n {
            assert(out@ =~= old(out)@ + indent_lines(t@, pad(indent as nat)));
        } else {
            assert(indent_lines(Seq::<char>::empty(), pad(indent as nat)) =~= Seq::<char>::empty());
            assert(out@ =~= old(out)@ + indent_lines(t@, pad(indent as nat)));
        }
    }
}

/// The text of a condition, `unknown` where there is none.
fn display_cond(cond: &Option<Condition>) -> (res: String)
    ensures
        res@ == cond_text(*cond),
{
    match cond {
        Some(c) => c.to_text(),
        None => {
            proof {
                reveal_strlit("unknown");
            }
            String::from_str("unknown")
        },
    }
}

/// The structured text of `func`, from its structured graph: the region at the graph's entry,
/// with conditionals and loops written out and the blocks indented by depth.
pub fn render_structured_llir(structured_cfg: &StructuredCfg, func: &Function) -> (res: String)
    requires
        structured_cfg.wf(),
        func.wf(),
        leaves_within(structured_cfg.regions@, func.blocks_spec().len()),
        structured_cfg.regions@.len() < usize::MAX,
    ensures
        res@ == structured_text(*structured_cfg, *func),
{
    let mut out = String::new();
    write_structured_llir(&mut out, structured_cfg, func);
    proof {
        assert(out@ =~= structured_text(*structured_cfg, *func));
    }
    out
}

/// Appends the structured text of `func` to `out`.
pub fn write_structured_llir(out: &mut String, structured_cfg: &StructuredCfg, func: &Function)
    requires
        structured_cfg.wf(),
        func.wf(),
        leaves_within(structured_cfg.regions@, func.blocks_spec().len()),
        structured_cfg.regions@.len() < usize::MAX,
    ensures
        final(out)@ == old(out)@ + structured_text(*structured_cfg, *func),
{
    let region_cfg = &structured_cfg.cfg;
    let ghost g = region_cfg.sg();
    proof {
        region_cfg.inner_spec().lemma_wf();
    }
    let entry = match region_cfg.entry() {
        Some(e) => e,
        None => {
            proof {
                assert(!exists|r: nat| is_entry(g, r));
                assert(out@ =~= old(out)@ + structured_text(*structured_cfg, *func));
            }
            return;
        },
    };
    proof {
        assert(is_entry(g, entry as nat));
        let r = choose|r: nat| is_entry(g, r);
        if r < entry as nat {
            assert(!crate::cfg_structuring::region::is_source(g, r));
        } else if r > entry as nat {
            assert(!crate::cfg_structuring::region::is_source(g, entry as nat));
        }
        assert(r == entry as nat);
    }
    if entry == region_cfg.vexit() {
        proof {
            assert(out@ =~= old(out)@ + structured_text(*structured_cfg, *func));
        }
        return;
    }
    let root = match region_cfg.key_for_node(entry) {
        Some(k) => k,
        None => {
            return;
        },
    };
    proof {
        assert(region_cfg.nodes().contains_key(entry as nat));
    }
    let mut renderer = Renderer::new(structured_cfg, func);
    renderer.region(root);
    out.append(renderer.out.as_str());
    proof {
        assert(out@ =~= old(out)@ + structured_text(*structured_cfg, *func));
    }
}

} // verus!
