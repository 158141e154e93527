use vstd::prelude::*;

use crate::cfg_structuring::region::RegionId;
use crate::disassemble::{ConditionKind, Instruction};

verus! {

/// Identifier of a block of a recovered control-flow graph: its index in the block arena.
pub type BlockId = usize;

/// A basic block of disassembled instructions; the last one is its terminator.
#[derive(Debug)]
pub struct Block {
    id: BlockId,
    start: u64,
    end: u64,
    instructions: Vec<Instruction>,
    label: Option<String>,
}

impl Block {
    pub closed spec fn wf(&self) -> bool {
        self.instructions@.len() > 0
    }

    pub closed spec fn id_spec(&self) -> BlockId {
        self.id
    }

    pub closed spec fn start_spec(&self) -> u64 {
        self.start
    }

    pub closed spec fn end_spec(&self) -> u64 {
        self.end
    }

    pub closed spec fn instructions_spec(&self) -> Seq<Instruction> {
        self.instructions@
    }

    pub closed spec fn label_spec(&self) -> Option<Seq<char>> {
        match self.label {
            Some(l) => Some(l@),
            None => None,
        }
    }

    pub open spec fn terminator_spec(&self) -> Instruction {
        self.instructions_spec().last()
    }

    /// A block of `instructions`, which must not be empty.
    pub fn new(
        id: BlockId,
        start: u64,
        end: u64,
        instructions: Vec<Instruction>,
        label: Option<String>,
    ) -> (res: Self)
        requires
            instructions@.len() > 0,
        ensures
            res.wf(),
            res.id_spec() == id,
            res.start_spec() == start,
            res.end_spec() == end,
            res.instructions_spec() == instructions@,
            res.label_spec() == (match label {
                Some(l) => Some(l@),
                None => None::<Seq<char>>,
            }),
    {
        Block { id, start, end, instructions, label }
    }

    pub fn id(&self) -> (res: BlockId)
        ensures
            res == self.id_spec(),
    {
        self.id
    }

    pub fn start(&self) -> (res: u64)
        ensures
            res == self.start_spec(),
    {
        self.start
    }

    pub fn end(&self) -> (res: u64)
        ensures
            res == self.end_spec(),
    {
        self.end
    }

    pub fn label(&self) -> (res: Option<&str>)
        ensures
            match res {
                Some(l) => self.label_spec() == Some(l@),
                None => self.label_spec() is None,
            },
    {
        match &self.label {
            Some(l) => Some(l.as_str()),
            None => None,
        }
    }

    pub fn set_label(&mut self, label: &str)
        ensures
            final(self).label_spec() == Some(label@),
            final(self).wf() == old(self).wf(),
            final(self).id_spec() == old(self).id_spec(),
            final(self).start_spec() == old(self).start_spec(),
            final(self).end_spec() == old(self).end_spec(),
            final(self).instructions_spec() == old(self).instructions_spec(),
    {
        self.label = Some(String::from_str(label));
    }

    pub fn instructions(&self) -> (res: &[Instruction])
        ensures
            res@ == self.instructions_spec(),
    {
        self.instructions.as_slice()
    }

    /// The last instruction of the block.
    pub fn terminator(&self) -> (res: &Instruction)
        requires
            self.wf(),
        ensures
            *res == self.terminator_spec(),
    {
        let n = self.instructions.len();
        &self.instructions[n - 1]
    }
}

/// A comparison `lhs op rhs` that guards a branch.
#[derive(Debug)]
pub struct Condition {
    op: String,
    lhs: String,
    rhs: String,
}

/// The operators that a condition can have negated: those of the conditions that conditional
/// branches are labelled with.
pub open spec fn known_operator(op: Seq<char>) -> bool {
    op == "!="@ || op == ">"@ || op == "<="@
}

/// The operator that holds exactly when `op` does not, for an operator that can be negated.
pub open spec fn negated_operator(op: Seq<char>) -> Seq<char> {
    if op == "!="@ {
        "=="@
    } else if op == ">"@ {
        "<="@
    } else {
        ">"@
    }
}

/// Negating `!=` gives `==`, `>` gives `<=` and `<=` gives `>`; so negating a strict or non-strict
/// comparison twice gives it back.
pub proof fn lemma_negated_operators()
    ensures
        negated_operator("!="@) == "=="@,
        negated_operator(">"@) == "<="@,
        negated_operator("<="@) == ">"@,
        negated_operator(negated_operator(">"@)) == ">"@,
        negated_operator(negated_operator("<="@)) == "<="@,
{
    reveal_strlit("!=");
    reveal_strlit(">");
    reveal_strlit("<=");
    assert(">"@.len() != "!="@.len());
    assert("<="@[0] != "!="@[0]);
    assert("<="@[0] != ">"@[0]);
}

/// The text of a condition: `lhs op rhs`, or `op rhs` where there is no left-hand side.
pub open spec fn condition_text(lhs: Seq<char>, op: Seq<char>, rhs: Seq<char>) -> Seq<char> {
    if lhs.len() == 0 {
        op + " "@ + rhs
    } else {
        lhs + " "@ + op + " "@ + rhs
    }
}

/// The operator of the condition that a conditional branch of kind `kind` is labelled with.
pub open spec fn kind_operator(kind: ConditionKind) -> Seq<char> {
    match kind {
        ConditionKind::NonZero => "!="@,
        ConditionKind::NotEqual => "!="@,
        ConditionKind::Greater => ">"@,
        ConditionKind::GreaterOrEqual => ">"@,
        ConditionKind::LessOrEqual => "<="@,
    }
}

/// The right-hand side of that condition.
pub open spec fn kind_rhs(kind: ConditionKind) -> Seq<char> {
    match kind {
        ConditionKind::NonZero => "0"@,
        _ => "TODO"@,
    }
}

impl Clone for Condition {
    fn clone(&self) -> (res: Self)
        ensures
            res == *self,
    {
        Condition { op: self.op.clone(), lhs: self.lhs.clone(), rhs: self.rhs.clone() }
    }
}

impl Condition {
    pub closed spec fn op_view(&self) -> Seq<char> {
        self.op@
    }

    pub closed spec fn lhs_view(&self) -> Seq<char> {
        self.lhs@
    }

    pub closed spec fn rhs_view(&self) -> Seq<char> {
        self.rhs@
    }

    pub fn new(op: &str, lhs: &str, rhs: &str) -> (res: Self)
        ensures
            res.op_view() == op@,
            res.lhs_view() == lhs@,
            res.rhs_view() == rhs@,
    {
        Condition { op: String::from_str(op), lhs: String::from_str(lhs), rhs: String::from_str(rhs) }
    }

    /// The condition of the conditional branch that ends `block`; `None` where the block ends
    /// otherwise.
    pub fn from_block(block: &Block) -> (res: Option<Self>)
        requires
            block.wf(),
        ensures
            res.is_some() == block.terminator_spec().conditional_kind().is_some(),
            res matches Some(c) ==> c.op_view() == kind_operator(
                block.terminator_spec().conditional_kind().unwrap(),
            ) && c.lhs_view() == "TODO"@ && c.rhs_view() == kind_rhs(
                block.terminator_spec().conditional_kind().unwrap(),
            ),
    {
        let term_insn = block.terminator();
        match term_insn.conditional_branch_kind() {
            None => None,
            Some(kind) => Some(Self::for_kind(kind)),
        }
    }

    fn for_kind(kind: ConditionKind) -> (res: Self)
        ensures
            res.op_view() == kind_operator(kind),
            res.lhs_view() == "TODO"@,
            res.rhs_view() == kind_rhs(kind),
    {
        match kind {
            ConditionKind::NonZero => Self::new("!=", "TODO", "0"),
            ConditionKind::NotEqual => Self::new("!=", "TODO", "TODO"),
            ConditionKind::Greater => Self::new(">", "TODO", "TODO"),
            ConditionKind::GreaterOrEqual => Self::new(">", "TODO", "TODO"),
            ConditionKind::LessOrEqual => Self::new("<=", "TODO", "TODO"),
        }
    }

    /// The condition that holds exactly when this one does not.
    pub fn negate(&self) -> (res: Self)
        requires
            known_operator(self.op_view()),
        ensures
            res.op_view() == negated_operator(self.op_view()),
            res.lhs_view() == self.lhs_view(),
            res.rhs_view() == self.rhs_view(),
    {
        let op = if self.op_is("!=") {
            "=="
        } else if self.op_is(">") {
            "<="
        } else {
            ">"
        };
        Self::new(op, self.lhs.as_str(), self.rhs.as_str())
    }

    /// Whether the operator is `op`.
    fn op_is(&self, op: &str) -> (res: bool)
        ensures
            res == (self.op_view() == op@),
    {
        let s = String::from_str(op);
        self.op == s
    }

    /// Whether the operator is `op`.
    pub fn operator_is(&self, op: &str) -> (res: bool)
        ensures
            res == (self.op_view() == op@),
    {
        self.op_is(op)
    }

    /// The condition `lhs < rhs` over this condition's operands.
    pub fn with_less_than(&self) -> (res: Self)
        ensures
            res.op_view() == "<"@,
            res.lhs_view() == self.lhs_view(),
            res.rhs_view() == self.rhs_view(),
    {
        Self::new("<", self.lhs.as_str(), self.rhs.as_str())
    }

    /// Whether the operator is one this decompiler knows how to negate.
    pub fn operator_known(&self) -> (res: bool)
        ensures
            res == known_operator(self.op_view()),
    {
        self.op_is("!=") || self.op_is(">") || self.op_is("<=")
    }

    /// The text `lhs op rhs`, or `op rhs` where the left-hand side is empty.
    pub fn to_text(&self) -> (res: String)
        ensures
            res@ == condition_text(self.lhs_view(), self.op_view(), self.rhs_view()),
    {
        let mut s = self.lhs.clone();
        if self.lhs.as_str().unicode_len() > 0 {
            s.append(" ");
        }
        s.append(self.op.as_str());
        s.append(" ");
        s.append(self.rhs.as_str());
        s
    }
}

/// The label of an edge of a control-flow graph.
#[derive(Debug)]
pub enum EdgeLabel {
    Unconditional,
    TrueBranch(Option<Condition>),
    FalseBranch(Option<Condition>),
    Virtualized(TailKind),
}

/// How an edge that structuring took out of the graph leaves its source.
#[derive(Debug, Clone, Copy, PartialEq, Eq, Structural)]
pub enum TailKind {
    Break,
    Continue,
    Goto { target: RegionId },
}

impl Clone for EdgeLabel {
    fn clone(&self) -> (res: Self)
        ensures
            res == *self,
    {
        match self {
            EdgeLabel::Unconditional => EdgeLabel::Unconditional,
            EdgeLabel::TrueBranch(c) => EdgeLabel::TrueBranch(
                match c {
                    Some(c) => Some(c.clone()),
                    None => None,
                },
            ),
            EdgeLabel::FalseBranch(c) => EdgeLabel::FalseBranch(
                match c {
                    Some(c) => Some(c.clone()),
                    None => None,
                },
            ),
            EdgeLabel::Virtualized(t) => EdgeLabel::Virtualized(*t),
        }
    }
}

impl EdgeLabel {
    /// The label's condition can be read off: a false branch carries a negatable condition.
    pub open spec fn condition_readable(&self) -> bool {
        self matches EdgeLabel::FalseBranch(Some(c)) ==> known_operator(c.op_view())
    }

    pub fn is_branch(&self) -> (res: bool)
        ensures
            res == (self is TrueBranch || self is FalseBranch),
    {
        matches!(self, Self::TrueBranch(_) | Self::FalseBranch(_))
    }

    /// The condition under which the edge is taken: a true branch's condition, a false branch's
    /// condition negated, and none for other edges.
    pub fn effective_condition(&self) -> (res: Option<Condition>)
        requires
            self.condition_readable(),
        ensures
            match *self {
                EdgeLabel::TrueBranch(c) => res == c,
                EdgeLabel::FalseBranch(Some(c)) => res matches Some(r) && r.op_view()
                    == negated_operator(c.op_view()) && r.lhs_view() == c.lhs_view()
                    && r.rhs_view() == c.rhs_view(),
                _ => res is None,
            },
    {
        match self {
            Self::TrueBranch(cond) => match cond {
                Some(c) => Some(c.clone()),
                None => None,
            },
            Self::FalseBranch(cond) => match cond {
                Some(c) => Some(c.negate()),
                None => None,
            },
            Self::Unconditional | Self::Virtualized(_) => None,
        }
    }

    /// The colour a drawing gives the edge.
    pub fn color(&self) -> (res: Option<&'static str>)
        ensures
            match *self {
                EdgeLabel::TrueBranch(_) => res matches Some(c) && c@ == "green"@,
                EdgeLabel::FalseBranch(_) => res matches Some(c) && c@ == "red"@,
                _ => res is None,
            },
    {
        match self {
            Self::TrueBranch(_) => Some("green"),
            Self::FalseBranch(_) => Some("red"),
            Self::Unconditional | Self::Virtualized(_) => None,
        }
    }
}

} // verus!
