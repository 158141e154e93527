use vstd::prelude::*;

use id_arena::{Arena, DefaultArenaBehavior, Id};

use crate::graph::{node_of_key, sg_nodes, IndexedGraph, IndexedGraphView, Sg};

use crate::text::{dec_string, dec_text, hex_string, hex_text};

pub mod icfg;
pub mod lifter;
pub mod ssa;

verus! {

broadcast use vstd::std_specs::btree::group_btree_axioms, vstd::seq_lib::group_seq_properties;

/// Identifier of a block of a lifted function: its index in the function's block arena.
pub type BlockId = usize;

/// The kind of a control-flow edge between lifted blocks.
#[derive(Debug, Clone, Copy, PartialEq, Eq, Hash, Structural)]
pub enum EdgeKind {
    Unconditional,
    TrueBranch,
    FalseBranch,
}

/// A lifted program as a flat list of instructions and terminators.
#[derive(Debug)]
pub struct LinearProgram {
    items: Vec<InstructionOrTerminator>,
}

impl LinearProgram {
    pub closed spec fn items_spec(&self) -> Seq<InstructionOrTerminator> {
        self.items@
    }

    pub fn new(items: Vec<InstructionOrTerminator>) -> (res: Self)
        ensures
            res.items_spec() == items@,
    {
        LinearProgram { items }
    }

    pub fn items(&self) -> (res: &[InstructionOrTerminator])
        ensures
            res@ == self.items_spec(),
    {
        self.items.as_slice()
    }

    /// The listing `text {`, one item per line indented by two spaces, `}`.
    pub fn to_text(&self) -> (res: String)
        ensures
            res@ == "text {\n"@ + items_text(self.items_spec()) + "}\n"@,
    {
        let mut s = String::from_str("text {\n");
        let mut i: usize = 0;
        while i < self.items.len()
            invariant
                0 <= i <= self.items@.len(),
                s@ == "text {\n"@ + items_text(self.items@.take(i as int)),
            decreases self.items@.len() - i,
        {
            s.append("  ");
            let line = self.items[i].to_text();
            s.append(line.as_str());
            s.append("\n");
            proof {
                assert(self.items@.take(i + 1).drop_last() =~= self.items@.take(i as int));
            }
            i = i + 1;
        }
        proof {
            assert(self.items@.take(self.items@.len() as int) =~= self.items@);
        }
        s.append("}\n");
        s
    }
}

pub open spec fn items_text(items: Seq<InstructionOrTerminator>) -> Seq<char>
    decreases items.len(),
{
    if items.len() == 0 {
        Seq::empty()
    } else {
        items_text(items.drop_last()) + "  "@ + items.last().text() + "\n"@
    }
}

/// An instruction or a terminator of a lifted program.
#[derive(Debug, Clone, Copy)]
pub enum InstructionOrTerminator {
    Instruction(Instruction),
    Terminator(Terminator),
}

impl InstructionOrTerminator {
    pub open spec fn addr_spec(&self) -> u64 {
        match self {
            InstructionOrTerminator::Instruction(insn) => insn.addr,
            InstructionOrTerminator::Terminator(term) => term.addr,
        }
    }

    pub open spec fn text(&self) -> Seq<char> {
        match self {
            InstructionOrTerminator::Instruction(insn) => insn.text(),
            InstructionOrTerminator::Terminator(term) => term.text(),
        }
    }

    pub open spec fn occurrences(&self) -> Seq<(VarRole, Var)> {
        match self {
            InstructionOrTerminator::Instruction(insn) => insn.occurrences(),
            InstructionOrTerminator::Terminator(term) => term.occurrences(),
        }
    }

    pub fn instruction(&self) -> (res: Option<&Instruction>)
        ensures
            res == (match self {
                InstructionOrTerminator::Instruction(insn) => Some(insn),
                InstructionOrTerminator::Terminator(_) => None,
            }),
    {
        match self {
            Self::Instruction(insn) => Some(insn),
            Self::Terminator(_) => None,
        }
    }

    pub fn terminator(&self) -> (res: Option<&Terminator>)
        ensures
            res == (match self {
                InstructionOrTerminator::Instruction(_) => None,
                InstructionOrTerminator::Terminator(term) => Some(term),
            }),
    {
        match self {
            Self::Instruction(_) => None,
            Self::Terminator(term) => Some(term),
        }
    }

    pub fn addr(&self) -> (res: u64)
        ensures
            res == self.addr_spec(),
    {
        match self {
            Self::Instruction(insn) => insn.addr(),
            Self::Terminator(term) => term.addr(),
        }
    }

    pub fn to_text(&self) -> (res: String)
        ensures
            res@ == self.text(),
    {
        match self {
            Self::Instruction(insn) => insn.to_text(),
            Self::Terminator(term) => term.to_text(),
        }
    }
}

/// A lifted instruction that does not end a block.
#[derive(Debug, Clone, Copy)]
pub struct Instruction {
    pub addr: u64,
    pub kind: InstructionKind,
}

impl Instruction {
    pub open spec fn text(&self) -> Seq<char> {
        hex_text(self.addr as nat) + ": "@ + self.kind.text()
    }

    pub open spec fn occurrences(&self) -> Seq<(VarRole, Var)> {
        self.kind.occurrences()
    }

    pub fn new(addr: u64, kind: InstructionKind) -> (res: Self)
        ensures
            res.addr == addr,
            res.kind == kind,
    {
        Instruction { addr, kind }
    }

    pub fn addr(&self) -> (res: u64)
        ensures
            res == self.addr,
    {
        self.addr
    }

    pub fn kind(&self) -> (res: &InstructionKind)
        ensures
            *res == self.kind,
    {
        &self.kind
    }

    pub fn kind_mut(&mut self) -> (res: &mut InstructionKind)
        ensures
            *res == old(self).kind,
            final(self).kind == *final(res),
            final(self).addr == old(self).addr,
    {
        &mut self.kind
    }

    /// The address of the next instruction; every ARM64 instruction is four bytes long.
    pub fn next_addr(&self) -> (res: u64)
        requires
            self.addr + 4 <= u64::MAX,
        ensures
            res == self.addr + 4,
    {
        self.addr + 4
    }

    pub fn to_text(&self) -> (res: String)
        ensures
            res@ == self.text(),
    {
        let mut s = hex_string(self.addr);
        s.append(": ");
        let k = self.kind.to_text();
        s.append(k.as_str());
        s
    }
}

#[derive(Debug, Clone, Copy)]
pub enum InstructionKind {
    Assign { dst: Var, src: Rhs },
    Store { dst: Value, src: Value },
    Call { target: Value },
}

impl InstructionKind {
    pub open spec fn text(&self) -> Seq<char> {
        match self {
            InstructionKind::Assign { dst, src } => dst.text() + " = "@ + src.text(),
            InstructionKind::Store { dst, src } => "store ["@ + dst.text() + "], "@ + src.text(),
            InstructionKind::Call { target } => "call "@ + target.text(),
        }
    }

    /// The variables the instruction touches, in the order in which renaming visits them: an
    /// assignment's source before its destination.
    pub open spec fn occurrences(&self) -> Seq<(VarRole, Var)> {
        match self {
            InstructionKind::Assign { dst, src } => src.occurrences().push((VarRole::Def, *dst)),
            InstructionKind::Store { dst, src } => dst.occurrences() + src.occurrences(),
            InstructionKind::Call { target } => target.occurrences(),
        }
    }

    pub fn to_text(&self) -> (res: String)
        ensures
            res@ == self.text(),
    {
        match self {
            Self::Assign { dst, src } => {
                let mut s = dst.to_text();
                s.append(" = ");
                let t = src.to_text();
                s.append(t.as_str());
                s
            },
            Self::Store { dst, src } => {
                let mut s = String::from_str("store [");
                let d = dst.to_text();
                s.append(d.as_str());
                s.append("], ");
                let t = src.to_text();
                s.append(t.as_str());
                s
            },
            Self::Call { target } => {
                let mut s = String::from_str("call ");
                let t = target.to_text();
                s.append(t.as_str());
                s
            },
        }
    }
}

/// The last instruction of a block.
#[derive(Debug, Clone, Copy)]
pub struct Terminator {
    pub addr: u64,
    pub kind: TerminatorKind,
}

impl Terminator {
    pub open spec fn text(&self) -> Seq<char> {
        hex_text(self.addr as nat) + ": "@ + self.kind.text()
    }

    pub open spec fn occurrences(&self) -> Seq<(VarRole, Var)> {
        match self.kind {
            TerminatorKind::ConditionalBranch { cond, .. } => cond.occurrences(),
            _ => Seq::empty(),
        }
    }

    pub open spec fn branch_target_spec(&self) -> Option<BranchTarget> {
        match self.kind {
            TerminatorKind::Branch { target } => Some(target),
            TerminatorKind::ConditionalBranch { target, .. } => Some(target),
            TerminatorKind::Ret => None,
        }
    }

    pub fn new(addr: u64, kind: TerminatorKind) -> (res: Self)
        ensures
            res.addr == addr,
            res.kind == kind,
    {
        Terminator { addr, kind }
    }

    pub fn addr(&self) -> (res: u64)
        ensures
            res == self.addr,
    {
        self.addr
    }

    /// The address of the next instruction; every ARM64 instruction is four bytes long.
    pub fn next_addr(&self) -> (res: u64)
        requires
            self.addr + 4 <= u64::MAX,
        ensures
            res == self.addr + 4,
    {
        self.addr + 4
    }

    pub fn kind(&self) -> (res: &TerminatorKind)
        ensures
            *res == self.kind,
    {
        &self.kind
    }

    pub fn branch_target(&self) -> (res: Option<&BranchTarget>)
        ensures
            match self.branch_target_spec() {
                Some(t) => res == Some(&t),
                None => res is None,
            },
    {
        match &self.kind {
            TerminatorKind::Branch { target } => Some(target),
            TerminatorKind::ConditionalBranch { target, .. } => Some(target),
            _ => None,
        }
    }

    pub fn is_conditional_branch(&self) -> (res: bool)
        ensures
            res == self.kind is ConditionalBranch,
    {
        matches!(self.kind, TerminatorKind::ConditionalBranch { .. })
    }

    pub fn to_text(&self) -> (res: String)
        ensures
            res@ == self.text(),
    {
        let mut s = hex_string(self.addr);
        s.append(": ");
        let k = self.kind.to_text();
        s.append(k.as_str());
        s
    }
}

#[derive(Debug, Clone, Copy)]
pub enum TerminatorKind {
    Branch { target: BranchTarget },
    ConditionalBranch { cond: BranchCondition, target: BranchTarget },
    Ret,
}

impl TerminatorKind {
    pub open spec fn text(&self) -> Seq<char> {
        match self {
            TerminatorKind::Branch { target } => "goto "@ + target.text(),
            TerminatorKind::ConditionalBranch { cond, target } => "if "@ + cond.text() + " goto "@
                + target.text(),
            TerminatorKind::Ret => "ret"@,
        }
    }

    pub fn to_text(&self) -> (res: String)
        ensures
            res@ == self.text(),
    {
        match self {
            Self::Branch { target } => {
                let mut s = String::from_str("goto ");
                let t = target.to_text();
                s.append(t.as_str());
                s
            },
            Self::ConditionalBranch { cond, target } => {
                let mut s = String::from_str("if ");
                let c = cond.to_text();
                s.append(c.as_str());
                s.append(" goto ");
                let t = target.to_text();
                s.append(t.as_str());
                s
            },
            Self::Ret => String::from_str("ret"),
        }
    }
}

#[derive(Debug, Clone, Copy)]
pub enum BranchCondition {
    NonZero(Value),
    Ge,
    Gt,
}

/// A branch prints as `goto <target>`, a conditional branch as `if <test> goto <target>` where the
/// test reads `<value> != 0`, `>= 0` or `> 0`, and a return as `ret`.
pub proof fn lemma_terminator_texts(v: Value, target: BranchTarget)
    ensures
        (TerminatorKind::Branch { target }).text() == "goto "@ + target.text(),
        (TerminatorKind::ConditionalBranch { cond: BranchCondition::Ge, target }).text() == "if "@ + ">= 0"@ + " goto "@
            + target.text(),
        (TerminatorKind::ConditionalBranch { cond: BranchCondition::Gt, target }).text() == "if "@ + "> 0"@ + " goto "@
            + target.text(),
        (TerminatorKind::ConditionalBranch { cond: BranchCondition::NonZero(v), target }).text() == "if "@ + v.text()
            + " != 0"@ + " goto "@ + target.text(),
        TerminatorKind::Ret.text() == "ret"@,
{
}

impl BranchCondition {
    pub open spec fn text(&self) -> Seq<char> {
        match self {
            BranchCondition::NonZero(value) => value.text() + " != 0"@,
            BranchCondition::Ge => ">= 0"@,
            BranchCondition::Gt => "> 0"@,
        }
    }

    pub open spec fn occurrences(&self) -> Seq<(VarRole, Var)> {
        match self {
            BranchCondition::NonZero(value) => value.occurrences(),
            _ => Seq::empty(),
        }
    }

    pub fn to_text(&self) -> (res: String)
        ensures
            res@ == self.text(),
    {
        match self {
            Self::NonZero(value) => {
                let mut s = value.to_text();
                s.append(" != 0");
                s
            },
            Self::Ge => String::from_str(">= 0"),
            Self::Gt => String::from_str("> 0"),
        }
    }
}

#[derive(Debug, Clone, Copy, PartialEq, Eq, Structural)]
pub enum BranchTarget {
    Imm(u64),
}

impl BranchTarget {
    pub open spec fn text(&self) -> Seq<char> {
        match self {
            BranchTarget::Imm(imm) => hex_text(*imm as nat),
        }
    }

    pub fn to_text(&self) -> (res: String)
        ensures
            res@ == self.text(),
    {
        match self {
            Self::Imm(imm) => hex_string(*imm),
        }
    }
}

#[derive(Debug, Clone, Copy)]
pub enum Rhs {
    BinOp { op: BinOp, lhs: Value, rhs: Value },
    Load { src: Value },
    Copy { src: Value },
}

impl Rhs {
    pub open spec fn text(&self) -> Seq<char> {
        match self {
            Rhs::BinOp { op, lhs, rhs } => op.text() + " "@ + lhs.text() + ", "@ + rhs.text(),
            Rhs::Load { src } => "load ["@ + src.text() + "]"@,
            Rhs::Copy { src } => "copy "@ + src.text(),
        }
    }

    pub open spec fn occurrences(&self) -> Seq<(VarRole, Var)> {
        match self {
            Rhs::BinOp { lhs, rhs, .. } => lhs.occurrences() + rhs.occurrences(),
            Rhs::Load { src } => src.occurrences(),
            Rhs::Copy { src } => src.occurrences(),
        }
    }

    pub fn to_text(&self) -> (res: String)
        ensures
            res@ == self.text(),
    {
        match self {
            Self::BinOp { op, lhs, rhs } => {
                let mut s = op.to_text();
                s.append(" ");
                let l = lhs.to_text();
                s.append(l.as_str());
                s.append(", ");
                let r = rhs.to_text();
                s.append(r.as_str());
                s
            },
            Self::Load { src } => {
                let mut s = String::from_str("load [");
                let t = src.to_text();
                s.append(t.as_str());
                s.append("]");
                s
            },
            Self::Copy { src } => {
                let mut s = String::from_str("copy ");
                let t = src.to_text();
                s.append(t.as_str());
                s
            },
        }
    }
}

#[derive(Debug, Clone, Copy, PartialEq, Eq, Structural)]
pub enum BinOp {
    Add,
    Sub,
    Mul,
    SDiv,
}

impl BinOp {
    /// The mnemonic the listing shows; multiplication is shown as `sdiv`, as division is.
    pub open spec fn text(&self) -> Seq<char> {
        match self {
            BinOp::Add => "add"@,
            BinOp::Sub => "sub"@,
            BinOp::Mul => "sdiv"@,
            BinOp::SDiv => "sdiv"@,
        }
    }

    pub fn to_text(&self) -> (res: String)
        ensures
            res@ == self.text(),
    {
        match self {
            Self::Add => String::from_str("add"),
            Self::Sub => String::from_str("sub"),
            Self::Mul => String::from_str("sdiv"),
            Self::SDiv => String::from_str("sdiv"),
        }
    }
}

#[derive(Debug, Clone, Copy, PartialEq, Eq, Structural)]
pub enum Value {
    Var(Var),
    Imm(i64),
}

impl Value {
    /// A variable as its place and version; an immediate in `0x` hexadecimal, negative ones in
    /// two's complement.
    pub open spec fn text(&self) -> Seq<char> {
        match self {
            Value::Var(var) => var.text(),
            Value::Imm(imm) => hex_text((*imm as u64) as nat),
        }
    }

    pub open spec fn occurrences(&self) -> Seq<(VarRole, Var)> {
        match self {
            Value::Var(var) => seq![(VarRole::Use, *var)],
            Value::Imm(_) => Seq::empty(),
        }
    }

    pub fn to_text(&self) -> (res: String)
        ensures
            res@ == self.text(),
    {
        match self {
            Self::Var(var) => var.to_text(),
            Self::Imm(imm) => hex_string(*imm as u64),
        }
    }
}

/// A version of a place: SSA construction gives every definition a version of its own.
#[derive(Debug, Clone, Copy, PartialEq, Eq, Hash, Structural)]
pub struct Var {
    place: Place,
    version: u32,
}

impl Var {
    pub closed spec fn place_spec(&self) -> Place {
        self.place
    }

    pub closed spec fn version_spec(&self) -> u32 {
        self.version
    }

    pub open spec fn text(&self) -> Seq<char> {
        self.place_spec().text() + "."@ + dec_text(self.version_spec() as nat)
    }

    pub proof fn lemma_eq(a: Var, b: Var)
        ensures
            (a == b) <==> (a.place_spec() == b.place_spec() && a.version_spec() == b.version_spec()),
    {
    }

    /// The variable of `place` at `version`.
    pub closed spec fn at(place: Place, version: u32) -> Var {
        Var { place, version }
    }

    pub proof fn lemma_at(place: Place, version: u32)
        ensures
            Var::at(place, version).place_spec() == place,
            Var::at(place, version).version_spec() == version,
    {
    }

    pub fn from_place(place: Place) -> (res: Self)
        ensures
            res.place_spec() == place,
            res.version_spec() == 0,
            res == Var::at(place, 0),
    {
        Self::with_version(place, 0)
    }

    pub fn with_version(place: Place, version: u32) -> (res: Self)
        ensures
            res.place_spec() == place,
            res.version_spec() == version,
            res == Var::at(place, version),
    {
        Self { place, version }
    }

    pub fn place(&self) -> (res: Place)
        ensures
            res == self.place_spec(),
    {
        self.place
    }

    pub fn version(&self) -> (res: u32)
        ensures
            res == self.version_spec(),
    {
        self.version
    }

    pub fn set_version(&mut self, version: u32)
        ensures
            final(self).place_spec() == old(self).place_spec(),
            final(self).version_spec() == version,
    {
        self.version = version;
    }

    pub fn to_text(&self) -> (res: String)
        ensures
            res@ == self.text(),
    {
        let mut s = self.place.to_text();
        s.append(".");
        let v = dec_string(self.version as u64);
        s.append(v.as_str());
        s
    }
}

#[derive(Debug, Clone, Copy, PartialEq, Eq, Hash, Structural)]
pub enum Place {
    Reg(Reg),
    Temp(u32),
}

impl Place {
    pub open spec fn text(&self) -> Seq<char> {
        match self {
            Place::Reg(reg) => reg.text(),
            Place::Temp(idx) => "t"@ + dec_text(*idx as nat),
        }
    }

    /// A number that tells places apart: a key for maps over places.
    pub open spec fn key_spec(&self) -> u64 {
        match self {
            Place::Reg(Reg::X(n)) => *n as u64,
            Place::Reg(Reg::W(n)) => (256 + *n) as u64,
            Place::Reg(Reg::SP) => 512,
            Place::Reg(Reg::XZR) => 513,
            Place::Reg(Reg::WZR) => 514,
            Place::Temp(t) => (1024 + *t) as u64,
        }
    }

    pub proof fn lemma_key_injective(a: Place, b: Place)
        ensures
            a.key_spec() == b.key_spec() ==> a == b,
    {
    }

    pub fn key(&self) -> (res: u64)
        ensures
            res == self.key_spec(),
    {
        match self {
            Self::Reg(Reg::X(n)) => *n as u64,
            Self::Reg(Reg::W(n)) => 256 + *n as u64,
            Self::Reg(Reg::SP) => 512,
            Self::Reg(Reg::XZR) => 513,
            Self::Reg(Reg::WZR) => 514,
            Self::Temp(t) => 1024 + *t as u64,
        }
    }

    pub fn to_text(&self) -> (res: String)
        ensures
            res@ == self.text(),
    {
        match self {
            Self::Reg(reg) => reg.to_text(),
            Self::Temp(idx) => {
                let mut s = String::from_str("t");
                let d = dec_string(*idx as u64);
                s.append(d.as_str());
                s
            },
        }
    }
}

#[derive(Debug, Clone, Copy, PartialEq, Eq, Hash, Structural)]
pub enum Reg {
    X(u8),
    W(u8),
    SP,
    XZR,
    WZR,
}

impl Reg {
    pub open spec fn text(&self) -> Seq<char> {
        match self {
            Reg::X(n) => "x"@ + dec_text(*n as nat),
            Reg::W(n) => "w"@ + dec_text(*n as nat),
            Reg::SP => "sp"@,
            Reg::XZR => "xzr"@,
            Reg::WZR => "wzr"@,
        }
    }

    pub open spec fn byte_width_spec(self) -> i64 {
        match self {
            Reg::W(_) | Reg::WZR => 4,
            Reg::X(_) | Reg::SP | Reg::XZR => 8,
        }
    }

    /// The register's width in bytes: four for the 32-bit registers, eight for the others.
    pub fn byte_width(self) -> (res: i64)
        ensures
            res == self.byte_width_spec(),
    {
        match self {
            Self::W(_) | Self::WZR => 4,
            Self::X(_) | Self::SP | Self::XZR => 8,
        }
    }

    pub fn to_text(&self) -> (res: String)
        ensures
            res@ == self.text(),
    {
        match self {
            Self::X(n) => {
                let mut s = String::from_str("x");
                let d = dec_string(*n as u64);
                s.append(d.as_str());
                s
            },
            Self::W(n) => {
                let mut s = String::from_str("w");
                let d = dec_string(*n as u64);
                s.append(d.as_str());
                s
            },
            Self::SP => String::from_str("sp"),
            Self::XZR => String::from_str("xzr"),
            Self::WZR => String::from_str("wzr"),
        }
    }
}

/// Whether a variable occurrence reads or writes it.
#[derive(Debug, Clone, Copy, PartialEq, Eq, Structural)]
pub enum VarRole {
    Use,
    Def,
}

/// The places that `occs` defines.
pub open spec fn defined_places(occs: Seq<(VarRole, Var)>) -> Set<Place> {
    Set::new(|p: Place| exists|i: int| 0 <= i < occs.len() && occs[i].0 == VarRole::Def && #[trigger] occs[i].1.place_spec() == p)
}

/// The variables that `occs` reads before any definition of their place in `occs`.
pub open spec fn upward_uses(occs: Seq<(VarRole, Var)>) -> Set<Var> {
    Set::new(
        |v: Var|
            exists|i: int|
                0 <= i < occs.len() && #[trigger] occs[i] == (VarRole::Use, v) && !defined_places(occs.take(i)).contains(v.place_spec()),
    )
}

/// The variables that `occs` defines.
pub open spec fn defined_vars(occs: Seq<(VarRole, Var)>) -> Set<Var> {
    Set::new(|v: Var| exists|i: int| 0 <= i < occs.len() && #[trigger] occs[i] == (VarRole::Def, v))
}

} // verus!

verus! {

/// An `id_arena::Arena` of Block.
pub type BlockArenaInner = Arena<Block, DefaultArenaBehavior<Block>>;

/// The items of an arena of Block, in allocation order.
pub uninterp spec fn block_arena_items(a: BlockArenaInner) -> Seq<Block>;

/// The number that tells an arena of Block apart from the others.
pub uninterp spec fn block_arena_tag(a: BlockArenaInner) -> u32;

/// The position that an id of an arena of Block names.
pub uninterp spec fn block_id_index(id: Id<Block>) -> usize;

/// The arena that an id of Block belongs to.
pub uninterp spec fn block_id_tag(id: Id<Block>) -> u32;

/// `Arena::new`: an empty arena.
#[verifier::external_body]
fn block_arena_new() -> (res: BlockArenaInner)
    ensures
        block_arena_items(res).len() == 0,
{
    Arena::new()
}

/// `Arena::alloc`: appends `item` and returns its id, the arena's tag with the item's position.
#[verifier::external_body]
fn block_arena_alloc(a: &mut BlockArenaInner, item: Block) -> (res: Id<Block>)
    ensures
        block_arena_items(*final(a)) == block_arena_items(*old(a)).push(item),
        block_arena_tag(*final(a)) == block_arena_tag(*old(a)),
        block_id_index(res) == block_arena_items(*old(a)).len(),
        block_id_tag(res) == block_arena_tag(*old(a)),
{
    a.alloc(item)
}

/// `Arena::get`: the item that an id of this arena names.
#[verifier::external_body]
fn block_arena_get(a: &BlockArenaInner, id: Id<Block>) -> (res: Option<&Block>)
    ensures
        res == (if block_id_tag(id) == block_arena_tag(*a) && block_id_index(id) < block_arena_items(*a).len() {
            Some(&block_arena_items(*a)[block_id_index(id) as int])
        } else {
            None
        }),
{
    a.get(id)
}

/// `Arena::get_mut`, on an id of this arena that names an item (it never fails there).
#[verifier::external_body]
fn block_arena_get_mut(a: &mut BlockArenaInner, id: Id<Block>) -> (res: &mut Block)
    requires
        block_id_tag(id) == block_arena_tag(*old(a)),
        block_id_index(id) < block_arena_items(*old(a)).len(),
    ensures
        *res == block_arena_items(*old(a))[block_id_index(id) as int],
        block_arena_items(*final(a)) == block_arena_items(*old(a)).update(block_id_index(id) as int, *final(res)),
        block_arena_tag(*final(a)) == block_arena_tag(*old(a)),
{
    a.get_mut(id).unwrap()
}

/// `Arena::clone`, which clones each item with the item type's `Clone`.
#[verifier::external_body]
fn block_arena_clone(a: &BlockArenaInner) -> (res: BlockArenaInner)
    ensures
        block_arena_items(res) == block_arena_items(*a),
        block_arena_tag(res) == block_arena_tag(*a),
{
    a.clone()
}

/// Storage of Block that allocation numbers from zero, backed by an `id_arena::Arena`.
pub struct BlockArena {
    arena: BlockArenaInner,
    ids: Vec<Id<Block>>,
}

impl View for BlockArena {
    type V = Seq<Block>;

    closed spec fn view(&self) -> Seq<Block> {
        block_arena_items(self.arena)
    }
}

impl BlockArena {
    pub closed spec fn wf(&self) -> bool {
        &&& self.ids@.len() == block_arena_items(self.arena).len()
        &&& forall|i: int| 0 <= i < self.ids@.len() ==> block_id_index(#[trigger] self.ids@[i]) == i
            && block_id_tag(self.ids@[i]) == block_arena_tag(self.arena)
    }

    pub fn new() -> (res: Self)
        ensures
            res.wf(),
            res@.len() == 0,
    {
        BlockArena { arena: block_arena_new(), ids: Vec::new() }
    }

    pub fn len(&self) -> (res: usize)
        requires
            self.wf(),
        ensures
            res == self@.len(),
    {
        self.ids.len()
    }

    /// Stores `item` under the next position, which it returns.
    pub fn allocate(&mut self, item: Block) -> (res: usize)
        requires
            old(self).wf(),
        ensures
            final(self).wf(),
            res == old(self)@.len(),
            final(self)@ == old(self)@.push(item),
    {
        let i = self.ids.len();
        let id = block_arena_alloc(&mut self.arena, item);
        self.ids.push(id);
        proof {
            assert forall|k: int| 0 <= k < self.ids@.len() implies block_id_index(#[trigger] self.ids@[k]) == k
                && block_id_tag(self.ids@[k]) == block_arena_tag(self.arena) by {
                if k < i {
                    assert(self.ids@[k] == old(self).ids@[k]);
                }
            }
        }
        i
    }

    pub fn get(&self, i: usize) -> (res: Option<&Block>)
        requires
            self.wf(),
        ensures
            res == (if i < self@.len() {
                Some(&self@[i as int])
            } else {
                None
            }),
    {
        if i < self.ids.len() {
            block_arena_get(&self.arena, self.ids[i])
        } else {
            None
        }
    }

    pub fn get_mut(&mut self, i: usize) -> (res: &mut Block)
        requires
            old(self).wf(),
            i < old(self)@.len(),
        ensures
            *res == old(self)@[i as int],
            final(self)@ == old(self)@.update(i as int, *final(res)),
            final(self).wf(),
    {
        let id = self.ids[i];
        block_arena_get_mut(&mut self.arena, id)
    }

    pub fn clone_arena(&self) -> (res: Self)
        requires
            self.wf(),
        ensures
            res.wf(),
            res@ == self@,
    {
        let mut ids: Vec<Id<Block>> = Vec::new();
        let mut i: usize = 0;
        while i < self.ids.len()
            invariant
                0 <= i <= self.ids@.len(),
                ids@ == self.ids@.take(i as int),
            decreases self.ids@.len() - i,
        {
            ids.push(self.ids[i]);
            proof {
                assert(ids@ =~= self.ids@.take(i + 1));
            }
            i = i + 1;
        }
        proof {
            assert(ids@ =~= self.ids@);
        }
        BlockArena { arena: block_arena_clone(&self.arena), ids }
    }
}

/// A phi function: `dst` takes the value that each predecessor block hands in.
#[derive(Debug, Clone)]
pub struct PhiFunc {
    dst: Var,
    /// The arguments, ordered by block, one per block.
    args: Vec<(BlockId, Value)>,
}

impl PhiFunc {
    pub closed spec fn dst_spec(&self) -> Var {
        self.dst
    }

    pub closed spec fn args_spec(&self) -> Seq<(BlockId, Value)> {
        self.args@
    }

    pub open spec fn wf(&self) -> bool {
        keys_ascending(self.args_spec())
    }

    /// The argument map the phi holds.
    pub open spec fn arg_map(&self) -> Map<BlockId, Value> {
        args_map(self.args_spec())
    }

    pub open spec fn text(&self) -> Seq<char> {
        self.dst_spec().text() + " = phi "@ + phi_args_text(self.args_spec())
    }

    pub fn new(dst: Var) -> (res: Self)
        ensures
            res.wf(),
            res.dst_spec() == dst,
            res.args_spec().len() == 0,
    {
        PhiFunc { dst, args: Vec::new() }
    }

    pub fn dst(&self) -> (res: Var)
        ensures
            res == self.dst_spec(),
    {
        self.dst
    }

    /// Whether the arguments are ordered by block, one per block.
    pub fn is_well_formed(&self) -> (res: bool)
        ensures
            res == self.wf(),
    {
        let mut i: usize = 1;
        if self.args.len() == 0 {
            return true;
        }
        while i < self.args.len()
            invariant
                1 <= i <= self.args@.len(),
                forall|a: int, b: int| 0 <= a < b < i ==> #[trigger] self.args@[a].0 < #[trigger] self.args@[b].0,
            decreases self.args@.len() - i,
        {
            if self.args[i - 1].0 >= self.args[i].0 {
                return false;
            }
            proof {
                assert forall|a: int, b: int| 0 <= a < b < i + 1 implies #[trigger] self.args@[a].0 < #[trigger] self.args@[b].0 by {
                    if b == i as int && a < i - 1 {
                        assert(self.args@[a].0 < self.args@[i - 1].0);
                    }
                }
            }
            i = i + 1;
        }
        true
    }


    pub fn set_dst(&mut self, dst: Var)
        ensures
            final(self).dst_spec() == dst,
            final(self).args_spec() == old(self).args_spec(),
    {
        self.dst = dst;
    }

    /// Sets the value that `block` hands in, in place of any earlier one.
    #[verifier::spinoff_prover]
    pub fn add_arg(&mut self, block: BlockId, value: Value)
        requires
            old(self).wf(),
        ensures
            final(self).wf(),
            final(self).dst_spec() == old(self).dst_spec(),
            final(self).arg_map() == old(self).arg_map().insert(block, value),
    {
        let ghost old_args = self.args@;
        let mut i: usize = 0;
        while i < self.args.len() && self.args[i].0 < block
            invariant
                self.args@ == old_args,
                0 <= i <= self.args@.len(),
                forall|k: int| 0 <= k < i ==> self.args@[k].0 < block,
                self.wf(),
            decreases self.args@.len() - i,
        {
            i = i + 1;
        }
        proof {
            assert forall|k: int| i <= k < old_args.len() implies old_args[k].0 >= #[trigger] old_args[i as int].0 by {
                if k > i {
                    assert(keys_ascending(old_args));
                    assert(old_args[i as int].0 < old_args[k].0);
                }
            }
        }
        if i < self.args.len() && self.args[i].0 == block {
            self.args.set(i, (block, value));
            proof {
                let na = self.args@;
                assert forall|k: int| 0 <= k < na.len() implies #[trigger] na[k].0 == old_args[k].0 by {}
                assert(keys_ascending(old_args));
                assert forall|x: int, y: int| 0 <= x < y < na.len() implies #[trigger] na[x].0 < #[trigger] na[y].0 by {
                    assert(old_args[x].0 < old_args[y].0);
                }
                assert(keys_ascending(na));
                lemma_arg_map_replace(old_args, i as int, block, value);
            }
        } else {
            self.args.insert(i, (block, value));
            proof {
                let na = self.args@;
                assert(keys_ascending(old_args));
                assert forall|k: int| i < k < old_args.len() implies #[trigger] old_args[k].0 > block by {
                    assert(old_args[i as int].0 < old_args[k].0);
                }
                if i < old_args.len() {
                    assert(old_args[i as int].0 > block);
                }
                assert forall|x: int, y: int| 0 <= x < y < na.len() implies #[trigger] na[x].0 < #[trigger] na[y].0 by {
                    if y < i {
                        assert(old_args[x].0 < old_args[y].0);
                    } else if y == i {
                        assert(na[x] == old_args[x]);
                    } else if x < i {
                        assert(na[y] == old_args[y - 1]);
                        assert(old_args[y - 1].0 >= old_args[i as int].0);
                    } else if x == i {
                        assert(na[y] == old_args[y - 1]);
                        assert(old_args[y - 1].0 >= old_args[i as int].0);
                    } else {
                        assert(na[x] == old_args[x - 1]);
                        assert(na[y] == old_args[y - 1]);
                        assert(old_args[x - 1].0 < old_args[y - 1].0);
                    }
                }
                assert(keys_ascending(na));
                lemma_arg_map_insert(old_args, i as int, block, value);
            }
        }
    }

    pub fn to_text(&self) -> (res: String)
        ensures
            res@ == self.text(),
    {
        let mut s = self.dst.to_text();
        s.append(" = phi ");
        let mut i: usize = 0;
        while i < self.args.len()
            invariant
                0 <= i <= self.args@.len(),
                s@ == self.dst_spec().text() + " = phi "@ + phi_args_text(self.args@.take(i as int)),
            decreases self.args@.len() - i,
        {
            if i > 0 {
                s.append(", ");
            }
            s.append("block");
            let b = dec_string(self.args[i].0 as u64);
            s.append(b.as_str());
            s.append(":");
            let v = self.args[i].1.to_text();
            s.append(v.as_str());
            proof {
                assert(self.args@.take(i + 1).drop_last() =~= self.args@.take(i as int));
            }
            i = i + 1;
        }
        proof {
            assert(self.args@.take(self.args@.len() as int) =~= self.args@);
        }
        s
    }
}

/// The arguments are ordered by block, strictly.
pub open spec fn keys_ascending(s: Seq<(BlockId, Value)>) -> bool {
    forall|i: int, j: int| 0 <= i < j < s.len() ==> #[trigger] s[i].0 < #[trigger] s[j].0
}

pub open spec fn args_map(s: Seq<(BlockId, Value)>) -> Map<BlockId, Value> {
    Map::new(
        |b: BlockId| exists|i: int| 0 <= i < s.len() && #[trigger] s[i].0 == b,
        |b: BlockId| s[choose|i: int| 0 <= i < s.len() && #[trigger] s[i].0 == b].1,
    )
}

proof fn lemma_args_map_lookup(s: Seq<(BlockId, Value)>, k: int)
    requires
        keys_ascending(s),
        0 <= k < s.len(),
    ensures
        args_map(s).contains_key(s[k].0),
        args_map(s)[s[k].0] == s[k].1,
{
    let b = s[k].0;
    assert(exists|i: int| 0 <= i < s.len() && #[trigger] s[i].0 == b);
    let c = choose|i: int| 0 <= i < s.len() && #[trigger] s[i].0 == b;
    if c < k {
        assert(s[c].0 < s[k].0);
    } else if c > k {
        assert(s[k].0 < s[c].0);
    }
}

proof fn lemma_arg_map_replace(s: Seq<(BlockId, Value)>, i: int, b: BlockId, v: Value)
    requires
        keys_ascending(s),
        0 <= i < s.len(),
        s[i].0 == b,
        keys_ascending(s.update(i, (b, v))),
    ensures
        args_map(s.update(i, (b, v))) == args_map(s).insert(b, v),
{
    let n = s.update(i, (b, v));
    assert forall|x: BlockId| #[trigger] args_map(n).contains_key(x) <==> args_map(s).insert(b, v).contains_key(x) by {
        if args_map(n).contains_key(x) {
            let k = choose|k: int| 0 <= k < n.len() && #[trigger] n[k].0 == x;
            lemma_args_map_lookup(s, k);
        }
        if args_map(s).contains_key(x) {
            let k = choose|k: int| 0 <= k < s.len() && #[trigger] s[k].0 == x;
            lemma_args_map_lookup(n, k);
        }
        if x == b {
            lemma_args_map_lookup(n, i);
        }
    }
    assert forall|x: BlockId| #[trigger] args_map(n).contains_key(x) implies args_map(n)[x] == args_map(s).insert(b, v)[x] by {
        let k = choose|k: int| 0 <= k < n.len() && #[trigger] n[k].0 == x;
        lemma_args_map_lookup(n, k);
        if k != i {
            lemma_args_map_lookup(s, k);
        }
    }
    assert(args_map(n) =~= args_map(s).insert(b, v));
}

proof fn lemma_arg_map_insert(s: Seq<(BlockId, Value)>, i: int, b: BlockId, v: Value)
    requires
        keys_ascending(s),
        0 <= i <= s.len(),
        forall|k: int| 0 <= k < i ==> s[k].0 < b,
        forall|k: int| i <= k < s.len() ==> s[k].0 > b,
        keys_ascending(s.insert(i, (b, v))),
    ensures
        args_map(s.insert(i, (b, v))) == args_map(s).insert(b, v),
{
    let n = s.insert(i, (b, v));
    assert forall|x: BlockId| #[trigger] args_map(n).contains_key(x) <==> args_map(s).insert(b, v).contains_key(x) by {
        if args_map(n).contains_key(x) {
            let k = choose|k: int| 0 <= k < n.len() && #[trigger] n[k].0 == x;
            if k < i {
                lemma_args_map_lookup(s, k);
            } else if k > i {
                assert(n[k] == s[k - 1]);
                lemma_args_map_lookup(s, k - 1);
            }
        }
        if args_map(s).contains_key(x) {
            let k = choose|k: int| 0 <= k < s.len() && #[trigger] s[k].0 == x;
            if k < i {
                assert(n[k] == s[k]);
                lemma_args_map_lookup(n, k);
            } else {
                assert(n[k + 1] == s[k]);
                lemma_args_map_lookup(n, k + 1);
            }
        }
        if x == b {
            lemma_args_map_lookup(n, i);
        }
    }
    assert forall|x: BlockId| #[trigger] args_map(n).contains_key(x) implies args_map(n)[x] == args_map(s).insert(b, v)[x] by {
        let k = choose|k: int| 0 <= k < n.len() && #[trigger] n[k].0 == x;
        lemma_args_map_lookup(n, k);
        if k < i {
            assert(n[k] == s[k]);
            lemma_args_map_lookup(s, k);
        } else if k > i {
            assert(n[k] == s[k - 1]);
            lemma_args_map_lookup(s, k - 1);
        }
    }
    assert(args_map(n) =~= args_map(s).insert(b, v));
}

pub open spec fn phi_arg_text(arg: (BlockId, Value)) -> Seq<char> {
    "block"@ + dec_text(arg.0 as nat) + ":"@ + arg.1.text()
}

/// The arguments `block{id}:{value}`, separated by `, `.
pub open spec fn phi_args_text(args: Seq<(BlockId, Value)>) -> Seq<char>
    decreases args.len(),
{
    if args.len() == 0 {
        Seq::empty()
    } else if args.len() == 1 {
        phi_arg_text(args[0])
    } else {
        phi_args_text(args.drop_last()) + ", "@ + phi_arg_text(args.last())
    }
}

/// A basic block of lifted instructions, with the phi functions placed at its head.
#[derive(Debug, Clone)]
pub struct Block {
    id: BlockId,
    label: Option<String>,
    instructions: Vec<Instruction>,
    terminator: Terminator,
    start: u64,
    end: u64,
    phis: Vec<PhiFunc>,
}

impl Block {
    pub closed spec fn id_spec(&self) -> BlockId {
        self.id
    }

    pub closed spec fn label_spec(&self) -> Option<Seq<char>> {
        match self.label {
            Some(l) => Some(l@),
            None => None,
        }
    }

    pub closed spec fn instructions_spec(&self) -> Seq<Instruction> {
        self.instructions@
    }

    pub closed spec fn terminator_spec(&self) -> Terminator {
        self.terminator
    }

    pub closed spec fn start_spec(&self) -> u64 {
        self.start
    }

    pub closed spec fn end_spec(&self) -> u64 {
        self.end
    }

    pub closed spec fn phis_spec(&self) -> Seq<PhiFunc> {
        self.phis@
    }

    pub open spec fn wf(&self) -> bool {
        forall|i: int| 0 <= i < self.phis_spec().len() ==> (#[trigger] self.phis_spec()[i]).wf()
    }

    /// The variables the block's instructions and terminator touch, in visiting order; phi
    /// functions are not visited.
    pub open spec fn occurrences(&self) -> Seq<(VarRole, Var)> {
        insns_occurrences(self.instructions_spec()) + self.terminator_spec().occurrences()
    }

    pub open spec fn text(&self) -> Seq<char> {
        let head = match self.label_spec() {
            Some(l) => "block"@ + dec_text(self.id_spec() as nat) + " "@ + l + ":\n"@,
            None => "block"@ + dec_text(self.id_spec() as nat) + ":\n"@,
        };
        head + phis_text(self.phis_spec()) + insn_lines_text(self.instructions_spec()) + "  "@
            + self.terminator_spec().text() + "\n"@
    }

    /// A block whose span runs from its first instruction (its terminator where it has none)
    /// to its terminator.
    pub fn new(
        id: BlockId,
        label: Option<String>,
        instructions: Vec<Instruction>,
        terminator: Terminator,
    ) -> (res: Self)
        ensures
            res.wf(),
            res.id_spec() == id,
            res.label_spec() == (match label {
                Some(l) => Some(l@),
                None => None::<Seq<char>>,
            }),
            res.instructions_spec() == instructions@,
            res.terminator_spec() == terminator,
            res.start_spec() == (if instructions@.len() > 0 {
                instructions@[0].addr
            } else {
                terminator.addr
            }),
            res.end_spec() == terminator.addr,
            res.phis_spec().len() == 0,
    {
        let start = if instructions.len() > 0 {
            instructions[0].addr
        } else {
            terminator.addr
        };
        let end = terminator.addr;
        Self { id, label, instructions, terminator, start, end, phis: Vec::new() }
    }

    pub fn id(&self) -> (res: BlockId)
        ensures
            res == self.id_spec(),
    {
        self.id
    }

    pub fn label(&self) -> (res: Option<&str>)
        ensures
            match res {
                Some(l) => self.label_spec() == Some(l@),
                None => self.label_spec() is None,
            },
    {
        match &self.label {
            Some(l) => Some(l.as_str()),
            None => None,
        }
    }

    pub fn set_label(&mut self, label: &str)
        ensures
            final(self).label_spec() == Some(label@),
            final(self).id_spec() == old(self).id_spec(),
            final(self).instructions_spec() == old(self).instructions_spec(),
            final(self).terminator_spec() == old(self).terminator_spec(),
            final(self).start_spec() == old(self).start_spec(),
            final(self).end_spec() == old(self).end_spec(),
            final(self).phis_spec() == old(self).phis_spec(),
    {
        self.label = Some(String::from_str(label));
    }

    pub fn start(&self) -> (res: u64)
        ensures
            res == self.start_spec(),
    {
        self.start
    }

    pub fn end(&self) -> (res: u64)
        ensures
            res == self.end_spec(),
    {
        self.end
    }

    /// The address of the first instruction, or of the terminator where there is none.
    pub fn start_addr(&self) -> (res: u64)
        ensures
            res == (if self.instructions_spec().len() > 0 {
                self.instructions_spec()[0].addr
            } else {
                self.terminator_spec().addr
            }),
    {
        if self.instructions.len() > 0 {
            self.instructions[0].addr
        } else {
            self.terminator.addr
        }
    }

    pub fn end_addr(&self) -> (res: u64)
        ensures
            res == self.terminator_spec().addr,
    {
        self.terminator.addr
    }

    pub fn instructions(&self) -> (res: &[Instruction])
        ensures
            res@ == self.instructions_spec(),
    {
        self.instructions.as_slice()
    }

    pub fn terminator(&self) -> (res: &Terminator)
        ensures
            *res == self.terminator_spec(),
    {
        &self.terminator
    }

    pub fn terminator_mut(&mut self) -> (res: &mut Terminator)
        ensures
            *res == old(self).terminator_spec(),
            final(self).terminator_spec() == *final(res),
            final(self).id_spec() == old(self).id_spec(),
            final(self).label_spec() == old(self).label_spec(),
            final(self).instructions_spec() == old(self).instructions_spec(),
            final(self).start_spec() == old(self).start_spec(),
            final(self).end_spec() == old(self).end_spec(),
            final(self).phis_spec() == old(self).phis_spec(),
    {
        &mut self.terminator
    }

    pub fn add_phi(&mut self, phi: PhiFunc)
        ensures
            final(self).phis_spec() == old(self).phis_spec().push(phi),
            final(self).id_spec() == old(self).id_spec(),
            final(self).label_spec() == old(self).label_spec(),
            final(self).instructions_spec() == old(self).instructions_spec(),
            final(self).terminator_spec() == old(self).terminator_spec(),
            final(self).start_spec() == old(self).start_spec(),
            final(self).end_spec() == old(self).end_spec(),
    {
        self.phis.push(phi);
    }

    pub fn phis(&self) -> (res: &[PhiFunc])
        ensures
            res@ == self.phis_spec(),
    {
        self.phis.as_slice()
    }

    /// The phi function at position `i`, to change.
    pub fn phi_mut(&mut self, i: usize) -> (res: &mut PhiFunc)
        requires
            i < old(self).phis_spec().len(),
        ensures
            *res == old(self).phis_spec()[i as int],
            final(self).phis_spec() == old(self).phis_spec().update(i as int, *final(res)),
            final(self).id_spec() == old(self).id_spec(),
            final(self).label_spec() == old(self).label_spec(),
            final(self).instructions_spec() == old(self).instructions_spec(),
            final(self).terminator_spec() == old(self).terminator_spec(),
            final(self).start_spec() == old(self).start_spec(),
            final(self).end_spec() == old(self).end_spec(),
    {
        &mut self.phis[i]
    }

    /// Replaces instructions and terminator, keeping everything else.
    pub fn set_body(&mut self, instructions: Vec<Instruction>, terminator: Terminator)
        ensures
            final(self).instructions_spec() == instructions@,
            final(self).terminator_spec() == terminator,
            final(self).phis_spec() == old(self).phis_spec(),
            final(self).id_spec() == old(self).id_spec(),
            final(self).label_spec() == old(self).label_spec(),
            final(self).start_spec() == old(self).start_spec(),
            final(self).end_spec() == old(self).end_spec(),
    {
        self.instructions = instructions;
        self.terminator = terminator;
    }

    /// The variables the block touches, in visiting order.
    pub fn occurrence_list(&self) -> (res: Vec<(VarRole, Var)>)
        ensures
            res@ == self.occurrences(),
    {
        let mut res: Vec<(VarRole, Var)> = Vec::new();
        let mut i: usize = 0;
        while i < self.instructions.len()
            invariant
                0 <= i <= self.instructions@.len(),
                res@ == insns_occurrences(self.instructions@.take(i as int)),
            decreases self.instructions@.len() - i,
        {
            let mut occ = kind_occurrences(&self.instructions[i].kind);
            res.append(&mut occ);
            proof {
                assert(self.instructions@.take(i + 1).drop_last() =~= self.instructions@.take(i as int));
            }
            i = i + 1;
        }
        proof {
            assert(self.instructions@.take(self.instructions@.len() as int) =~= self.instructions@);
        }
        let mut t = terminator_occurrences(&self.terminator);
        res.append(&mut t);
        res
    }

    pub fn to_text(&self) -> (res: String)
        ensures
            res@ == self.text(),
    {
        let mut s = String::from_str("block");
        let d = dec_string(self.id as u64);
        s.append(d.as_str());
        match &self.label {
            Some(l) => {
                s.append(" ");
                s.append(l.as_str());
                s.append(":\n");
            },
            None => {
                s.append(":\n");
            },
        }
        let ghost head = s@;
        let mut i: usize = 0;
        while i < self.phis.len()
            invariant
                0 <= i <= self.phis@.len(),
                s@ == head + phis_text(self.phis@.take(i as int)),
            decreases self.phis@.len() - i,
        {
            s.append("  ");
            let t = self.phis[i].to_text();
            s.append(t.as_str());
            s.append("\n");
            proof {
                assert(self.phis@.take(i + 1).drop_last() =~= self.phis@.take(i as int));
            }
            i = i + 1;
        }
        proof {
            assert(self.phis@.take(self.phis@.len() as int) =~= self.phis@);
        }
        let ghost mid = s@;
        let mut j: usize = 0;
        while j < self.instructions.len()
            invariant
                0 <= j <= self.instructions@.len(),
                s@ == mid + insn_lines_text(self.instructions@.take(j as int)),
            decreases self.instructions@.len() - j,
        {
            s.append("  ");
            let t = self.instructions[j].to_text();
            s.append(t.as_str());
            s.append("\n");
            proof {
                assert(self.instructions@.take(j + 1).drop_last() =~= self.instructions@.take(j as int));
            }
            j = j + 1;
        }
        proof {
            assert(self.instructions@.take(self.instructions@.len() as int) =~= self.instructions@);
        }
        s.append("  ");
        let t = self.terminator.to_text();
        s.append(t.as_str());
        s.append("\n");
        s
    }
}

pub open spec fn phis_text(phis: Seq<PhiFunc>) -> Seq<char>
    decreases phis.len(),
{
    if phis.len() == 0 {
        Seq::empty()
    } else {
        phis_text(phis.drop_last()) + "  "@ + phis.last().text() + "\n"@
    }
}

pub open spec fn insn_lines_text(insns: Seq<Instruction>) -> Seq<char>
    decreases insns.len(),
{
    if insns.len() == 0 {
        Seq::empty()
    } else {
        insn_lines_text(insns.drop_last()) + "  "@ + insns.last().text() + "\n"@
    }
}

pub open spec fn insns_occurrences(insns: Seq<Instruction>) -> Seq<(VarRole, Var)>
    decreases insns.len(),
{
    if insns.len() == 0 {
        Seq::empty()
    } else {
        insns_occurrences(insns.drop_last()) + insns.last().occurrences()
    }
}

pub fn value_occurrences(v: &Value) -> (res: Vec<(VarRole, Var)>)
    ensures
        res@ == v.occurrences(),
{
    match v {
        Value::Var(var) => {
            let mut r: Vec<(VarRole, Var)> = Vec::new();
            r.push((VarRole::Use, *var));
            proof {
                assert(r@ =~= seq![(VarRole::Use, *var)]);
            }
            r
        },
        Value::Imm(_) => Vec::new(),
    }
}

pub fn kind_occurrences(k: &InstructionKind) -> (res: Vec<(VarRole, Var)>)
    ensures
        res@ == k.occurrences(),
{
    match k {
        InstructionKind::Assign { dst, src } => {
            let mut r = match src {
                Rhs::BinOp { lhs, rhs, .. } => {
                    let mut a = value_occurrences(lhs);
                    let mut b = value_occurrences(rhs);
                    a.append(&mut b);
                    a
                },
                Rhs::Load { src } => value_occurrences(src),
                Rhs::Copy { src } => value_occurrences(src),
            };
            r.push((VarRole::Def, *dst));
            r
        },
        InstructionKind::Store { dst, src } => {
            let mut a = value_occurrences(dst);
            let mut b = value_occurrences(src);
            a.append(&mut b);
            a
        },
        InstructionKind::Call { target } => value_occurrences(target),
    }
}

pub fn terminator_occurrences(t: &Terminator) -> (res: Vec<(VarRole, Var)>)
    ensures
        res@ == t.occurrences(),
{
    match &t.kind {
        TerminatorKind::ConditionalBranch { cond: BranchCondition::NonZero(v), .. } => value_occurrences(v),
        _ => Vec::new(),
    }
}

/// The variables that `occs` reads before any definition of their place, each once.
pub fn upward_uses_of(occs: &Vec<(VarRole, Var)>) -> (res: Vec<Var>)
    ensures
        res@.no_duplicates(),
        forall|v: Var| #[trigger] res@.contains(v) <==> upward_uses(occs@).contains(v),
{
    let mut res: Vec<Var> = Vec::new();
    let mut defined: Vec<Place> = Vec::new();
    let mut i: usize = 0;
    while i < occs.len()
        invariant
            0 <= i <= occs@.len(),
            res@.no_duplicates(),
            forall|v: Var| #[trigger] res@.contains(v) <==> upward_uses(occs@.take(i as int)).contains(v),
            forall|p: Place| #[trigger] defined@.contains(p) <==> defined_places(occs@.take(i as int)).contains(p),
        decreases occs@.len() - i,
    {
        let (role, var) = occs[i];
        let ghost t = occs@.take(i as int);
        let ghost t1 = occs@.take(i + 1);
        let ghost old_res = res@;
        let ghost old_defined = defined@;
        proof {
            assert(t1.take(i as int) =~= t);
            assert forall|k: int| 0 <= k < i implies #[trigger] t1[k] == t[k] by {}
            assert(t1[i as int] == (role, var));
        }
        match role {
            VarRole::Use => {
                if !vec_contains_place(&defined, var.place()) && !vec_contains_var(&res, var) {
                    res.push(var);
                }
            },
            VarRole::Def => {
                if !vec_contains_place(&defined, var.place()) {
                    defined.push(var.place());
                }
            },
        }
        proof {
            assert forall|p: Place| #[trigger] defined@.contains(p) <==> defined_places(t1).contains(p) by {
                if defined_places(t1).contains(p) {
                    let k = choose|k: int| 0 <= k < t1.len() && t1[k].0 == VarRole::Def && #[trigger] t1[k].1.place_spec() == p;
                    if k < i {
                        assert(t[k].1.place_spec() == p);
                        assert(defined_places(t).contains(p));
                    }
                }
                if defined@.contains(p) && !(role == VarRole::Def && var.place_spec() == p) {
                    assert(old_defined.contains(p));
                    assert(defined_places(t).contains(p));
                    let k = choose|k: int| 0 <= k < t.len() && t[k].0 == VarRole::Def && #[trigger] t[k].1.place_spec() == p;
                    assert(t1[k].1.place_spec() == p);
                }
                if role == VarRole::Def && var.place_spec() == p {
                    assert(t1[i as int].1.place_spec() == p);
                }
            }
            assert forall|v: Var| #[trigger] res@.contains(v) <==> upward_uses(t1).contains(v) by {
                if upward_uses(t1).contains(v) {
                    let k = choose|k: int| 0 <= k < t1.len() && #[trigger] t1[k] == (VarRole::Use, v) && !defined_places(t1.take(k)).contains(v.place_spec());
                    if k < i {
                        assert(t1.take(k) =~= t.take(k));
                        assert(t[k] == (VarRole::Use, v));
                        assert(upward_uses(t).contains(v));
                    }
                }
                if res@.contains(v) {
                    if old_res.contains(v) {
                        assert(upward_uses(t).contains(v));
                        let k = choose|k: int| 0 <= k < t.len() && #[trigger] t[k] == (VarRole::Use, v) && !defined_places(t.take(k)).contains(v.place_spec());
                        assert(t1.take(k) =~= t.take(k));
                        assert(t1[k] == (VarRole::Use, v));
                    } else {
                        assert(role == VarRole::Use && var == v);
                        assert(!old_defined.contains(v.place_spec()));
                        assert(t1[i as int] == (VarRole::Use, v));
                        assert(t1.take(i as int) =~= t);
                    }
                }
            }
        }
        i = i + 1;
    }
    proof {
        assert(occs@.take(occs@.len() as int) =~= occs@);
    }
    res
}

/// The variables that `occs` defines, each once.
pub fn defined_vars_of(occs: &Vec<(VarRole, Var)>) -> (res: Vec<Var>)
    ensures
        res@.no_duplicates(),
        forall|v: Var| #[trigger] res@.contains(v) <==> defined_vars(occs@).contains(v),
{
    let mut res: Vec<Var> = Vec::new();
    let mut i: usize = 0;
    while i < occs.len()
        invariant
            0 <= i <= occs@.len(),
            res@.no_duplicates(),
            forall|v: Var| #[trigger] res@.contains(v) <==> defined_vars(occs@.take(i as int)).contains(v),
        decreases occs@.len() - i,
    {
        let (role, var) = occs[i];
        let ghost t = occs@.take(i as int);
        let ghost t1 = occs@.take(i + 1);
        let ghost old_res = res@;
        proof {
            assert forall|k: int| 0 <= k < i implies #[trigger] t1[k] == t[k] by {}
            assert(t1[i as int] == (role, var));
        }
        if role == VarRole::Def && !vec_contains_var(&res, var) {
            res.push(var);
        }
        proof {
            assert forall|v: Var| #[trigger] res@.contains(v) <==> defined_vars(t1).contains(v) by {
                if defined_vars(t1).contains(v) {
                    let k = choose|k: int| 0 <= k < t1.len() && #[trigger] t1[k] == (VarRole::Def, v);
                    if k < i {
                        assert(t[k] == (VarRole::Def, v));
                    }
                }
                if res@.contains(v) && old_res.contains(v) {
                    assert(defined_vars(t).contains(v));
                    let k = choose|k: int| 0 <= k < t.len() && #[trigger] t[k] == (VarRole::Def, v);
                    assert(t1[k] == (VarRole::Def, v));
                }
                if role == VarRole::Def && var == v {
                    assert(t1[i as int] == (VarRole::Def, v));
                }
            }
        }
        i = i + 1;
    }
    proof {
        assert(occs@.take(occs@.len() as int) =~= occs@);
    }
    res
}

pub fn vec_contains_var(v: &Vec<Var>, x: Var) -> (res: bool)
    ensures
        res == v@.contains(x),
{
    let mut i: usize = 0;
    while i < v.len()
        invariant
            0 <= i <= v@.len(),
            forall|k: int| 0 <= k < i ==> v@[k] != x,
        decreases v@.len() - i,
    {
        if v[i] == x {
            return true;
        }
        i = i + 1;
    }
    false
}

pub fn vec_contains_place(v: &Vec<Place>, x: Place) -> (res: bool)
    ensures
        res == v@.contains(x),
{
    let mut i: usize = 0;
    while i < v.len()
        invariant
            0 <= i <= v@.len(),
            forall|k: int| 0 <= k < i ==> v@[k] != x,
        decreases v@.len() - i,
    {
        if v[i] == x {
            return true;
        }
        i = i + 1;
    }
    false
}


/// `order` lists every position of `blocks` once, by ascending start address, and by position
/// among blocks that start at the same address.
pub open spec fn is_start_order(blocks: Seq<Block>, order: Seq<usize>) -> bool {
    &&& order.len() == blocks.len()
    &&& forall|i: int| 0 <= i < order.len() ==> #[trigger] order[i] < blocks.len()
    &&& forall|i: int, j: int|
        #![trigger order[i], order[j]]
        0 <= i < j < order.len() ==> blocks[order[i] as int].start_spec() < blocks[order[j] as int].start_spec()
            || (blocks[order[i] as int].start_spec() == blocks[order[j] as int].start_spec()
            && order[i] < order[j])
}

/// The text of the blocks that `order` picks, each followed by an empty line.
pub open spec fn ordered_blocks_text(blocks: Seq<Block>, order: Seq<usize>) -> Seq<char>
    decreases order.len(),
{
    if order.len() == 0 {
        Seq::empty()
    } else {
        ordered_blocks_text(blocks, order.drop_last()) + blocks[order.last() as int].text() + "\n"@
    }
}

/// The blocks of `blocks` ordered by start address (a stable sort).
pub fn start_order(blocks: &Vec<&Block>) -> (res: Vec<usize>)
    ensures
        is_start_order(blocks@.map_values(|b: &Block| *b), res@),
{
    let ghost bs = blocks@.map_values(|b: &Block| *b);
    let mut order: Vec<usize> = Vec::new();
    let mut k: usize = 0;
    while k < blocks.len()
        invariant
            0 <= k <= blocks@.len(),
            bs == blocks@.map_values(|b: &Block| *b),
            order@.len() == k,
            forall|i: int| 0 <= i < order@.len() ==> #[trigger] order@[i] < k,
            forall|i: int, j: int|
                #![trigger order@[i], order@[j]]
                0 <= i < j < order@.len() ==> bs[order@[i] as int].start_spec() < bs[order@[j] as int].start_spec()
                    || (bs[order@[i] as int].start_spec() == bs[order@[j] as int].start_spec()
                    && order@[i] < order@[j]),
        decreases blocks@.len() - k,
    {
        let start = blocks[k].start();
        let mut p: usize = 0;
        while p < order.len() && blocks[order[p]].start() <= start
            invariant
                0 <= p <= order@.len(),
                k < blocks@.len(),
                bs == blocks@.map_values(|b: &Block| *b),
                start == bs[k as int].start_spec(),
                forall|i: int| 0 <= i < order@.len() ==> #[trigger] order@[i] < k,
                forall|i: int| 0 <= i < p ==> bs[#[trigger] order@[i] as int].start_spec() <= start,
                forall|i: int, j: int|
                    #![trigger order@[i], order@[j]]
                    0 <= i < j < order@.len() ==> bs[order@[i] as int].start_spec() < bs[order@[j] as int].start_spec()
                        || (bs[order@[i] as int].start_spec() == bs[order@[j] as int].start_spec()
                        && order@[i] < order@[j]),
            decreases order@.len() - p,
        {
            p = p + 1;
        }
        proof {
            assert forall|i: int| p <= i < order@.len() implies bs[#[trigger] order@[i] as int].start_spec() > start by {
                if p < order@.len() {
                    assert(bs[order@[p as int] as int].start_spec() > start);
                    if i > p {
                        assert(bs[order@[p as int] as int].start_spec() <= bs[order@[i] as int].start_spec());
                    }
                }
            }
        }
        let ghost old_order = order@;
        order.insert(p, k);
        proof {
            assert(order@ == old_order.insert(p as int, k));
            assert forall|i: int, j: int|
                #![trigger order@[i], order@[j]]
                0 <= i < j < order@.len() implies bs[order@[i] as int].start_spec() < bs[order@[j] as int].start_spec()
                    || (bs[order@[i] as int].start_spec() == bs[order@[j] as int].start_spec()
                    && order@[i] < order@[j]) by {
                if j < p {
                    assert(order@[i] == old_order[i] && order@[j] == old_order[j]);
                } else if j == p {
                    assert(order@[i] == old_order[i]);
                } else if i < p {
                    assert(order@[i] == old_order[i] && order@[j] == old_order[j - 1]);
                } else if i == p {
                    assert(order@[j] == old_order[j - 1]);
                } else {
                    assert(order@[i] == old_order[i - 1] && order@[j] == old_order[j - 1]);
                }
            }
            assert forall|i: int| 0 <= i < order@.len() implies #[trigger] order@[i] < k + 1 by {
                if i < p {
                    assert(order@[i] == old_order[i]);
                } else if i > p {
                    assert(order@[i] == old_order[i - 1]);
                }
            }
        }
        k = k + 1;
    }
    order
}

/// A lifted function: its blocks and the control-flow graph over them, keyed by block id.
pub struct Function {
    name: String,
    entry: usize,
    blocks: BlockArena,
    cfg: IndexedGraph,
}

impl Function {
    pub closed spec fn name_spec(&self) -> Seq<char> {
        self.name@
    }

    pub closed spec fn entry_spec(&self) -> usize {
        self.entry
    }

    pub closed spec fn blocks_spec(&self) -> Seq<Block> {
        self.blocks@
    }

    pub closed spec fn cfg_spec(&self) -> IndexedGraph {
        self.cfg
    }

    /// The arena and the graph are well formed and the entry node exists.
    pub closed spec fn wf(&self) -> bool {
        &&& self.blocks.wf()
        &&& self.cfg.wf()
        &&& self.cfg.nodes().contains_key(self.entry as nat)
    }

    /// A well-formed function has a well-formed graph that holds its entry.
    pub proof fn lemma_wf(&self)
        requires
            self.wf(),
        ensures
            self.cfg_spec().wf(),
            self.cfg_spec().nodes().contains_key(self.entry_spec() as nat),
    {
    }

    /// Every node of the graph carries the id of a block of the function.
    pub open spec fn keys_in_arena(&self) -> bool {
        forall|n: nat| #[trigger]
            self.cfg_spec().nodes().contains_key(n) ==> self.cfg_spec().nodes()[n] < self.blocks_spec().len()
    }

    /// Every block carries its own position as its id.
    pub open spec fn blocks_indexed(&self) -> bool {
        forall|i: int| 0 <= i < self.blocks_spec().len() ==> (#[trigger] self.blocks_spec()[i]).id_spec() == i
    }

    /// The text of the function when its blocks are listed in the order `order`.
    pub open spec fn text_in(&self, order: Seq<usize>) -> Seq<char> {
        "fn "@ + self.name_spec() + " {\n"@ + ordered_blocks_text(self.blocks_spec(), order) + "}\n"@
    }

    /// The function named `name` with the blocks `blocks`, the graph `cfg` over them, and the
    /// block `entry` as its entry, which must have a node in `cfg`.
    pub fn new(name: String, entry: BlockId, blocks: BlockArena, cfg: IndexedGraph) -> (res: Self)
        requires
            blocks.wf(),
            cfg.wf(),
            node_of_key(cfg.sg(), entry).is_some(),
        ensures
            res.wf(),
            res.name_spec() == name@,
            Some(res.entry_spec() as nat) == node_of_key(cfg.sg(), entry),
            res.blocks_spec() == blocks@,
            res.cfg_spec() == cfg,
    {
        let entry = cfg.node_for_key(entry).unwrap();
        Function { name, entry, blocks, cfg }
    }

    pub fn name(&self) -> (res: &str)
        ensures
            res@ == self.name_spec(),
    {
        self.name.as_str()
    }

    /// The node of the entry block.
    pub fn entry(&self) -> (res: usize)
        ensures
            res == self.entry_spec(),
    {
        self.entry
    }

    /// The number of blocks.
    pub fn block_count(&self) -> (res: usize)
        requires
            self.wf(),
        ensures
            res == self.blocks_spec().len(),
    {
        self.blocks.len()
    }

    pub fn block(&self, id: BlockId) -> (res: &Block)
        requires
            self.wf(),
            id < self.blocks_spec().len(),
        ensures
            *res == self.blocks_spec()[id as int],
    {
        self.blocks.get(id).unwrap()
    }

    pub fn block_mut(&mut self, id: BlockId) -> (res: &mut Block)
        requires
            old(self).wf(),
            id < old(self).blocks_spec().len(),
        ensures
            *res == old(self).blocks_spec()[id as int],
            final(self).blocks_spec() == old(self).blocks_spec().update(id as int, *final(res)),
            final(self).wf(),
            final(self).name_spec() == old(self).name_spec(),
            final(self).entry_spec() == old(self).entry_spec(),
            final(self).cfg_spec() == old(self).cfg_spec(),
    {
        self.blocks.get_mut(id)
    }

    /// The blocks, in the order of their ids.
    pub fn blocks(&self) -> (res: Vec<&Block>)
        requires
            self.wf(),
        ensures
            res@.len() == self.blocks_spec().len(),
            forall|i: int| 0 <= i < res@.len() ==> *res@[i] == #[trigger] self.blocks_spec()[i],
    {
        let mut res: Vec<&Block> = Vec::new();
        let n = self.blocks.len();
        let mut i: usize = 0;
        while i < n
            invariant
                self.wf(),
                n == self.blocks_spec().len(),
                0 <= i <= n,
                res@.len() == i,
                forall|j: int| 0 <= j < i ==> *res@[j] == #[trigger] self.blocks_spec()[j],
            decreases n - i,
        {
            res.push(self.blocks.get(i).unwrap());
            i = i + 1;
        }
        res
    }

    /// Whether the phi functions of every block are well formed.
    pub fn blocks_well_formed(&self) -> (res: bool)
        requires
            self.wf(),
        ensures
            res == forall|i: int| 0 <= i < self.blocks_spec().len() ==> (#[trigger] self.blocks_spec()[i]).wf(),
    {
        let blocks = self.blocks();
        let mut i: usize = 0;
        while i < blocks.len()
            invariant
                0 <= i <= blocks@.len(),
                blocks@.len() == self.blocks_spec().len(),
                forall|q: int| 0 <= q < blocks@.len() ==> *blocks@[q] == #[trigger] self.blocks_spec()[q],
                forall|q: int| 0 <= q < i ==> (#[trigger] self.blocks_spec()[q]).wf(),
            decreases blocks@.len() - i,
        {
            let phis = blocks[i].phis();
            let mut j: usize = 0;
            while j < phis.len()
                invariant
                    0 <= j <= phis@.len(),
                    i < blocks@.len(),
                    blocks@.len() == self.blocks_spec().len(),
                    phis@ == self.blocks_spec()[i as int].phis_spec(),
                    forall|q: int| 0 <= q < j ==> (#[trigger] phis@[q]).wf(),
                decreases phis@.len() - j,
            {
                if !phis[j].is_well_formed() {
                    proof {
                        assert(!self.blocks_spec()[i as int].wf());
                    }
                    return false;
                }
                j = j + 1;
            }
            i = i + 1;
        }
        true
    }

    pub fn cfg(&self) -> (res: &IndexedGraph)
        ensures
            *res == self.cfg_spec(),
    {
        &self.cfg
    }

    /// The block that `node` stands for; the node must exist.
    pub fn block_for_node(&self, node: usize) -> (res: BlockId)
        requires
            self.wf(),
            self.cfg_spec().nodes().contains_key(node as nat),
        ensures
            res == self.cfg_spec().nodes()[node as nat],
    {
        self.cfg.key_for_node(node).unwrap()
    }

    /// The node of block `id`; the block must have one.
    pub fn node_for_block(&self, id: BlockId) -> (res: usize)
        requires
            self.wf(),
            node_of_key(self.cfg_spec().sg(), id).is_some(),
        ensures
            Some(res as nat) == node_of_key(self.cfg_spec().sg(), id),
            self.cfg_spec().nodes().contains_key(res as nat),
            self.cfg_spec().nodes()[res as nat] == id,
    {
        let res = self.cfg.node_for_key(id).unwrap();
        proof {
            let n = choose|n: nat| sg_nodes(self.cfg_spec().sg()).contains_key(n) && #[trigger] sg_nodes(self.cfg_spec().sg())[n] == id;
        }
        res
    }

    /// A copy of the function.
    pub fn clone_function(&self) -> (res: Self)
        requires
            self.wf(),
        ensures
            res.wf(),
            res.name_spec() == self.name_spec(),
            res.entry_spec() == self.entry_spec(),
            res.blocks_spec() == self.blocks_spec(),
            res.cfg_spec().nodes() == self.cfg_spec().nodes(),
            res.cfg_spec().edges() == self.cfg_spec().edges(),
    {
        Function {
            name: self.name.clone(),
            entry: self.entry,
            blocks: self.blocks.clone_arena(),
            cfg: self.cfg.clone_graph(),
        }
    }

    /// The function as text: its name, then its blocks ordered by start address (the start
    /// order of a list is unique).
    pub fn to_text(&self) -> (res: String)
        requires
            self.wf(),
        ensures
            exists|order: Seq<usize>| is_start_order(self.blocks_spec(), order) && res@ == self.text_in(order),
    {
        let blocks = self.blocks();
        let order = start_order(&blocks);
        proof {
            assert(blocks@.map_values(|b: &Block| *b) =~= self.blocks_spec());
        }
        let mut out = String::from_str("fn ");
        out.append(self.name.as_str());
        out.append(" {\n");
        let ghost head = out@;
        let mut i: usize = 0;
        while i < order.len()
            invariant
                0 <= i <= order@.len(),
                is_start_order(self.blocks_spec(), order@),
                blocks@.len() == self.blocks_spec().len(),
                forall|j: int| 0 <= j < blocks@.len() ==> *blocks@[j] == #[trigger] self.blocks_spec()[j],
                out@ == head + ordered_blocks_text(self.blocks_spec(), order@.take(i as int)),
            decreases order@.len() - i,
        {
            let b = blocks[order[i]];
            let t = b.to_text();
            out.append(t.as_str());
            out.append("\n");
            proof {
                assert(order@.take(i + 1).drop_last() =~= order@.take(i as int));
                assert(out@ =~= head + ordered_blocks_text(self.blocks_spec(), order@.take(i + 1)));
            }
            i = i + 1;
        }
        out.append("}\n");
        proof {
            assert(order@.take(order@.len() as int) =~= order@);
            assert(out@ =~= self.text_in(order@));
        }
        out
    }
}

} // verus!
