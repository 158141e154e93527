use vstd::prelude::*;

use crate::disassemble::{
    MachineInst, MachineOperand, ARM64_INS_ADD, ARM64_INS_ADRP, ARM64_INS_BL, ARM64_INS_LDP, ARM64_INS_LDR,
    ARM64_INS_MOV, ARM64_INS_RET, ARM64_INS_STP, ARM64_INS_STR, ARM64_INS_STUR, ARM64_INS_SUB, ARM64_REG_FP,
    ARM64_INS_B, ARM64_INS_CBNZ, ARM64_INS_SDIV, ARM64_CC_INVALID, ARM64_CC_GT, ARM64_CC_GE,
    ARM64_REG_INVALID, ARM64_REG_LR, ARM64_REG_SP, ARM64_REG_W0, ARM64_REG_W30, ARM64_REG_WSP, ARM64_REG_WZR,
    ARM64_REG_X0, ARM64_REG_X28, ARM64_REG_XZR,
};
use crate::llir::{
    BinOp, BranchCondition, BranchTarget, Instruction, InstructionKind, InstructionOrTerminator, LinearProgram, Place,
    Reg, Rhs, Terminator, TerminatorKind, Value, Var,
};

verus! {

/// The register of the lifted program that capstone's register number `r` names, where this
/// decompiler knows it.
pub open spec fn reg_of(r: u16) -> Option<Reg> {
    if r == ARM64_REG_SP || r == ARM64_REG_WSP {
        Some(Reg::SP)
    } else if r == ARM64_REG_WZR {
        Some(Reg::WZR)
    } else if r == ARM64_REG_XZR {
        Some(Reg::XZR)
    } else if r == ARM64_REG_FP {
        Some(Reg::X(29))
    } else if r == ARM64_REG_LR {
        Some(Reg::X(30))
    } else if ARM64_REG_W0 <= r && r <= ARM64_REG_W30 {
        Some(Reg::W((r - ARM64_REG_W0) as u8))
    } else if ARM64_REG_X0 <= r && r <= ARM64_REG_X28 {
        Some(Reg::X((r - ARM64_REG_X0) as u8))
    } else {
        None
    }
}

/// Operand `idx` of `m`, where it has one.
pub open spec fn operand_at(m: MachineInst, idx: int) -> Option<MachineOperand> {
    if 0 <= idx < m.operands@.len() {
        Some(m.operands@[idx])
    } else {
        None
    }
}

/// Operand `idx` of `m` as a known register.
pub open spec fn reg_operand(m: MachineInst, idx: int) -> Option<Reg> {
    match operand_at(m, idx) {
        Some(MachineOperand::Reg(r)) => reg_of(r),
        _ => None,
    }
}

/// Operand `idx` of `m` as an immediate.
pub open spec fn imm_operand(m: MachineInst, idx: int) -> Option<i64> {
    match operand_at(m, idx) {
        Some(MachineOperand::Imm(i)) => Some(i),
        _ => None,
    }
}

/// Operand `idx` of `m` as a memory operand of a known base register and a displacement,
/// without an index register.
pub open spec fn mem_operand(m: MachineInst, idx: int) -> Option<(Reg, i32)> {
    match operand_at(m, idx) {
        Some(MachineOperand::Mem(base, index, disp)) => if index == ARM64_REG_INVALID && reg_of(base) is Some {
            Some((reg_of(base).unwrap(), disp))
        } else {
            None
        },
        _ => None,
    }
}

/// The value that a `mov` copies: its second operand, a known register or an immediate.
pub open spec fn mov_source(m: MachineInst) -> Option<Value> {
    match operand_at(m, 1) {
        Some(MachineOperand::Reg(r)) => match reg_of(r) {
            Some(reg) => Some(Value::Var(Var::at(Place::Reg(reg), 0))),
            None => None,
        },
        Some(MachineOperand::Imm(i)) => Some(Value::Imm(i)),
        _ => None,
    }
}

/// This decompiler can lift `m`: its instruction is one it knows, with the operands that
/// instruction needs, and a load or store of it does not write back its base register.
pub open spec fn liftable(m: MachineInst) -> bool {
    let op = m.opcode;
    if op == ARM64_INS_ADD || op == ARM64_INS_SUB {
        reg_operand(m, 0) is Some && reg_operand(m, 1) is Some && imm_operand(m, 2) is Some
    } else if op == ARM64_INS_ADRP {
        reg_operand(m, 0) is Some && imm_operand(m, 1) is Some
    } else if op == ARM64_INS_BL {
        imm_operand(m, 0) is Some
    } else if op == ARM64_INS_LDP || op == ARM64_INS_STP {
        !m.writeback && reg_operand(m, 0) is Some && reg_operand(m, 1) is Some && mem_operand(m, 2) is Some
    } else if op == ARM64_INS_LDR || op == ARM64_INS_STR || op == ARM64_INS_STUR {
        !m.writeback && reg_operand(m, 0) is Some && mem_operand(m, 1) is Some
    } else if op == ARM64_INS_MOV {
        reg_operand(m, 0) is Some && mov_source(m) is Some
    } else if op == ARM64_INS_SDIV {
        reg_operand(m, 0) is Some && reg_operand(m, 1) is Some && reg_operand(m, 2) is Some
    } else if op == ARM64_INS_B {
        imm_operand(m, 0) is Some && (m.cc == ARM64_CC_INVALID || m.cc == ARM64_CC_GT || m.cc == ARM64_CC_GE)
    } else if op == ARM64_INS_CBNZ {
        reg_operand(m, 0) is Some && imm_operand(m, 1) is Some
    } else {
        op == ARM64_INS_RET
    }
}

/// The terminator at `addr` of kind `kind`.
pub open spec fn term_item(addr: u64, kind: TerminatorKind) -> InstructionOrTerminator {
    InstructionOrTerminator::Terminator(Terminator { addr, kind })
}

/// The terminator that a `b` with condition code `cc` to `target` ends a block with: a jump, or
/// a conditional branch on `> 0` or `>= 0`.
pub open spec fn branch_kind(cc: u32, target: i64) -> TerminatorKind {
    if cc == ARM64_CC_GT {
        TerminatorKind::ConditionalBranch { cond: BranchCondition::Gt, target: BranchTarget::Imm(target as u64) }
    } else if cc == ARM64_CC_GE {
        TerminatorKind::ConditionalBranch { cond: BranchCondition::Ge, target: BranchTarget::Imm(target as u64) }
    } else {
        TerminatorKind::Branch { target: BranchTarget::Imm(target as u64) }
    }
}

/// Lifting a `b` ends its block at the instruction's address with a branch to its immediate:
/// on `>= 0` where its condition code is GE, on `> 0` where it is GT, and unconditionally where
/// it has none.
pub proof fn lemma_lift_branch(m: MachineInst, t: u32)
    requires
        m.opcode == ARM64_INS_B,
        liftable(m),
    ensures
        m.cc == ARM64_CC_GE ==> lift_one(m, t) == seq![
            InstructionOrTerminator::Terminator(
                Terminator {
                    addr: m.addr,
                    kind: TerminatorKind::ConditionalBranch {
                        cond: BranchCondition::Ge,
                        target: BranchTarget::Imm(imm_operand(m, 0).unwrap() as u64),
                    },
                },
            ),
        ],
        m.cc == ARM64_CC_GT ==> lift_one(m, t) == seq![
            InstructionOrTerminator::Terminator(
                Terminator {
                    addr: m.addr,
                    kind: TerminatorKind::ConditionalBranch {
                        cond: BranchCondition::Gt,
                        target: BranchTarget::Imm(imm_operand(m, 0).unwrap() as u64),
                    },
                },
            ),
        ],
        m.cc == ARM64_CC_INVALID ==> lift_one(m, t) == seq![
            InstructionOrTerminator::Terminator(
                Terminator { addr: m.addr, kind: TerminatorKind::Branch { target: BranchTarget::Imm(imm_operand(m, 0).unwrap() as u64) } },
            ),
        ],
{
}

/// Every item that lifting `m` gives stands at `m`'s address. An `add`, `sub` or `sdiv` becomes
/// one assignment of the sum, difference or signed quotient of its operands to its first
/// register; a `mov` a copy of its source to its first register; a `bl` a call of its target; a
/// `cbnz` a branch to its target on its register being nonzero; a `ret` a return; an `ldr`
/// loads into its register and an `str` or `stur` stores its register, through an address
/// computed first.
pub proof fn lemma_lift_operations(m: MachineInst, t: u32)
    requires
        liftable(m),
    ensures
        forall|i: int|
            0 <= i < lift_one(m, t).len() ==> match #[trigger] lift_one(m, t)[i] {
                InstructionOrTerminator::Instruction(x) => x.addr == m.addr,
                InstructionOrTerminator::Terminator(x) => x.addr == m.addr,
            },
        m.opcode == ARM64_INS_ADD ==> lift_one(m, t) == seq![
            InstructionOrTerminator::Instruction(
                Instruction {
                    addr: m.addr,
                    kind: InstructionKind::Assign {
                        dst: Var::at(Place::Reg(reg_operand(m, 0).unwrap()), 0),
                        src: Rhs::BinOp {
                            op: BinOp::Add,
                            lhs: Value::Var(Var::at(Place::Reg(reg_operand(m, 1).unwrap()), 0)),
                            rhs: Value::Imm(imm_operand(m, 2).unwrap()),
                        },
                    },
                },
            ),
        ],
        m.opcode == ARM64_INS_SUB ==> lift_one(m, t) == seq![
            InstructionOrTerminator::Instruction(
                Instruction {
                    addr: m.addr,
                    kind: InstructionKind::Assign {
                        dst: Var::at(Place::Reg(reg_operand(m, 0).unwrap()), 0),
                        src: Rhs::BinOp {
                            op: BinOp::Sub,
                            lhs: Value::Var(Var::at(Place::Reg(reg_operand(m, 1).unwrap()), 0)),
                            rhs: Value::Imm(imm_operand(m, 2).unwrap()),
                        },
                    },
                },
            ),
        ],
        m.opcode == ARM64_INS_SDIV ==> lift_one(m, t) == seq![
            InstructionOrTerminator::Instruction(
                Instruction {
                    addr: m.addr,
                    kind: InstructionKind::Assign {
                        dst: Var::at(Place::Reg(reg_operand(m, 0).unwrap()), 0),
                        src: Rhs::BinOp {
                            op: BinOp::SDiv,
                            lhs: Value::Var(Var::at(Place::Reg(reg_operand(m, 1).unwrap()), 0)),
                            rhs: Value::Var(Var::at(Place::Reg(reg_operand(m, 2).unwrap()), 0)),
                        },
                    },
                },
            ),
        ],
        m.opcode == ARM64_INS_MOV ==> lift_one(m, t) == seq![
            InstructionOrTerminator::Instruction(
                Instruction {
                    addr: m.addr,
                    kind: InstructionKind::Assign {
                        dst: Var::at(Place::Reg(reg_operand(m, 0).unwrap()), 0),
                        src: Rhs::Copy { src: mov_source(m).unwrap() },
                    },
                },
            ),
        ],
        m.opcode == ARM64_INS_BL ==> lift_one(m, t) == seq![
            InstructionOrTerminator::Instruction(
                Instruction { addr: m.addr, kind: InstructionKind::Call { target: Value::Imm(imm_operand(m, 0).unwrap()) } },
            ),
        ],
        m.opcode == ARM64_INS_CBNZ ==> lift_one(m, t) == seq![
            InstructionOrTerminator::Terminator(
                Terminator {
                    addr: m.addr,
                    kind: TerminatorKind::ConditionalBranch {
                        cond: BranchCondition::NonZero(Value::Var(Var::at(Place::Reg(reg_operand(m, 0).unwrap()), 0))),
                        target: BranchTarget::Imm(imm_operand(m, 1).unwrap() as u64),
                    },
                },
            ),
        ],
        m.opcode == ARM64_INS_RET ==> lift_one(m, t) == seq![
            InstructionOrTerminator::Terminator(Terminator { addr: m.addr, kind: TerminatorKind::Ret }),
        ],
        m.opcode == ARM64_INS_LDR ==> lift_one(m, t).len() == 2 && lift_one(m, t)[1] == InstructionOrTerminator::Instruction(
            Instruction {
                addr: m.addr,
                kind: InstructionKind::Assign {
                    dst: Var::at(Place::Reg(reg_operand(m, 0).unwrap()), 0),
                    src: Rhs::Load { src: Value::Var(Var::at(Place::Temp(t), 0)) },
                },
            },
        ),
        m.opcode == ARM64_INS_STR || m.opcode == ARM64_INS_STUR ==> lift_one(m, t).len() == 2 && lift_one(m, t)[1]
            == InstructionOrTerminator::Instruction(
            Instruction {
                addr: m.addr,
                kind: InstructionKind::Store {
                    dst: Value::Var(Var::at(Place::Temp(t), 0)),
                    src: Value::Var(Var::at(Place::Reg(reg_operand(m, 0).unwrap()), 0)),
                },
            },
        ),
{
    let items = lift_one(m, t);
    assert forall|i: int| 0 <= i < items.len() implies match #[trigger] items[i] {
        InstructionOrTerminator::Instruction(x) => x.addr == m.addr,
        InstructionOrTerminator::Terminator(x) => x.addr == m.addr,
    } by {
        if m.opcode == ARM64_INS_LDP || m.opcode == ARM64_INS_STP {
            assert(i < 4);
        }
    }
}

/// How many temporaries lifting `m` takes: one for each address it computes.
pub open spec fn temps_used(m: MachineInst) -> nat {
    let op = m.opcode;
    if op == ARM64_INS_LDP || op == ARM64_INS_STP {
        2
    } else if op == ARM64_INS_LDR || op == ARM64_INS_STR || op == ARM64_INS_STUR {
        1
    } else {
        0
    }
}

pub open spec fn reg_var(r: Reg) -> Var {
    Var::at(Place::Reg(r), 0)
}

pub open spec fn temp_var(t: u32) -> Var {
    Var::at(Place::Temp(t), 0)
}

pub open spec fn insn_item(addr: u64, kind: InstructionKind) -> InstructionOrTerminator {
    InstructionOrTerminator::Instruction(Instruction { addr, kind })
}

/// The instruction that puts the address `base + offset` in temporary `t`.
pub open spec fn addr_item(addr: u64, t: u32, base: Reg, offset: i64) -> InstructionOrTerminator {
    insn_item(
        addr,
        InstructionKind::Assign {
            dst: temp_var(t),
            src: Rhs::BinOp { op: BinOp::Add, lhs: Value::Var(reg_var(base)), rhs: Value::Imm(offset) },
        },
    )
}

/// What lifting `m` gives, with the temporaries numbered from `t`.
pub open spec fn lift_one(m: MachineInst, t: u32) -> Seq<InstructionOrTerminator> {
    let op = m.opcode;
    let a = m.addr;
    if op == ARM64_INS_ADD || op == ARM64_INS_SUB {
        let bop = if op == ARM64_INS_ADD {
            BinOp::Add
        } else {
            BinOp::Sub
        };
        seq![
            insn_item(
                a,
                InstructionKind::Assign {
                    dst: reg_var(reg_operand(m, 0).unwrap()),
                    src: Rhs::BinOp {
                        op: bop,
                        lhs: Value::Var(reg_var(reg_operand(m, 1).unwrap())),
                        rhs: Value::Imm(imm_operand(m, 2).unwrap()),
                    },
                },
            ),
        ]
    } else if op == ARM64_INS_ADRP {
        seq![
            insn_item(
                a,
                InstructionKind::Assign {
                    dst: reg_var(reg_operand(m, 0).unwrap()),
                    src: Rhs::Copy { src: Value::Imm(imm_operand(m, 1).unwrap()) },
                },
            ),
        ]
    } else if op == ARM64_INS_BL {
        seq![insn_item(a, InstructionKind::Call { target: Value::Imm(imm_operand(m, 0).unwrap()) })]
    } else if op == ARM64_INS_LDP || op == ARM64_INS_STP {
        let first = reg_operand(m, 0).unwrap();
        let second = reg_operand(m, 1).unwrap();
        let (base, disp) = mem_operand(m, 2).unwrap();
        let t2 = (t + 1) as u32;
        let addr1 = addr_item(a, t, base, disp as i64);
        let addr2 = addr_item(a, t2, base, (disp + first.byte_width_spec()) as i64);
        if op == ARM64_INS_LDP {
            seq![
                addr1,
                insn_item(a, InstructionKind::Assign { dst: reg_var(first), src: Rhs::Load { src: Value::Var(temp_var(t)) } }),
                addr2,
                insn_item(a, InstructionKind::Assign { dst: reg_var(second), src: Rhs::Load { src: Value::Var(temp_var(t2)) } }),
            ]
        } else {
            seq![
                addr1,
                insn_item(a, InstructionKind::Store { dst: Value::Var(temp_var(t)), src: Value::Var(reg_var(first)) }),
                addr2,
                insn_item(a, InstructionKind::Store { dst: Value::Var(temp_var(t2)), src: Value::Var(reg_var(second)) }),
            ]
        }
    } else if op == ARM64_INS_LDR || op == ARM64_INS_STR || op == ARM64_INS_STUR {
        let r = reg_operand(m, 0).unwrap();
        let (base, disp) = mem_operand(m, 1).unwrap();
        let addr1 = addr_item(a, t, base, disp as i64);
        if op == ARM64_INS_LDR {
            seq![addr1, insn_item(a, InstructionKind::Assign { dst: reg_var(r), src: Rhs::Load { src: Value::Var(temp_var(t)) } })]
        } else {
            seq![addr1, insn_item(a, InstructionKind::Store { dst: Value::Var(temp_var(t)), src: Value::Var(reg_var(r)) })]
        }
    } else if op == ARM64_INS_MOV {
        seq![
            insn_item(
                a,
                InstructionKind::Assign { dst: reg_var(reg_operand(m, 0).unwrap()), src: Rhs::Copy { src: mov_source(m).unwrap() } },
            ),
        ]
    } else if op == ARM64_INS_SDIV {
        seq![
            insn_item(
                a,
                InstructionKind::Assign {
                    dst: reg_var(reg_operand(m, 0).unwrap()),
                    src: Rhs::BinOp {
                        op: BinOp::SDiv,
                        lhs: Value::Var(reg_var(reg_operand(m, 1).unwrap())),
                        rhs: Value::Var(reg_var(reg_operand(m, 2).unwrap())),
                    },
                },
            ),
        ]
    } else if op == ARM64_INS_B {
        seq![term_item(a, branch_kind(m.cc, imm_operand(m, 0).unwrap()))]
    } else if op == ARM64_INS_CBNZ {
        seq![
            term_item(
                a,
                TerminatorKind::ConditionalBranch {
                    cond: BranchCondition::NonZero(Value::Var(reg_var(reg_operand(m, 0).unwrap()))),
                    target: BranchTarget::Imm(imm_operand(m, 1).unwrap() as u64),
                },
            ),
        ]
    } else {
        seq![InstructionOrTerminator::Terminator(Terminator { addr: a, kind: TerminatorKind::Ret })]
    }
}

/// How many temporaries lifting all of `ms` takes.
pub open spec fn temps_total(ms: Seq<MachineInst>) -> nat
    decreases ms.len(),
{
    if ms.len() == 0 {
        0
    } else {
        temps_total(ms.drop_last()) + temps_used(ms.last())
    }
}

/// What lifting `ms` in order gives, temporaries numbered from zero across the whole list.
pub open spec fn lift_all(ms: Seq<MachineInst>) -> Seq<InstructionOrTerminator>
    decreases ms.len(),
{
    if ms.len() == 0 {
        Seq::empty()
    } else {
        lift_all(ms.drop_last()) + lift_one(ms.last(), temps_total(ms.drop_last()) as u32)
    }
}

proof fn lemma_temps_total_bound(ms: Seq<MachineInst>)
    ensures
        temps_total(ms) <= 2 * ms.len(),
    decreases ms.len(),
{
    if ms.len() > 0 {
        lemma_temps_total_bound(ms.drop_last());
    }
}

/// Lifts machine instructions into a linear program, in order; memory addresses go through
/// temporaries numbered from zero.
pub fn lift_linear_function(minsns: &[MachineInst]) -> (res: LinearProgram)
    requires
        forall|i: int| 0 <= i < minsns@.len() ==> liftable(#[trigger] minsns@[i]),
        minsns@.len() < 0x7fff_0000,
    ensures
        res.items_spec() == lift_all(minsns@),
{
    let mut ctx = LifterCtx::new();
    let mut items: Vec<InstructionOrTerminator> = Vec::new();
    let mut i: usize = 0;
    while i < minsns.len()
        invariant
            0 <= i <= minsns@.len(),
            minsns@.len() < 0x7fff_0000,
            forall|j: int| 0 <= j < minsns@.len() ==> liftable(#[trigger] minsns@[j]),
            ctx.next_temp == temps_total(minsns@.take(i as int)),
            items@ == lift_all(minsns@.take(i as int)),
        decreases minsns@.len() - i,
    {
        proof {
            assert(minsns@.take(i + 1).drop_last() =~= minsns@.take(i as int));
            lemma_temps_total_bound(minsns@.take(i + 1));
        }
        let mut lifted = lift_inst(&mut ctx, &minsns[i]);
        items.append(&mut lifted);
        i = i + 1;
    }
    proof {
        assert(minsns@.take(minsns@.len() as int) =~= minsns@);
    }
    LinearProgram::new(items)
}

/// The numbering of temporaries while lifting.
struct LifterCtx {
    next_temp: u32,
}

impl LifterCtx {
    fn new() -> (res: Self)
        ensures
            res.next_temp == 0,
    {
        LifterCtx { next_temp: 0 }
    }

    /// A fresh temporary.
    fn new_temp(&mut self) -> (res: Var)
        requires
            old(self).next_temp < u32::MAX,
        ensures
            res == temp_var(old(self).next_temp),
            final(self).next_temp == old(self).next_temp + 1,
    {
        let temp = Var::from_place(Place::Temp(self.next_temp));
        self.next_temp = self.next_temp + 1;
        temp
    }
}

fn lift_inst(ctx: &mut LifterCtx, minsn: &MachineInst) -> (res: Vec<InstructionOrTerminator>)
    requires
        liftable(*minsn),
        old(ctx).next_temp + temps_used(*minsn) <= u32::MAX,
    ensures
        res@ == lift_one(*minsn, old(ctx).next_temp),
        final(ctx).next_temp == old(ctx).next_temp + temps_used(*minsn),
{
    let op = minsn.opcode;
    if op == ARM64_INS_ADD {
        lift_binop(minsn, BinOp::Add)
    } else if op == ARM64_INS_SUB {
        lift_binop(minsn, BinOp::Sub)
    } else if op == ARM64_INS_ADRP {
        lift_adrp(minsn)
    } else if op == ARM64_INS_BL {
        lift_bl(minsn)
    } else if op == ARM64_INS_LDP {
        lift_ldp(ctx, minsn)
    } else if op == ARM64_INS_STP {
        lift_stp(ctx, minsn)
    } else if op == ARM64_INS_LDR {
        lift_ldr(ctx, minsn)
    } else if op == ARM64_INS_STR || op == ARM64_INS_STUR {
        lift_str(ctx, minsn)
    } else if op == ARM64_INS_MOV {
        lift_mov(minsn)
    } else if op == ARM64_INS_SDIV {
        lift_sdiv(minsn)
    } else if op == ARM64_INS_B {
        lift_b(minsn)
    } else if op == ARM64_INS_CBNZ {
        lift_cbnz(minsn)
    } else {
        lift_ret(minsn)
    }
}

fn lift_sdiv(minsn: &MachineInst) -> (res: Vec<InstructionOrTerminator>)
    requires
        minsn.opcode == ARM64_INS_SDIV,
        liftable(*minsn),
    ensures
        res@ == lift_one(*minsn, 0),
{
    let dst = Var::from_place(Place::Reg(opr_reg(minsn, 0)));
    let lhs = Var::from_place(Place::Reg(opr_reg(minsn, 1)));
    let rhs = Var::from_place(Place::Reg(opr_reg(minsn, 2)));
    let v = vec![insn(minsn.addr, InstructionKind::Assign { dst, src: Rhs::BinOp { op: BinOp::SDiv, lhs: Value::Var(lhs), rhs: Value::Var(rhs) } })];
    proof {
        assert(v@ =~= seq![v@[0]]);
    }
    v
}

fn lift_b(minsn: &MachineInst) -> (res: Vec<InstructionOrTerminator>)
    requires
        minsn.opcode == ARM64_INS_B,
        liftable(*minsn),
    ensures
        res@ == lift_one(*minsn, 0),
{
    let target = BranchTarget::Imm(opr_imm(minsn, 0) as u64);
    let kind = if minsn.cc == ARM64_CC_GT {
        TerminatorKind::ConditionalBranch { cond: BranchCondition::Gt, target }
    } else if minsn.cc == ARM64_CC_GE {
        TerminatorKind::ConditionalBranch { cond: BranchCondition::Ge, target }
    } else {
        TerminatorKind::Branch { target }
    };
    let v = vec![term(minsn.addr, kind)];
    proof {
        assert(v@ =~= seq![v@[0]]);
    }
    v
}

fn lift_cbnz(minsn: &MachineInst) -> (res: Vec<InstructionOrTerminator>)
    requires
        minsn.opcode == ARM64_INS_CBNZ,
        liftable(*minsn),
    ensures
        res@ == lift_one(*minsn, 0),
{
    let tested = Var::from_place(Place::Reg(opr_reg(minsn, 0)));
    let target = BranchTarget::Imm(opr_imm(minsn, 1) as u64);
    let v = vec![term(minsn.addr, TerminatorKind::ConditionalBranch { cond: BranchCondition::NonZero(Value::Var(tested)), target })];
    proof {
        assert(v@ =~= seq![v@[0]]);
    }
    v
}

fn lift_binop(minsn: &MachineInst, op: BinOp) -> (res: Vec<InstructionOrTerminator>)
    requires
        reg_operand(*minsn, 0) is Some,
        reg_operand(*minsn, 1) is Some,
        imm_operand(*minsn, 2) is Some,
    ensures
        res@ == seq![
            insn_item(
                minsn.addr,
                InstructionKind::Assign {
                    dst: reg_var(reg_operand(*minsn, 0).unwrap()),
                    src: Rhs::BinOp {
                        op: op,
                        lhs: Value::Var(reg_var(reg_operand(*minsn, 1).unwrap())),
                        rhs: Value::Imm(imm_operand(*minsn, 2).unwrap()),
                    },
                },
            ),
        ],
{
    let dst = Var::from_place(Place::Reg(opr_reg(minsn, 0)));
    let lhs = Var::from_place(Place::Reg(opr_reg(minsn, 1)));
    let rhs = opr_imm(minsn, 2);
    let v = vec![insn(minsn.addr, InstructionKind::Assign { dst, src: Rhs::BinOp { op, lhs: Value::Var(lhs), rhs: Value::Imm(rhs) } })];
    proof {
        assert(v@ =~= seq![v@[0]]);
    }
    v
}

fn lift_adrp(minsn: &MachineInst) -> (res: Vec<InstructionOrTerminator>)
    requires
        minsn.opcode == ARM64_INS_ADRP,
        liftable(*minsn),
    ensures
        res@ == lift_one(*minsn, 0),
{
    let dst = Var::from_place(Place::Reg(opr_reg(minsn, 0)));
    let src = opr_imm(minsn, 1);
    let v = vec![insn(minsn.addr, InstructionKind::Assign { dst, src: Rhs::Copy { src: Value::Imm(src) } })];
    proof {
        assert(v@ =~= seq![v@[0]]);
    }
    v
}

fn lift_bl(minsn: &MachineInst) -> (res: Vec<InstructionOrTerminator>)
    requires
        minsn.opcode == ARM64_INS_BL,
        liftable(*minsn),
    ensures
        res@ == lift_one(*minsn, 0),
{
    let target = opr_imm(minsn, 0);
    let v = vec![insn(minsn.addr, InstructionKind::Call { target: Value::Imm(target) })];
    proof {
        assert(v@ =~= seq![v@[0]]);
    }
    v
}

fn lift_ldp(ctx: &mut LifterCtx, minsn: &MachineInst) -> (res: Vec<InstructionOrTerminator>)
    requires
        minsn.opcode == ARM64_INS_LDP,
        liftable(*minsn),
        old(ctx).next_temp + 2 <= u32::MAX,
    ensures
        res@ == lift_one(*minsn, old(ctx).next_temp),
        final(ctx).next_temp == old(ctx).next_temp + 2,
{
    let first = opr_reg(minsn, 0);
    let second = opr_reg(minsn, 1);
    let (first_addr_insn, first_addr) = opr_mem(ctx, minsn, 2, 0);
    let (second_addr_insn, second_addr) = opr_mem(ctx, minsn, 2, first.byte_width());
    let mut insns: Vec<InstructionOrTerminator> = Vec::new();
    insns.push(first_addr_insn);
    insns.push(insn(minsn.addr, InstructionKind::Assign { dst: Var::from_place(Place::Reg(first)), src: Rhs::Load { src: first_addr } }));
    insns.push(second_addr_insn);
    insns.push(insn(minsn.addr, InstructionKind::Assign { dst: Var::from_place(Place::Reg(second)), src: Rhs::Load { src: second_addr } }));
    proof {
        assert(insns@ =~= lift_one(*minsn, old(ctx).next_temp));
    }
    insns
}

fn lift_stp(ctx: &mut LifterCtx, minsn: &MachineInst) -> (res: Vec<InstructionOrTerminator>)
    requires
        minsn.opcode == ARM64_INS_STP,
        liftable(*minsn),
        old(ctx).next_temp + 2 <= u32::MAX,
    ensures
        res@ == lift_one(*minsn, old(ctx).next_temp),
        final(ctx).next_temp == old(ctx).next_temp + 2,
{
    let first = opr_reg(minsn, 0);
    let second = opr_reg(minsn, 1);
    let (first_addr_insn, first_addr) = opr_mem(ctx, minsn, 2, 0);
    let (second_addr_insn, second_addr) = opr_mem(ctx, minsn, 2, first.byte_width());
    let mut insns: Vec<InstructionOrTerminator> = Vec::new();
    insns.push(first_addr_insn);
    insns.push(insn(minsn.addr, InstructionKind::Store { dst: first_addr, src: Value::Var(Var::from_place(Place::Reg(first))) }));
    insns.push(second_addr_insn);
    insns.push(insn(minsn.addr, InstructionKind::Store { dst: second_addr, src: Value::Var(Var::from_place(Place::Reg(second))) }));
    proof {
        assert(insns@ =~= lift_one(*minsn, old(ctx).next_temp));
    }
    insns
}

fn lift_ldr(ctx: &mut LifterCtx, minsn: &MachineInst) -> (res: Vec<InstructionOrTerminator>)
    requires
        minsn.opcode == ARM64_INS_LDR,
        liftable(*minsn),
        old(ctx).next_temp + 1 <= u32::MAX,
    ensures
        res@ == lift_one(*minsn, old(ctx).next_temp),
        final(ctx).next_temp == old(ctx).next_temp + 1,
{
    let r = opr_reg(minsn, 0);
    let (addr_insn, addr) = opr_mem(ctx, minsn, 1, 0);
    let mut insns: Vec<InstructionOrTerminator> = Vec::new();
    insns.push(addr_insn);
    insns.push(insn(minsn.addr, InstructionKind::Assign { dst: Var::from_place(Place::Reg(r)), src: Rhs::Load { src: addr } }));
    proof {
        assert(insns@ =~= lift_one(*minsn, old(ctx).next_temp));
    }
    insns
}

fn lift_str(ctx: &mut LifterCtx, minsn: &MachineInst) -> (res: Vec<InstructionOrTerminator>)
    requires
        minsn.opcode == ARM64_INS_STR || minsn.opcode == ARM64_INS_STUR,
        liftable(*minsn),
        old(ctx).next_temp + 1 <= u32::MAX,
    ensures
        res@ == lift_one(*minsn, old(ctx).next_temp),
        final(ctx).next_temp == old(ctx).next_temp + 1,
{
    let r = opr_reg(minsn, 0);
    let (addr_insn, addr) = opr_mem(ctx, minsn, 1, 0);
    let mut insns: Vec<InstructionOrTerminator> = Vec::new();
    insns.push(addr_insn);
    insns.push(insn(minsn.addr, InstructionKind::Store { dst: addr, src: Value::Var(Var::from_place(Place::Reg(r))) }));
    proof {
        assert(insns@ =~= lift_one(*minsn, old(ctx).next_temp));
    }
    insns
}

fn lift_mov(minsn: &MachineInst) -> (res: Vec<InstructionOrTerminator>)
    requires
        minsn.opcode == ARM64_INS_MOV,
        liftable(*minsn),
    ensures
        res@ == lift_one(*minsn, 0),
{
    let src = match operand(minsn, 1) {
        MachineOperand::Reg(r) => Value::Var(Var::from_place(Place::Reg(reg_from_id(*r)))),
        MachineOperand::Imm(i) => Value::Imm(*i),
        _ => {
            proof {
                assert(false);
            }
            Value::Imm(0)
        },
    };
    let dst = Var::from_place(Place::Reg(opr_reg(minsn, 0)));
    let v = vec![insn(minsn.addr, InstructionKind::Assign { dst, src: Rhs::Copy { src } })];
    proof {
        assert(v@ =~= seq![v@[0]]);
    }
    v
}

fn lift_ret(minsn: &MachineInst) -> (res: Vec<InstructionOrTerminator>)
    requires
        minsn.opcode == ARM64_INS_RET,
    ensures
        res@ == lift_one(*minsn, 0),
{
    let v = vec![term(minsn.addr, TerminatorKind::Ret)];
    proof {
        assert(v@ =~= seq![v@[0]]);
    }
    v
}

/// The instruction that computes the address of memory operand `idx` plus `extra_offset` into
/// a fresh temporary, and that temporary.
fn opr_mem(ctx: &mut LifterCtx, minsn: &MachineInst, idx: usize, extra_offset: i64) -> (res: (InstructionOrTerminator, Value))
    requires
        mem_operand(*minsn, idx as int) is Some,
        old(ctx).next_temp < u32::MAX,
        -8 <= extra_offset <= 8,
    ensures
        res.0 == addr_item(
            minsn.addr,
            old(ctx).next_temp,
            mem_operand(*minsn, idx as int).unwrap().0,
            (mem_operand(*minsn, idx as int).unwrap().1 + extra_offset) as i64,
        ),
        res.1 == Value::Var(temp_var(old(ctx).next_temp)),
        final(ctx).next_temp == old(ctx).next_temp + 1,
{
    let (base, disp) = match operand(minsn, idx) {
        MachineOperand::Mem(base, _, disp) => (*base, *disp),
        _ => {
            proof {
                assert(false);
            }
            (0, 0)
        },
    };
    let temp = ctx.new_temp();
    let base_var = Var::from_place(Place::Reg(reg_from_id(base)));
    let offset = disp as i64 + extra_offset;
    let addr_insn = insn(
        minsn.addr,
        InstructionKind::Assign { dst: temp, src: Rhs::BinOp { op: BinOp::Add, lhs: Value::Var(base_var), rhs: Value::Imm(offset) } },
    );
    (addr_insn, Value::Var(temp))
}

fn insn(addr: u64, kind: InstructionKind) -> (res: InstructionOrTerminator)
    ensures
        res == insn_item(addr, kind),
{
    InstructionOrTerminator::Instruction(Instruction { addr, kind })
}

fn term(addr: u64, kind: TerminatorKind) -> (res: InstructionOrTerminator)
    ensures
        res == InstructionOrTerminator::Terminator(Terminator { addr, kind }),
{
    InstructionOrTerminator::Terminator(Terminator { addr, kind })
}

fn operand(minsn: &MachineInst, idx: usize) -> (res: &MachineOperand)
    requires
        idx < minsn.operands@.len(),
    ensures
        operand_at(*minsn, idx as int) == Some(*res),
{
    &minsn.operands[idx]
}

fn opr_imm(minsn: &MachineInst, idx: usize) -> (res: i64)
    requires
        imm_operand(*minsn, idx as int) is Some,
    ensures
        imm_operand(*minsn, idx as int) == Some(res),
{
    match operand(minsn, idx) {
        MachineOperand::Imm(i) => *i,
        _ => {
            proof {
                assert(false);
            }
            0
        },
    }
}

fn opr_reg(minsn: &MachineInst, idx: usize) -> (res: Reg)
    requires
        reg_operand(*minsn, idx as int) is Some,
    ensures
        reg_operand(*minsn, idx as int) == Some(res),
{
    match operand(minsn, idx) {
        MachineOperand::Reg(r) => reg_from_id(*r),
        _ => {
            proof {
                assert(false);
            }
            Reg::SP
        },
    }
}

/// The register that capstone's register number `r` names; `r` must be one this decompiler
/// knows.
pub fn reg_from_id(r: u16) -> (res: Reg)
    requires
        reg_of(r) is Some,
    ensures
        reg_of(r) == Some(res),
{
    if r == ARM64_REG_SP || r == ARM64_REG_WSP {
        Reg::SP
    } else if r == ARM64_REG_WZR {
        Reg::WZR
    } else if r == ARM64_REG_XZR {
        Reg::XZR
    } else if r == ARM64_REG_FP {
        Reg::X(29)
    } else if r == ARM64_REG_LR {
        Reg::X(30)
    } else if ARM64_REG_W0 <= r && r <= ARM64_REG_W30 {
        Reg::W((r - ARM64_REG_W0) as u8)
    } else {
        Reg::X((r - ARM64_REG_X0) as u8)
    }
}

/// Whether `m` can be lifted.
pub fn is_liftable(m: &MachineInst) -> (res: bool)
    ensures
        res == liftable(*m),
{
    let op = m.opcode;
    if op == ARM64_INS_ADD || op == ARM64_INS_SUB {
        has_reg(m, 0) && has_reg(m, 1) && has_imm(m, 2)
    } else if op == ARM64_INS_ADRP {
        has_reg(m, 0) && has_imm(m, 1)
    } else if op == ARM64_INS_BL {
        has_imm(m, 0)
    } else if op == ARM64_INS_LDP || op == ARM64_INS_STP {
        !m.writeback && has_reg(m, 0) && has_reg(m, 1) && has_mem(m, 2)
    } else if op == ARM64_INS_LDR || op == ARM64_INS_STR || op == ARM64_INS_STUR {
        !m.writeback && has_reg(m, 0) && has_mem(m, 1)
    } else if op == ARM64_INS_MOV {
        has_reg(m, 0) && m.operands.len() > 1 && match &m.operands[1] {
            MachineOperand::Reg(r) => reg_known(*r),
            MachineOperand::Imm(_) => true,
            _ => false,
        }
    } else if op == ARM64_INS_SDIV {
        has_reg(m, 0) && has_reg(m, 1) && has_reg(m, 2)
    } else if op == ARM64_INS_B {
        has_imm(m, 0) && (m.cc == ARM64_CC_INVALID || m.cc == ARM64_CC_GT || m.cc == ARM64_CC_GE)
    } else if op == ARM64_INS_CBNZ {
        has_reg(m, 0) && has_imm(m, 1)
    } else {
        op == ARM64_INS_RET
    }
}

fn reg_known(r: u16) -> (res: bool)
    ensures
        res == reg_of(r) is Some,
{
    r == ARM64_REG_SP || r == ARM64_REG_WSP || r == ARM64_REG_WZR || r == ARM64_REG_XZR || r == ARM64_REG_FP
        || r == ARM64_REG_LR || (ARM64_REG_W0 <= r && r <= ARM64_REG_W30) || (ARM64_REG_X0 <= r && r <= ARM64_REG_X28)
}

fn has_reg(m: &MachineInst, idx: usize) -> (res: bool)
    ensures
        res == reg_operand(*m, idx as int) is Some,
{
    idx < m.operands.len() && match &m.operands[idx] {
        MachineOperand::Reg(r) => reg_known(*r),
        _ => false,
    }
}

fn has_imm(m: &MachineInst, idx: usize) -> (res: bool)
    ensures
        res == imm_operand(*m, idx as int) is Some,
{
    idx < m.operands.len() && match &m.operands[idx] {
        MachineOperand::Imm(_) => true,
        _ => false,
    }
}

fn has_mem(m: &MachineInst, idx: usize) -> (res: bool)
    ensures
        res == mem_operand(*m, idx as int) is Some,
{
    idx < m.operands.len() && match &m.operands[idx] {
        MachineOperand::Mem(base, index, _) => *index == ARM64_REG_INVALID && reg_known(*base),
        _ => false,
    }
}

/// Whether every instruction of `minsns` can be lifted.
pub fn all_liftable(minsns: &[MachineInst]) -> (res: bool)
    ensures
        res == forall|i: int| 0 <= i < minsns@.len() ==> liftable(#[trigger] minsns@[i]),
{
    let mut i: usize = 0;
    while i < minsns.len()
        invariant
            0 <= i <= minsns@.len(),
            forall|j: int| 0 <= j < i ==> liftable(#[trigger] minsns@[j]),
        decreases minsns@.len() - i,
    {
        if !is_liftable(&minsns[i]) {
            return false;
        }
        i = i + 1;
    }
    true
}

} // verus!
