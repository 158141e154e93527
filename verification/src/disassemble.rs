use vstd::prelude::*;

use std::collections::HashMap;

use capstone::arch::arm64::Arm64OperandType::{Imm, Mem, Reg};
use capstone::arch::arm64::ArchMode;
use capstone::arch::{ArchDetail, BuildsCapstone, DetailsArchInsn};
use capstone::Capstone;

verus! {

broadcast use vstd::std_specs::hash::group_hash_axioms;

// Capstone's numbers for the ARM64 instructions, condition codes and registers that this
// decompiler tells apart (`capstone::arch::arm64::{Arm64Insn, Arm64CC, Arm64Reg}`).
pub const ARM64_INS_ADD: u32 = 4;
pub const ARM64_INS_ADRP: u32 = 13;
pub const ARM64_INS_B: u32 = 39;
pub const ARM64_INS_BL: u32 = 46;
pub const ARM64_INS_CBNZ: u32 = 85;
pub const ARM64_INS_LDP: u32 = 391;
pub const ARM64_INS_LDR: u32 = 393;
pub const ARM64_INS_MOV: u32 = 488;
pub const ARM64_INS_RET: u32 = 558;
pub const ARM64_INS_SDIV: u32 = 593;
pub const ARM64_INS_STP: u32 = 761;
pub const ARM64_INS_STR: u32 = 762;
pub const ARM64_INS_STUR: u32 = 798;
pub const ARM64_INS_SUB: u32 = 805;

pub const ARM64_CC_INVALID: u32 = 0;
pub const ARM64_CC_NE: u32 = 2;
pub const ARM64_CC_GE: u32 = 11;
pub const ARM64_CC_GT: u32 = 13;
pub const ARM64_CC_LE: u32 = 14;

pub const ARM64_REG_INVALID: u16 = 0;
pub const ARM64_REG_FP: u16 = 2;
pub const ARM64_REG_LR: u16 = 3;
pub const ARM64_REG_SP: u16 = 5;
pub const ARM64_REG_WSP: u16 = 6;
pub const ARM64_REG_WZR: u16 = 7;
pub const ARM64_REG_XZR: u16 = 8;
pub const ARM64_REG_W0: u16 = 185;
pub const ARM64_REG_W30: u16 = 215;
pub const ARM64_REG_X0: u16 = 216;
pub const ARM64_REG_X28: u16 = 244;

/// An operand of a machine instruction, as capstone's ARM64 detail describes it.
#[derive(Debug, Clone, Copy, PartialEq, Eq, Structural)]
pub enum MachineOperand {
    Reg(u16),
    Imm(i64),
    /// Base register, index register and displacement.
    Mem(u16, u16, i32),
    Other,
}

/// One instruction as capstone decodes it, held as plain values.
#[derive(Debug)]
pub struct RawInsn {
    pub addr: u64,
    pub len: usize,
    pub mnemonic: Option<String>,
    pub op_str: Option<String>,
    /// Capstone's instruction number (`Arm64Insn`).
    pub id: u32,
    /// Whether capstone's detail for the instruction is ARM64's.
    pub arm64: bool,
    /// Capstone's condition code number (`Arm64CC`).
    pub cc: u32,
    pub operands: Vec<MachineOperand>,
    pub writeback: bool,
}

/// An instruction as capstone decodes it, without its detail.
#[derive(Debug)]
pub struct RawHead {
    pub addr: u64,
    pub len: usize,
    pub mnemonic: Option<String>,
    pub op_str: Option<String>,
    pub id: u32,
}

/// Capstone's ARM64 detail of an instruction, but for its operands.
#[derive(Debug, Clone, Copy, PartialEq, Eq, Structural)]
pub struct RawDetail {
    pub cc: u32,
    pub writeback: bool,
}

/// What capstone, set up for ARM64 with details on, decodes from `code` placed at `addr`;
/// `None` where capstone fails to set up or to decode.
pub uninterp spec fn arm64_heads(code: Seq<u8>, addr: u64) -> Option<Seq<RawHead>>;

/// The ARM64 detail that capstone gives for each instruction it decodes from `code` placed at
/// `addr` (`None` for a detail of another architecture); `None` where capstone fails to set up,
/// to decode, or to give a detail.
pub uninterp spec fn arm64_details(code: Seq<u8>, addr: u64) -> Option<Seq<Option<RawDetail>>>;

/// The operands that capstone's ARM64 detail gives for each instruction it decodes from `code`
/// placed at `addr` (none for a detail of another architecture); `None` where capstone fails
/// as for `arm64_details`.
pub uninterp spec fn arm64_operands(code: Seq<u8>, addr: u64) -> Option<Seq<Seq<MachineOperand>>>;

pub open spec fn operands_view(r: Option<Vec<Vec<MachineOperand>>>) -> Option<Seq<Seq<MachineOperand>>> {
    match r {
        Some(v) => Some(v@.map_values(|o: Vec<MachineOperand>| o@)),
        None => None,
    }
}

pub open spec fn heads_view(r: Option<Vec<RawHead>>) -> Option<Seq<RawHead>> {
    match r {
        Some(v) => Some(v@),
        None => None,
    }
}

pub open spec fn details_view(r: Option<Vec<Option<RawDetail>>>) -> Option<Seq<Option<RawDetail>>> {
    match r {
        Some(v) => Some(v@),
        None => None,
    }
}

/// `raw` joins the head `h`, the detail `d` and the operands `o` of one instruction.
pub open spec fn joins(h: RawHead, d: Option<RawDetail>, o: Seq<MachineOperand>, raw: RawInsn) -> bool {
    &&& raw.addr == h.addr
    &&& raw.len == h.len
    &&& raw.mnemonic == h.mnemonic
    &&& raw.op_str == h.op_str
    &&& raw.id == h.id
    &&& raw.arm64 == d.is_some()
    &&& raw.operands@ == o
    &&& match d {
        Some(d) => raw.cc == d.cc && raw.writeback == d.writeback,
        None => raw.cc == 0 && !raw.writeback,
    }
}

/// Capstone's decoding of `code` at `addr` failed, or its readings disagree in length.
pub open spec fn decode_failed(code: Seq<u8>, addr: u64) -> bool {
    match (arm64_heads(code, addr), arm64_details(code, addr), arm64_operands(code, addr)) {
        (Some(h), Some(d), Some(o)) => h.len() != d.len() || h.len() != o.len(),
        _ => true,
    }
}

/// `raws` is what capstone decodes from `code` at `addr`, each instruction with its detail.
pub open spec fn decoded(code: Seq<u8>, addr: u64, raws: Seq<RawInsn>) -> bool {
    match (arm64_heads(code, addr), arm64_details(code, addr), arm64_operands(code, addr)) {
        (Some(h), Some(d), Some(o)) => raws.len() == h.len() && raws.len() == d.len() && raws.len() == o.len() && forall|i: int|
            0 <= i < raws.len() ==> joins(h[i], d[i], o[i], #[trigger] raws[i]),
        _ => false,
    }
}

/// `Capstone::new` for ARM64 with details on, then `Capstone::disasm_all` on `code` at `addr`,
/// each instruction read back as plain values.
#[verifier::external_body]
fn capstone_arm64_heads(code: &[u8], addr: u64) -> (res: Option<Vec<RawHead>>)
    ensures
        heads_view(res) == arm64_heads(code@, addr),
{
    let cs = Capstone::new().arm64().mode(ArchMode::Arm).detail(true).build().ok()?;
    let insns = cs.disasm_all(code, addr).ok()?;
    Some(insns.iter().map(|i| RawHead {
        addr: i.address(),
        len: i.len(),
        mnemonic: i.mnemonic().map(String::from),
        op_str: i.op_str().map(String::from),
        id: i.id().0,
    }).collect())
}

/// Decodes `code` as `capstone_arm64_heads` does and reads each instruction's
/// `Capstone::insn_detail`: its ARM64 condition code and writeback.
#[verifier::external_body]
fn capstone_arm64_details(code: &[u8], addr: u64) -> (res: Option<Vec<Option<RawDetail>>>)
    ensures
        details_view(res) == arm64_details(code@, addr),
{
    let cs = Capstone::new().arm64().mode(ArchMode::Arm).detail(true).build().ok()?;
    let insns = cs.disasm_all(code, addr).ok()?;
    insns.iter().map(|i| {
        let detail = cs.insn_detail(i).ok()?;
        Some(detail.arch_detail().arm64().map(|d| RawDetail { cc: d.cc() as u32, writeback: d.writeback() }))
    }).collect()
}

/// Decodes `code` as `capstone_arm64_heads` does and reads the operands of each instruction's
/// ARM64 detail as plain values; none for another architecture's detail.
#[verifier::external_body]
fn capstone_arm64_operands(code: &[u8], addr: u64) -> (res: Option<Vec<Vec<MachineOperand>>>)
    ensures
        operands_view(res) == arm64_operands(code@, addr),
{
    let cs = Capstone::new().arm64().mode(ArchMode::Arm).detail(true).build().ok()?;
    let insns = cs.disasm_all(code, addr).ok()?;
    insns.iter().map(|i| {
        Some(cs.insn_detail(i).ok()?.arch_detail().arm64().map(|d| d.operands().map(|o| match o.op_type {
            Reg(r) => MachineOperand::Reg(r.0),
            Imm(v) => MachineOperand::Imm(v),
            Mem(m) => MachineOperand::Mem(m.base().0, m.index().0, m.disp()),
            _ => MachineOperand::Other,
        }).collect()).unwrap_or_default())
    }).collect()
}

/// Capstone's decoding of `code` at `addr`, each instruction joined with its detail.
fn capstone_arm64_disasm(code: &[u8], addr: u64) -> (res: Option<Vec<RawInsn>>)
    ensures
        res is None <==> decode_failed(code@, addr),
        res matches Some(v) ==> decoded(code@, addr, v@),
{
    let mut heads = match capstone_arm64_heads(code, addr) {
        Some(h) => h,
        None => {
            return None;
        },
    };
    let mut details = match capstone_arm64_details(code, addr) {
        Some(d) => d,
        None => {
            return None;
        },
    };
    let mut ops = match capstone_arm64_operands(code, addr) {
        Some(o) => o,
        None => {
            return None;
        },
    };
    if heads.len() != details.len() || heads.len() != ops.len() {
        return None;
    }
    let ghost h0 = heads@;
    let ghost d0 = details@;
    let ghost o0 = ops@.map_values(|o: Vec<MachineOperand>| o@);
    let n = heads.len();
    let mut out: Vec<RawInsn> = Vec::new();
    let mut i: usize = 0;
    proof {
        assert forall|k: int| 0 <= k < ops@.len() implies (#[trigger] ops@[k])@ == o0[0 + k] by {}
    }
    while i < n
        invariant
            0 <= i <= n,
            n == h0.len(),
            n == d0.len(),
            n == o0.len(),
            arm64_heads(code@, addr) == Some(h0),
            arm64_details(code@, addr) == Some(d0),
            arm64_operands(code@, addr) == Some(o0),
            heads@ == h0.skip(i as int),
            details@ == d0.skip(i as int),
            ops@.len() == n - i,
            forall|k: int| 0 <= k < ops@.len() ==> (#[trigger] ops@[k])@ == o0[i + k],
            out@.len() == i,
            forall|k: int| 0 <= k < i ==> joins(h0[k], d0[k], o0[k], #[trigger] out@[k]),
        decreases n - i,
    {
        let ghost ops_before = ops@;
        let head = heads.remove(0);
        let detail = details.remove(0);
        let operands = ops.remove(0);
        proof {
            assert(head == h0[i as int]);
            assert(detail == d0[i as int]);
            assert(heads@ =~= h0.skip(i + 1));
            assert(details@ =~= d0.skip(i + 1));
            assert(operands@ == o0[i as int]) by {
                assert(ops_before[0]@ == o0[i as int]);
            }
            assert forall|k: int| 0 <= k < ops@.len() implies (#[trigger] ops@[k])@ == o0[i + 1 + k] by {
                assert(ops@[k] == ops_before[k + 1]);
            }
        }
        let (arm64, cc, writeback) = match detail {
            Some(d) => (true, d.cc, d.writeback),
            None => (false, 0, false),
        };
        out.push(RawInsn {
            addr: head.addr,
            len: head.len,
            mnemonic: head.mnemonic,
            op_str: head.op_str,
            id: head.id,
            arm64,
            cc,
            operands,
            writeback,
        });
        i = i + 1;
    }
    Some(out)
}

/// Why a piece of code could not be disassembled.
#[derive(Debug, Clone, Copy, PartialEq, Eq, Structural)]
pub enum DisasmError {
    /// Capstone failed to set up, to decode or to describe an instruction.
    Capstone,
    /// Capstone described an instruction in another architecture's terms.
    UnsupportedArchitecture,
    /// A `CBNZ` or `B` instruction without an immediate target.
    MissingBranchTarget { addr: u64 },
    /// A `B` instruction with a condition code this decompiler does not handle.
    UnsupportedConditionCode { addr: u64, cc: u32 },
}

/// Disassembles `code`, placed at `addr`, into classified instructions.
pub fn disassemble(code: &[u8], addr: u64) -> (res: Result<InstructionSequence, DisasmError>)
    ensures
        decode_failed(code@, addr) ==> res == Err::<InstructionSequence, DisasmError>(DisasmError::Capstone),
        !decode_failed(code@, addr) ==> exists|raws: Seq<RawInsn>| #[trigger] decoded(code@, addr, raws) && match first_error(raws) {
            Some(e) => res == Err::<InstructionSequence, DisasmError>(e),
            None => res matches Ok(seq) && seq.wf() && classified_all(raws, seq@),
        },
{
    let raws = match capstone_arm64_disasm(code, addr) {
        Some(raws) => raws,
        None => return Err(DisasmError::Capstone),
    };
    let ghost all = raws@;
    let insns = match classify_raw_insns(raws) {
        Ok(v) => v,
        Err(e) => {
            proof {
                assert(decoded(code@, addr, all));
            }
            return Err(e);
        },
    };
    let seq = InstructionSequence::new(insns);
    proof {
        assert(decoded(code@, addr, all));
    }
    Ok(seq)
}

/// The error of the first instruction that does not classify, if any.
pub open spec fn first_error(raws: Seq<RawInsn>) -> Option<DisasmError>
    decreases raws.len(),
{
    if raws.len() == 0 {
        None
    } else {
        match first_error(raws.drop_last()) {
            Some(e) => Some(e),
            None => classify_error(raws.last()),
        }
    }
}

/// `insns` classifies `raws`, one for one.
pub open spec fn classified_all(raws: Seq<RawInsn>, insns: Seq<Instruction>) -> bool {
    &&& insns.len() == raws.len()
    &&& forall|i: int| 0 <= i < raws.len() ==> #[trigger] classifies(raws[i], insns[i])
}

/// Classifies instructions in order, stopping at the first that fails.
fn classify_raw_insns(raws: Vec<RawInsn>) -> (res: Result<Vec<Instruction>, DisasmError>)
    ensures
        match first_error(raws@) {
            Some(e) => res == Err::<Vec<Instruction>, DisasmError>(e),
            None => res matches Ok(v) && classified_all(raws@, v@),
        },
{
    let ghost all = raws@;
    let mut out: Vec<Instruction> = Vec::new();
    let mut rest = raws;
    let n = rest.len();
    let mut i: usize = 0;
    while i < n
        invariant
            n == all.len(),
            all == raws@,
            0 <= i <= n,
            rest@ == all.skip(i as int),
            first_error(all.take(i as int)) is None,
            classified_all(all.take(i as int), out@),
        decreases n - i,
    {
        let raw = rest.remove(0);
        proof {
            assert(raw == all[i as int]);
            assert(rest@ =~= all.skip(i + 1));
            assert(all.take(i + 1).drop_last() =~= all.take(i as int));
            assert(all.take(i + 1).last() == all[i as int]);
        }
        match Instruction::from_insn(raw) {
            Ok(insn) => {
                out.push(insn);
                proof {
                    assert(classify_error(raw) is None);
                    assert(first_error(all.take(i + 1)) is None);
                    let t = all.take(i + 1);
                    assert forall|k: int| 0 <= k < t.len() implies #[trigger] classifies(t[k], out@[k]) by {
                        if k < i {
                            assert(t[k] == all.take(i as int)[k]);
                        }
                    }
                }
            },
            Err(e) => {
                proof {
                    assert(classify_error(raw) == Some(e));
                    assert(first_error(all.take(i + 1)) == Some(e));
                    lemma_first_error_extends(all, (i + 1) as nat, e);
                }
                return Err(e);
            },
        }
        i = i + 1;
    }
    proof {
        assert(all.take(n as int) =~= all);
        assert(first_error(all) is None);
        assert(classified_all(all, out@));
    }
    Ok(out)
}

proof fn lemma_first_error_extends(raws: Seq<RawInsn>, k: nat, e: DisasmError)
    requires
        k <= raws.len(),
        first_error(raws.take(k as int)) == Some(e),
    ensures
        first_error(raws) == Some(e),
    decreases raws.len() - k,
{
    if k < raws.len() {
        assert(raws.take(k + 1 as int).drop_last() =~= raws.take(k as int));
        lemma_first_error_extends(raws, k + 1, e);
    } else {
        assert(raws.take(k as int) =~= raws);
    }
}

/// The error that classifying `raw` meets, if any.
pub open spec fn classify_error(raw: RawInsn) -> Option<DisasmError> {
    if !raw.arm64 {
        Some(DisasmError::UnsupportedArchitecture)
    } else {
        match kind_of(raw.id, raw.cc, first_imm(raw.operands@), raw.addr) {
            Err(e) => Some(e),
            Ok(_) => None,
        }
    }
}

/// `insn` is what classifying `raw` gives.
pub open spec fn classifies(raw: RawInsn, insn: Instruction) -> bool {
    &&& raw.arm64
    &&& kind_of(raw.id, raw.cc, first_imm(raw.operands@), raw.addr) == Ok::<InstructionKind, DisasmError>(insn.kind_spec())
    &&& insn.addr_spec() == raw.addr
    &&& insn.len_spec() == raw.len
    &&& insn.mnemonic_view() == text_or(raw.mnemonic, "???"@)
    &&& insn.op_str_view() == text_or(raw.op_str, ""@)
}

/// The text of `s`, or `default` where there is none.
pub open spec fn text_or(s: Option<String>, default: Seq<char>) -> Seq<char> {
    match s {
        Some(s) => s@,
        None => default,
    }
}

/// The first immediate operand, as an unsigned number.
pub open spec fn first_imm(ops: Seq<MachineOperand>) -> Option<u64>
    decreases ops.len(),
{
    if ops.len() == 0 {
        None
    } else {
        match ops[0] {
            MachineOperand::Imm(i) => Some(i as u64),
            _ => first_imm(ops.drop_first()),
        }
    }
}

/// A `b` to a target is an unconditional branch without a condition code, and with NE, GT, GE
/// or LE a conditional branch on `!=`, `>`, `>=` or `<=`; a `cbnz` branches on a value being
/// nonzero.
pub proof fn lemma_branch_kinds(target: u64, addr: u64)
    ensures
        kind_of(ARM64_INS_B, ARM64_CC_INVALID, Some(target), addr) == Ok::<InstructionKind, DisasmError>(
            InstructionKind::UnconditionalBranch { target },
        ),
        kind_of(ARM64_INS_B, ARM64_CC_NE, Some(target), addr) == Ok::<InstructionKind, DisasmError>(
            InstructionKind::ConditionalBranch { target, kind: ConditionKind::NotEqual },
        ),
        kind_of(ARM64_INS_B, ARM64_CC_GT, Some(target), addr) == Ok::<InstructionKind, DisasmError>(
            InstructionKind::ConditionalBranch { target, kind: ConditionKind::Greater },
        ),
        kind_of(ARM64_INS_B, ARM64_CC_GE, Some(target), addr) == Ok::<InstructionKind, DisasmError>(
            InstructionKind::ConditionalBranch { target, kind: ConditionKind::GreaterOrEqual },
        ),
        kind_of(ARM64_INS_B, ARM64_CC_LE, Some(target), addr) == Ok::<InstructionKind, DisasmError>(
            InstructionKind::ConditionalBranch { target, kind: ConditionKind::LessOrEqual },
        ),
        kind_of(ARM64_INS_CBNZ, ARM64_CC_INVALID, Some(target), addr) == Ok::<InstructionKind, DisasmError>(
            InstructionKind::ConditionalBranch { target, kind: ConditionKind::NonZero },
        ),
{
}

/// The kind of instruction that capstone's instruction number, condition code and first
/// immediate describe.
pub open spec fn kind_of(id: u32, cc: u32, imm: Option<u64>, addr: u64) -> Result<
    InstructionKind,
    DisasmError,
> {
    if id == ARM64_INS_CBNZ {
        match imm {
            None => Err(DisasmError::MissingBranchTarget { addr }),
            Some(target) => Ok(InstructionKind::ConditionalBranch { target, kind: ConditionKind::NonZero }),
        }
    } else if id == ARM64_INS_B {
        match imm {
            None => Err(DisasmError::MissingBranchTarget { addr }),
            Some(target) => if cc == ARM64_CC_INVALID {
                Ok(InstructionKind::UnconditionalBranch { target })
            } else if cc == ARM64_CC_NE {
                Ok(InstructionKind::ConditionalBranch { target, kind: ConditionKind::NotEqual })
            } else if cc == ARM64_CC_GT {
                Ok(InstructionKind::ConditionalBranch { target, kind: ConditionKind::Greater })
            } else if cc == ARM64_CC_GE {
                Ok(InstructionKind::ConditionalBranch { target, kind: ConditionKind::GreaterOrEqual })
            } else if cc == ARM64_CC_LE {
                Ok(InstructionKind::ConditionalBranch { target, kind: ConditionKind::LessOrEqual })
            } else {
                Err(DisasmError::UnsupportedConditionCode { addr, cc })
            },
        }
    } else if id == ARM64_INS_BL && imm.is_some() {
        Ok(InstructionKind::Call { target: imm.unwrap() })
    } else if id == ARM64_INS_RET {
        Ok(InstructionKind::Ret)
    } else {
        Ok(InstructionKind::Other)
    }
}

/// A disassembled program: its instructions in order, and where each address lies.
#[derive(Debug)]
pub struct InstructionSequence {
    insns: Vec<Instruction>,
    addr_to_index: HashMap<u64, usize>,
}

/// The last position in `insns` whose instruction starts at `addr`.
pub open spec fn last_index_of(insns: Seq<Instruction>, addr: u64) -> Option<int>
    decreases insns.len(),
{
    if insns.len() == 0 {
        None
    } else if insns.last().addr_spec() == addr {
        Some(insns.len() - 1)
    } else {
        last_index_of(insns.drop_last(), addr)
    }
}

proof fn lemma_last_index_of_bounds(insns: Seq<Instruction>, addr: u64)
    ensures
        last_index_of(insns, addr) matches Some(i) ==> 0 <= i < insns.len() && insns[i].addr_spec() == addr,
        last_index_of(insns, addr) is None ==> forall|i: int| 0 <= i < insns.len() ==> insns[i].addr_spec() != addr,
    decreases insns.len(),
{
    if insns.len() > 0 {
        lemma_last_index_of_bounds(insns.drop_last(), addr);
        assert forall|i: int| 0 <= i < insns.len() - 1 implies #[trigger] insns[i] == insns.drop_last()[i] by {}
    }
}

impl View for InstructionSequence {
    type V = Seq<Instruction>;

    closed spec fn view(&self) -> Seq<Instruction> {
        self.insns@
    }
}

impl InstructionSequence {
    pub closed spec fn wf(&self) -> bool {
        &&& forall|a: u64| #[trigger] self.addr_to_index@.contains_key(a) <==> last_index_of(self.insns@, a).is_some()
        &&& forall|a: u64| #[trigger] self.addr_to_index@.contains_key(a) ==> last_index_of(self.insns@, a) == Some(self.addr_to_index@[a] as int)
    }

    pub fn new(insns: Vec<Instruction>) -> (res: Self)
        ensures
            res@ == insns@,
            res.wf(),
    {
        let mut addr_to_index: HashMap<u64, usize> = HashMap::new();
        let mut i: usize = 0;
        while i < insns.len()
            invariant
                0 <= i <= insns@.len(),
                forall|a: u64| #[trigger] addr_to_index@.contains_key(a) <==> last_index_of(insns@.take(i as int), a).is_some(),
                forall|a: u64| #[trigger] addr_to_index@.contains_key(a) ==> last_index_of(insns@.take(i as int), a) == Some(addr_to_index@[a] as int),
            decreases insns.len() - i,
        {
            let a = insns[i].addr;
            addr_to_index.insert(a, i);
            proof {
                let t = insns@.take(i + 1);
                assert(t.drop_last() =~= insns@.take(i as int));
                assert(t.last() == insns@[i as int]);
            }
            i = i + 1;
        }
        proof {
            assert(insns@.take(insns@.len() as int) =~= insns@);
        }
        InstructionSequence { insns, addr_to_index }
    }

    /// The instruction at `addr`: the last one that starts there.
    pub fn get(&self, addr: u64) -> (res: Option<&Instruction>)
        requires
            self.wf(),
        ensures
            res == (match last_index_of(self@, addr) {
                Some(i) => Some(&self@[i]),
                None => None,
            }),
    {
        proof {
            lemma_last_index_of_bounds(self.insns@, addr);
        }
        match self.addr_to_index.get(&addr) {
            Some(i) => Some(&self.insns[*i]),
            None => None,
        }
    }

    pub fn iter(&self) -> (res: std::slice::Iter<'_, Instruction>)
        ensures
            vstd::std_specs::slice::into_iter_elts(res) == self@,
    {
        let s = self.insns.as_slice();
        s.iter()
    }

    /// The instruction that follows `insn` in memory, if the sequence holds one there.
    pub fn fallthrough_insn(&self, insn: &Instruction) -> (res: Option<&Instruction>)
        requires
            self.wf(),
            insn.next_addr_fits(),
        ensures
            res == (match last_index_of(self@, insn.next_addr_spec()) {
                Some(i) => Some(&self@[i]),
                None => None,
            }),
    {
        self.get(insn.next_addr())
    }
}

/// A disassembled instruction.
#[derive(Debug)]
pub struct Instruction {
    pub(crate) addr: u64,
    pub(crate) len: usize,
    pub(crate) mnemonic: String,
    pub(crate) op_str: String,
    pub(crate) kind: InstructionKind,
}

#[derive(Debug, Clone, Copy, PartialEq, Eq, Structural)]
pub enum InstructionKind {
    ConditionalBranch { target: u64, kind: ConditionKind },
    UnconditionalBranch { target: u64 },
    Call { target: u64 },
    Ret,
    Other,
}

#[derive(Debug, Clone, Copy, PartialEq, Eq, Structural)]
pub enum ConditionKind {
    NonZero,
    NotEqual,
    Greater,
    GreaterOrEqual,
    LessOrEqual,
}

impl Clone for Instruction {
    fn clone(&self) -> (res: Self)
        ensures
            res == *self,
    {
        Instruction {
            addr: self.addr,
            len: self.len,
            mnemonic: self.mnemonic.clone(),
            op_str: self.op_str.clone(),
            kind: self.kind,
        }
    }
}

/// The text of `s`, or `default` where there is none.
fn string_or(s: Option<String>, default: &str) -> (res: String)
    ensures
        res@ == text_or(s, default@),
{
    match s {
        Some(s) => s,
        None => String::from_str(default),
    }
}

impl Instruction {
    pub closed spec fn addr_spec(&self) -> u64 {
        self.addr
    }

    pub closed spec fn len_spec(&self) -> usize {
        self.len
    }

    pub closed spec fn kind_spec(&self) -> InstructionKind {
        self.kind
    }

    pub closed spec fn mnemonic_view(&self) -> Seq<char> {
        self.mnemonic@
    }

    pub closed spec fn op_str_view(&self) -> Seq<char> {
        self.op_str@
    }

    pub open spec fn next_addr_fits(&self) -> bool {
        self.addr_spec() + self.len_spec() <= u64::MAX
    }

    pub open spec fn next_addr_spec(&self) -> u64 {
        (self.addr_spec() + self.len_spec()) as u64
    }

    pub open spec fn conditional_kind(&self) -> Option<ConditionKind> {
        match self.kind_spec() {
            InstructionKind::ConditionalBranch { kind, .. } => Some(kind),
            _ => None,
        }
    }

    /// Classifies one decoded instruction.
    pub fn from_insn(raw: RawInsn) -> (res: Result<Self, DisasmError>)
        ensures
            match classify_error(raw) {
                Some(e) => res == Err::<Self, DisasmError>(e),
                None => res matches Ok(insn) && classifies(raw, insn),
            },
    {
        if !raw.arm64 {
            return Err(DisasmError::UnsupportedArchitecture);
        }
        let imm = first_imm_of(&raw.operands);
        let kind = InstructionKind::from_insn(raw.id, raw.cc, imm, raw.addr)?;
        Ok(Instruction {
            addr: raw.addr,
            len: raw.len,
            mnemonic: string_or(raw.mnemonic, "???"),
            op_str: string_or(raw.op_str, ""),
            kind,
        })
    }

    pub fn addr(&self) -> (res: u64)
        ensures
            res == self.addr_spec(),
    {
        self.addr
    }

    pub fn mnemonic(&self) -> (res: &str)
        ensures
            res@ == self.mnemonic_view(),
    {
        self.mnemonic.as_str()
    }

    pub fn op_str(&self) -> (res: &str)
        ensures
            res@ == self.op_str_view(),
    {
        self.op_str.as_str()
    }

    pub fn next_addr(&self) -> (res: u64)
        requires
            self.next_addr_fits(),
        ensures
            res == self.next_addr_spec(),
    {
        self.addr + self.len as u64
    }

    pub fn branch_target(&self) -> (res: Option<u64>)
        ensures
            res == (match self.kind_spec() {
                InstructionKind::ConditionalBranch { target, .. } => Some(target),
                InstructionKind::UnconditionalBranch { target } => Some(target),
                InstructionKind::Call { target } => Some(target),
                _ => None,
            }),
    {
        match self.kind {
            InstructionKind::ConditionalBranch { target, .. }
            | InstructionKind::UnconditionalBranch { target }
            | InstructionKind::Call { target } => Some(target),
            _ => None,
        }
    }

    pub fn is_conditional_branch(&self) -> (res: bool)
        ensures
            res == self.kind_spec() is ConditionalBranch,
    {
        matches!(self.kind, InstructionKind::ConditionalBranch { .. })
    }

    pub fn conditional_branch_target(&self) -> (res: Option<u64>)
        ensures
            res == (match self.kind_spec() {
                InstructionKind::ConditionalBranch { target, .. } => Some(target),
                _ => None,
            }),
    {
        match self.kind {
            InstructionKind::ConditionalBranch { target, .. } => Some(target),
            _ => None,
        }
    }

    pub fn conditional_branch_kind(&self) -> (res: Option<ConditionKind>)
        ensures
            res == self.conditional_kind(),
    {
        match self.kind {
            InstructionKind::ConditionalBranch { kind, .. } => Some(kind),
            _ => None,
        }
    }

    pub fn is_unconditional_branch(&self) -> (res: bool)
        ensures
            res == self.kind_spec() is UnconditionalBranch,
    {
        matches!(self.kind, InstructionKind::UnconditionalBranch { .. })
    }

    pub fn unconditional_branch_target(&self) -> (res: Option<u64>)
        ensures
            res == (match self.kind_spec() {
                InstructionKind::UnconditionalBranch { target } => Some(target),
                _ => None,
            }),
    {
        match self.kind {
            InstructionKind::UnconditionalBranch { target } => Some(target),
            _ => None,
        }
    }

    pub fn is_call(&self) -> (res: bool)
        ensures
            res == self.kind_spec() is Call,
    {
        matches!(self.kind, InstructionKind::Call { .. })
    }

    pub fn call_target(&self) -> (res: Option<u64>)
        ensures
            res == (match self.kind_spec() {
                InstructionKind::Call { target } => Some(target),
                _ => None,
            }),
    {
        match self.kind {
            InstructionKind::Call { target } => Some(target),
            _ => None,
        }
    }

    pub fn is_ret(&self) -> (res: bool)
        ensures
            res == self.kind_spec() is Ret,
    {
        matches!(self.kind, InstructionKind::Ret)
    }

    pub fn is_terminator(&self) -> (res: bool)
        ensures
            res == (self.kind_spec() is ConditionalBranch || self.kind_spec() is UnconditionalBranch || self.kind_spec() is Ret),
    {
        matches!(
            self.kind,
            InstructionKind::ConditionalBranch { .. } | InstructionKind::UnconditionalBranch { .. } | InstructionKind::Ret
        )
    }

    /// The text `addr: mnemonic op_str`, the address in `0x` hexadecimal.
    pub fn to_text(&self) -> (res: String)
        ensures
            res@ == crate::text::hex_text(self.addr_spec() as nat) + ": "@ + self.mnemonic_view() + " "@ + self.op_str_view(),
    {
        let mut s = crate::text::hex_string(self.addr);
        s.append(": ");
        s.append(self.mnemonic.as_str());
        s.append(" ");
        s.append(self.op_str.as_str());
        s
    }
}

/// The first immediate operand, as an unsigned number.
fn first_imm_of(ops: &Vec<MachineOperand>) -> (res: Option<u64>)
    ensures
        res == first_imm(ops@),
{
    let mut i: usize = 0;
    proof {
        assert(ops@.skip(0) =~= ops@);
    }
    while i < ops.len()
        invariant
            0 <= i <= ops@.len(),
            first_imm(ops@) == first_imm(ops@.skip(i as int)),
        decreases ops.len() - i,
    {
        proof {
            assert(ops@.skip(i as int).drop_first() =~= ops@.skip(i + 1));
            assert(ops@.skip(i as int)[0] == ops@[i as int]);
        }
        if let MachineOperand::Imm(imm) = ops[i] {
            return Some(imm as u64);
        }
        i = i + 1;
    }
    None
}

impl InstructionKind {
    /// The kind of instruction that capstone's instruction number, condition code and first
    /// immediate operand describe.
    pub fn from_insn(id: u32, cc: u32, imm: Option<u64>, addr: u64) -> (res: Result<Self, DisasmError>)
        ensures
            res == kind_of(id, cc, imm, addr),
    {
        if id == ARM64_INS_CBNZ {
            match imm {
                None => Err(DisasmError::MissingBranchTarget { addr }),
                Some(target) => Ok(Self::ConditionalBranch { target, kind: ConditionKind::NonZero }),
            }
        } else if id == ARM64_INS_B {
            let target = match imm {
                None => return Err(DisasmError::MissingBranchTarget { addr }),
                Some(target) => target,
            };
            if cc == ARM64_CC_INVALID {
                Ok(Self::UnconditionalBranch { target })
            } else if cc == ARM64_CC_NE {
                Ok(Self::ConditionalBranch { target, kind: ConditionKind::NotEqual })
            } else if cc == ARM64_CC_GT {
                Ok(Self::ConditionalBranch { target, kind: ConditionKind::Greater })
            } else if cc == ARM64_CC_GE {
                Ok(Self::ConditionalBranch { target, kind: ConditionKind::GreaterOrEqual })
            } else if cc == ARM64_CC_LE {
                Ok(Self::ConditionalBranch { target, kind: ConditionKind::LessOrEqual })
            } else {
                Err(DisasmError::UnsupportedConditionCode { addr, cc })
            }
        } else if id == ARM64_INS_BL && imm.is_some() {
            Ok(Self::Call { target: imm.unwrap() })
        } else if id == ARM64_INS_RET {
            Ok(Self::Ret)
        } else {
            Ok(Self::Other)
        }
    }
}

} // verus!

verus! {

/// A machine instruction with capstone's detail, as the lifter reads it.
#[derive(Debug)]
pub struct MachineInst {
    pub addr: u64,
    pub mnemonic: String,
    pub op_str: String,
    /// Capstone's instruction number (`Arm64Insn`).
    pub opcode: u32,
    pub operands: Vec<MachineOperand>,
    pub writeback: bool,
    /// Capstone's condition code (`Arm64CC`); invalid where the instruction has none.
    pub cc: u32,
}

/// `raw` with its detail, as the lifter reads it.
pub open spec fn detailed(raw: RawInsn, m: MachineInst) -> bool {
    &&& m.addr == raw.addr
    &&& m.mnemonic@ == text_or(raw.mnemonic, "???"@)
    &&& m.op_str@ == text_or(raw.op_str, ""@)
    &&& m.opcode == raw.id
    &&& m.operands@ == raw.operands@
    &&& m.writeback == raw.writeback
    &&& m.cc == raw.cc
}

/// Disassembles `code`, placed at `addr`, keeping each instruction's operands.
pub fn disassemble_detailed(code: &[u8], addr: u64) -> (res: Result<Vec<MachineInst>, DisasmError>)
    ensures
        decode_failed(code@, addr) ==> res == Err::<Vec<MachineInst>, DisasmError>(DisasmError::Capstone),
        !decode_failed(code@, addr) ==> exists|raws: Seq<RawInsn>| #[trigger] decoded(code@, addr, raws) && if forall|i: int|
            0 <= i < raws.len() ==> (#[trigger] raws[i]).arm64 {
            res matches Ok(v) && v@.len() == raws.len() && forall|i: int| 0 <= i < raws.len() ==> detailed(#[trigger] raws[i], v@[i])
        } else {
            res == Err::<Vec<MachineInst>, DisasmError>(DisasmError::UnsupportedArchitecture)
        },
{
    let mut raws = match capstone_arm64_disasm(code, addr) {
        Some(raws) => raws,
        None => return Err(DisasmError::Capstone),
    };
    let ghost all = raws@;
    let n = raws.len();
    let mut out: Vec<MachineInst> = Vec::new();
    let mut i: usize = 0;
    while i < n
        invariant
            decoded(code@, addr, all),
            n == all.len(),
            0 <= i <= n,
            raws@ == all.skip(i as int),
            out@.len() == i,
            forall|k: int| 0 <= k < i ==> (#[trigger] all[k]).arm64,
            forall|k: int| 0 <= k < i ==> detailed(#[trigger] all[k], out@[k]),
        decreases n - i,
    {
        let raw = raws.remove(0);
        proof {
            assert(raw == all[i as int]);
            assert(raws@ =~= all.skip(i + 1));
        }
        if !raw.arm64 {
            proof {
                assert(!all[i as int].arm64);
            }
            return Err(DisasmError::UnsupportedArchitecture);
        }
        out.push(MachineInst {
            addr: raw.addr,
            mnemonic: string_or(raw.mnemonic, "???"),
            op_str: string_or(raw.op_str, ""),
            opcode: raw.id,
            operands: raw.operands,
            writeback: raw.writeback,
            cc: raw.cc,
        });
        i = i + 1;
    }
    Ok(out)
}

} // verus!
