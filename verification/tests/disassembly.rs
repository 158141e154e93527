use chibidec::disassemble::{
    disassemble, disassemble_detailed, ConditionKind, DisasmError, InstructionKind, MachineOperand, ARM64_CC_GE,
    ARM64_CC_INVALID, ARM64_INS_ADD, ARM64_INS_B, ARM64_INS_BL, ARM64_INS_CBNZ, ARM64_INS_RET, ARM64_REG_X0,
};

const BASE: u64 = 0x1000;

fn bytes(words: &[u32]) -> Vec<u8> {
    words.iter().flat_map(|w| w.to_le_bytes()).collect()
}

#[test]
fn ret_is_a_terminator_without_target() {
    let seq = disassemble(&bytes(&[0xd65f03c0]), BASE).expect("ret decodes");
    let insn = seq.get(BASE).expect("an instruction at the base address");
    assert!(insn.is_ret());
    assert!(insn.is_terminator());
    assert!(!insn.is_call());
    assert_eq!(insn.branch_target(), None);
    assert_eq!(insn.mnemonic(), "ret");
    assert_eq!(insn.next_addr(), BASE + 4);
    assert_eq!(insn.to_text(), "0x1000: ret ");
}

#[test]
fn unconditional_branch_has_its_target() {
    let seq = disassemble(&bytes(&[0x14000002]), BASE).expect("b decodes");
    let insn = seq.get(BASE).unwrap();
    assert!(insn.is_unconditional_branch());
    assert!(!insn.is_conditional_branch());
    assert!(insn.is_terminator());
    assert_eq!(insn.unconditional_branch_target(), Some(0x1008));
    assert_eq!(insn.branch_target(), Some(0x1008));
}

#[test]
fn call_is_not_a_terminator() {
    let seq = disassemble(&bytes(&[0x94000010]), BASE).expect("bl decodes");
    let insn = seq.get(BASE).unwrap();
    assert!(insn.is_call());
    assert_eq!(insn.call_target(), Some(0x1040));
    assert!(!insn.is_terminator());
    assert_eq!(insn.branch_target(), Some(0x1040));
    assert!(!insn.is_unconditional_branch());
}

#[test]
fn cbnz_is_a_nonzero_conditional_branch() {
    let seq = disassemble(&bytes(&[0x350000c8]), BASE).expect("cbnz decodes");
    let insn = seq.get(BASE).unwrap();
    assert!(insn.is_conditional_branch());
    assert_eq!(insn.conditional_branch_target(), Some(0x1018));
    assert_eq!(insn.conditional_branch_kind(), Some(ConditionKind::NonZero));
    assert_eq!(insn.branch_target(), Some(0x1018));
}

#[test]
fn b_gt_is_a_greater_conditional_branch() {
    let seq = disassemble(&bytes(&[0x5400004c]), BASE).expect("b.gt decodes");
    let insn = seq.get(BASE).unwrap();
    assert_eq!(insn.conditional_branch_kind(), Some(ConditionKind::Greater));
    assert_eq!(insn.conditional_branch_target(), Some(0x1008));
}

#[test]
fn b_le_and_b_ge_and_b_ne_are_known_conditions() {
    let seq = disassemble(&bytes(&[0x5400004d, 0x5400004a, 0x54000041]), BASE).expect("branches decode");
    assert_eq!(seq.get(BASE).unwrap().conditional_branch_kind(), Some(ConditionKind::LessOrEqual));
    assert_eq!(seq.get(BASE + 4).unwrap().conditional_branch_kind(), Some(ConditionKind::GreaterOrEqual));
    assert_eq!(seq.get(BASE + 8).unwrap().conditional_branch_kind(), Some(ConditionKind::NotEqual));
}

#[test]
fn b_eq_has_an_unsupported_condition_code() {
    let err = disassemble(&bytes(&[0x54000040]), BASE).err();
    assert_eq!(err, Some(DisasmError::UnsupportedConditionCode { addr: BASE, cc: 1 }));
}

#[test]
fn other_instructions_are_classified_as_other() {
    let seq = disassemble(&bytes(&[0x91000420, 0xd65f03c0]), BASE).expect("add; ret decode");
    let insns: Vec<_> = seq.iter().collect();
    assert_eq!(insns.len(), 2);
    assert!(!insns[0].is_terminator());
    assert_eq!(insns[0].mnemonic(), "add");
    assert_eq!(insns[0].op_str(), "x0, x1, #1");
    let next = seq.fallthrough_insn(insns[0]).expect("ret follows add");
    assert!(next.is_ret());
    assert!(seq.fallthrough_insn(insns[1]).is_none());
    assert!(seq.get(BASE + 2).is_none());
}

#[test]
fn empty_code_gives_no_instructions() {
    let seq = disassemble(&[], BASE).expect("nothing to decode is no error");
    assert_eq!(seq.iter().count(), 0);
    assert_eq!(disassemble_detailed(&[], BASE).expect("empty").len(), 0);
}

#[test]
fn detailed_disassembly_keeps_operands() {
    let minsns = disassemble_detailed(&bytes(&[0x91000420, 0xd65f03c0]), BASE).expect("decodes");
    assert_eq!(minsns.len(), 2);
    assert_eq!(minsns[0].addr, BASE);
    assert_eq!(minsns[0].opcode, ARM64_INS_ADD);
    assert_eq!(minsns[0].mnemonic, "add");
    assert_eq!(
        minsns[0].operands,
        vec![MachineOperand::Reg(ARM64_REG_X0), MachineOperand::Reg(ARM64_REG_X0 + 1), MachineOperand::Imm(1)]
    );
    assert!(!minsns[0].writeback);
    assert_eq!(minsns[1].opcode, ARM64_INS_RET);
    assert_eq!(minsns[1].addr, BASE + 4);
}

#[test]
fn instruction_kind_follows_the_capstone_numbers() {
    assert_eq!(
        InstructionKind::from_insn(ARM64_INS_B, ARM64_CC_INVALID, Some(0x2000), BASE),
        Ok(InstructionKind::UnconditionalBranch { target: 0x2000 })
    );
    assert_eq!(
        InstructionKind::from_insn(ARM64_INS_B, ARM64_CC_GE, Some(0x2000), BASE),
        Ok(InstructionKind::ConditionalBranch { target: 0x2000, kind: ConditionKind::GreaterOrEqual })
    );
    assert_eq!(
        InstructionKind::from_insn(ARM64_INS_CBNZ, 0, None, BASE),
        Err(DisasmError::MissingBranchTarget { addr: BASE })
    );
    assert_eq!(InstructionKind::from_insn(ARM64_INS_BL, 0, None, BASE), Ok(InstructionKind::Other));
    assert_eq!(InstructionKind::from_insn(ARM64_INS_ADD, 0, Some(1), BASE), Ok(InstructionKind::Other));
}
