use chibidec::disassemble::{
    MachineInst, MachineOperand, ARM64_CC_GT, ARM64_INS_B, ARM64_INS_CBNZ, ARM64_INS_SDIV, ARM64_INS_ADD, ARM64_INS_ADRP, ARM64_INS_BL, ARM64_INS_LDP, ARM64_INS_LDR, ARM64_INS_MOV,
    ARM64_INS_RET, ARM64_INS_STP, ARM64_INS_STR, ARM64_INS_STUR, ARM64_INS_SUB, ARM64_REG_FP, ARM64_REG_INVALID,
    ARM64_REG_LR, ARM64_REG_SP, ARM64_REG_W0, ARM64_REG_WSP, ARM64_REG_WZR, ARM64_REG_X0, ARM64_REG_XZR,
};
use chibidec::llir::lifter::{all_liftable, is_liftable, lift_linear_function, reg_from_id};
use chibidec::llir::Reg;

fn minsn(addr: u64, opcode: u32, operands: Vec<MachineOperand>) -> MachineInst {
    MachineInst { addr, mnemonic: String::new(), op_str: String::new(), opcode, operands, writeback: false, cc: 0 }
}

fn reg(r: u16) -> MachineOperand {
    MachineOperand::Reg(r)
}

fn mem(base: u16, disp: i32) -> MachineOperand {
    MachineOperand::Mem(base, ARM64_REG_INVALID, disp)
}

fn prologue_and_epilogue() -> Vec<MachineInst> {
    let w8 = ARM64_REG_W0 + 8;
    vec![
        minsn(0x100000460, ARM64_INS_SUB, vec![reg(ARM64_REG_SP), reg(ARM64_REG_SP), MachineOperand::Imm(0x20)]),
        minsn(0x100000464, ARM64_INS_STP, vec![reg(ARM64_REG_FP), reg(ARM64_REG_LR), mem(ARM64_REG_SP, 0x10)]),
        minsn(0x100000468, ARM64_INS_ADD, vec![reg(ARM64_REG_FP), reg(ARM64_REG_SP), MachineOperand::Imm(0x10)]),
        minsn(0x10000046c, ARM64_INS_STUR, vec![reg(ARM64_REG_WZR), mem(ARM64_REG_FP, -4)]),
        minsn(0x100000470, ARM64_INS_MOV, vec![reg(w8), MachineOperand::Imm(1)]),
        minsn(0x100000474, ARM64_INS_STR, vec![reg(w8), mem(ARM64_REG_SP, 8)]),
        minsn(0x100000478, ARM64_INS_ADRP, vec![reg(ARM64_REG_X0), MachineOperand::Imm(0x100000000)]),
        minsn(0x10000047c, ARM64_INS_BL, vec![MachineOperand::Imm(0x100000534)]),
        minsn(0x100000480, ARM64_INS_LDR, vec![reg(w8), mem(ARM64_REG_SP, 8)]),
        minsn(0x100000484, ARM64_INS_MOV, vec![reg(ARM64_REG_X0 + 9), reg(ARM64_REG_SP)]),
        minsn(0x100000488, ARM64_INS_LDP, vec![reg(ARM64_REG_FP), reg(ARM64_REG_LR), mem(ARM64_REG_SP, 0x10)]),
        minsn(0x10000048c, ARM64_INS_RET, vec![]),
    ]
}

#[test]
fn lifting_numbers_temporaries_across_the_function() {
    let minsns = prologue_and_epilogue();
    assert!(all_liftable(&minsns));
    let program = lift_linear_function(&minsns);
    let expected = [
        "0x100000460: sp.0 = sub sp.0, 0x20",
        "0x100000464: t0.0 = add sp.0, 0x10",
        "0x100000464: store [t0.0], x29.0",
        "0x100000464: t1.0 = add sp.0, 0x18",
        "0x100000464: store [t1.0], x30.0",
        "0x100000468: x29.0 = add sp.0, 0x10",
        "0x10000046c: t2.0 = add x29.0, 0xfffffffffffffffc",
        "0x10000046c: store [t2.0], wzr.0",
        "0x100000470: w8.0 = copy 0x1",
        "0x100000474: t3.0 = add sp.0, 0x8",
        "0x100000474: store [t3.0], w8.0",
        "0x100000478: x0.0 = copy 0x100000000",
        "0x10000047c: call 0x100000534",
        "0x100000480: t4.0 = add sp.0, 0x8",
        "0x100000480: w8.0 = load [t4.0]",
        "0x100000484: x9.0 = copy sp.0",
        "0x100000488: t5.0 = add sp.0, 0x10",
        "0x100000488: x29.0 = load [t5.0]",
        "0x100000488: t6.0 = add sp.0, 0x18",
        "0x100000488: x30.0 = load [t6.0]",
        "0x10000048c: ret",
    ]
    .iter()
    .map(|l| format!("  {}\n", l))
    .collect::<String>();
    let expected = format!("text {{\n{}}}\n", expected);
    assert_eq!(program.to_text(), expected);
    assert_eq!(program.items().len(), 21);
}

#[test]
fn lifting_nothing_gives_an_empty_program() {
    let program = lift_linear_function(&[]);
    assert_eq!(program.items().len(), 0);
    assert_eq!(program.to_text(), "text {\n}\n");
}

#[test]
fn a_w_register_pair_steps_by_four_bytes() {
    let w0 = ARM64_REG_W0;
    let m = minsn(0x2000, ARM64_INS_STP, vec![reg(w0), reg(w0 + 1), mem(ARM64_REG_SP, 0)]);
    let program = lift_linear_function(&[m]);
    assert_eq!(
        program.to_text(),
        "text {\n  0x2000: t0.0 = add sp.0, 0x0\n  0x2000: store [t0.0], w0.0\n  0x2000: t1.0 = add sp.0, 0x4\n  0x2000: store [t1.0], w1.0\n}\n"
    );
}

#[test]
fn writeback_and_unknown_instructions_are_not_liftable() {
    let mut pre_index = minsn(0x2000, ARM64_INS_STP, vec![reg(ARM64_REG_FP), reg(ARM64_REG_LR), mem(ARM64_REG_SP, -16)]);
    assert!(is_liftable(&pre_index));
    pre_index.writeback = true;
    assert!(!is_liftable(&pre_index));
    let mul = minsn(0x2004, 499, vec![reg(ARM64_REG_W0), reg(ARM64_REG_W0 + 1), reg(ARM64_REG_W0 + 2)]);
    assert!(!is_liftable(&mul));
    let add_regs = minsn(0x2008, ARM64_INS_ADD, vec![reg(ARM64_REG_X0), reg(ARM64_REG_X0), reg(ARM64_REG_X0 + 1)]);
    assert!(!is_liftable(&add_regs));
    let indexed = minsn(0x200c, ARM64_INS_LDR, vec![reg(ARM64_REG_X0), MachineOperand::Mem(ARM64_REG_SP, ARM64_REG_X0, 0)]);
    assert!(!is_liftable(&indexed));
    assert!(!all_liftable(&[minsn(0x2010, ARM64_INS_RET, vec![]), mul]));
    let mut b_le = minsn(0x2014, ARM64_INS_B, vec![MachineOperand::Imm(0x2000)]);
    b_le.cc = 14;
    assert!(!is_liftable(&b_le));
}

#[test]
fn register_numbers_map_to_registers() {
    assert_eq!(reg_from_id(ARM64_REG_FP), Reg::X(29));
    assert_eq!(reg_from_id(ARM64_REG_LR), Reg::X(30));
    assert_eq!(reg_from_id(ARM64_REG_WSP), Reg::SP);
    assert_eq!(reg_from_id(ARM64_REG_SP), Reg::SP);
    assert_eq!(reg_from_id(ARM64_REG_XZR), Reg::XZR);
    assert_eq!(reg_from_id(ARM64_REG_W0 + 3), Reg::W(3));
    assert_eq!(reg_from_id(ARM64_REG_X0 + 28), Reg::X(28));
}

#[test]
fn readme_division_and_branches_lift() {
    let w = ARM64_REG_W0;
    let sdiv = minsn(0x100000494, ARM64_INS_SDIV, vec![reg(w + 9), reg(w + 8), reg(w + 10)]);
    let b = minsn(0x100000478, ARM64_INS_B, vec![MachineOperand::Imm(0x10000047c)]);
    let mut b_gt = minsn(0x100000484, ARM64_INS_B, vec![MachineOperand::Imm(0x100000524)]);
    b_gt.cc = ARM64_CC_GT;
    let cbnz = minsn(0x1000004a0, ARM64_INS_CBNZ, vec![reg(w + 8), MachineOperand::Imm(0x1000004b8)]);
    let all = [sdiv, b, b_gt, cbnz];
    assert!(all_liftable(&all));
    for m in all.iter() {
        let program = lift_linear_function(std::slice::from_ref(m));
        assert_eq!(program.items().len(), 1);
    }
    let program = lift_linear_function(&all[0..1]);
    assert_eq!(program.to_text(), "text {\n  0x100000494: w9.0 = sdiv w8.0, w10.0\n}\n");
    let program = lift_linear_function(&all[1..2]);
    assert_eq!(program.to_text(), "text {\n  0x100000478: goto 0x10000047c\n}\n");
    let program = lift_linear_function(&all[2..3]);
    assert_eq!(program.to_text(), "text {\n  0x100000484: if > 0 goto 0x100000524\n}\n");
    let program = lift_linear_function(&all[3..4]);
    assert_eq!(program.to_text(), "text {\n  0x1000004a0: if w8.0 != 0 goto 0x1000004b8\n}\n");
}
