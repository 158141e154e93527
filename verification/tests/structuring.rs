use chibidec::binary::Symbol;
use chibidec::cfg_recovery::{is_recoverable, recover_icfg};
use chibidec::cfg_structuring::render::render_structured_llir;
use chibidec::cfg_structuring::structure_cfg;
use chibidec::llir::ssa::{all_versions_zero, construct_ssa};
use chibidec::llir::{
    BinOp, BranchCondition, BranchTarget, Function, Instruction, InstructionKind, InstructionOrTerminator, LinearProgram,
    Place, Reg, Rhs, Terminator, TerminatorKind, Value, Var,
};

fn r(reg: Reg) -> Var {
    Var::from_place(Place::Reg(reg))
}

fn t(n: u32) -> Var {
    Var::from_place(Place::Temp(n))
}

fn v(var: Var) -> Value {
    Value::Var(var)
}

fn insn(addr: u64, kind: InstructionKind) -> InstructionOrTerminator {
    InstructionOrTerminator::Instruction(Instruction::new(addr, kind))
}

fn bin(addr: u64, dst: Var, op: BinOp, lhs: Var, rhs: Value) -> InstructionOrTerminator {
    insn(addr, InstructionKind::Assign { dst, src: Rhs::BinOp { op, lhs: v(lhs), rhs } })
}

fn load(addr: u64, dst: Var, src: Var) -> InstructionOrTerminator {
    insn(addr, InstructionKind::Assign { dst, src: Rhs::Load { src: v(src) } })
}

fn copy(addr: u64, dst: Var, src: Value) -> InstructionOrTerminator {
    insn(addr, InstructionKind::Assign { dst, src: Rhs::Copy { src } })
}

fn store(addr: u64, dst: Var, src: Var) -> InstructionOrTerminator {
    insn(addr, InstructionKind::Store { dst: v(dst), src: v(src) })
}

fn call(addr: u64, target: i64) -> InstructionOrTerminator {
    insn(addr, InstructionKind::Call { target: Value::Imm(target) })
}

fn goto(addr: u64, target: u64) -> InstructionOrTerminator {
    InstructionOrTerminator::Terminator(Terminator::new(addr, TerminatorKind::Branch { target: BranchTarget::Imm(target) }))
}

fn branch_if(addr: u64, cond: BranchCondition, target: u64) -> InstructionOrTerminator {
    InstructionOrTerminator::Terminator(Terminator::new(
        addr,
        TerminatorKind::ConditionalBranch { cond, target: BranchTarget::Imm(target) },
    ))
}

fn ret(addr: u64) -> InstructionOrTerminator {
    InstructionOrTerminator::Terminator(Terminator::new(addr, TerminatorKind::Ret))
}

/// The lifted `main` of the fizzbuzz program, before SSA construction.
fn fizzbuzz_main() -> LinearProgram {
    let sp = r(Reg::SP);
    let (w8, w9, w10) = (r(Reg::W(8)), r(Reg::W(9)), r(Reg::W(10)));
    let (x0, x8, x9) = (r(Reg::X(0)), r(Reg::X(8)), r(Reg::X(9)));
    let (x29, x30, wzr) = (r(Reg::X(29)), r(Reg::X(30)), r(Reg::WZR));
    let imm = Value::Imm;
    let add = BinOp::Add;
    let sub = BinOp::Sub;
    let sdiv = BinOp::SDiv;
    LinearProgram::new(vec![
        bin(0x100000460, sp, sub, sp, imm(0x20)),
        bin(0x100000464, t(0), add, sp, imm(0x10)),
        store(0x100000464, t(0), x29),
        bin(0x100000464, t(1), add, sp, imm(0x18)),
        store(0x100000464, t(1), x30),
        bin(0x100000468, x29, add, sp, imm(0x10)),
        bin(0x10000046c, t(2), add, x29, imm(-4)),
        store(0x10000046c, t(2), wzr),
        copy(0x100000470, w8, imm(1)),
        bin(0x100000474, t(3), add, sp, imm(8)),
        store(0x100000474, t(3), w8),
        goto(0x100000478, 0x10000047c),
        bin(0x10000047c, t(4), add, sp, imm(8)),
        load(0x10000047c, w8, t(4)),
        bin(0x100000480, w8, sub, w8, imm(0xf)),
        branch_if(0x100000484, BranchCondition::Gt, 0x100000524),
        goto(0x100000488, 0x10000048c),
        bin(0x10000048c, t(5), add, sp, imm(8)),
        load(0x10000048c, w8, t(5)),
        copy(0x100000490, w10, imm(3)),
        bin(0x100000494, w9, sdiv, w8, v(w10)),
        bin(0x100000498, w9, sdiv, w9, v(w10)),
        bin(0x10000049c, w8, sub, w8, v(w9)),
        branch_if(0x1000004a0, BranchCondition::NonZero(v(w8)), 0x1000004b8),
        goto(0x1000004a4, 0x1000004a8),
        copy(0x1000004a8, x0, imm(0x100000000)),
        bin(0x1000004ac, x0, add, x0, imm(0x540)),
        call(0x1000004b0, 0x100000534),
        goto(0x1000004b4, 0x100000504),
        bin(0x1000004b8, t(6), add, sp, imm(8)),
        load(0x1000004b8, w8, t(6)),
        copy(0x1000004bc, w10, imm(5)),
        bin(0x1000004c0, w9, sdiv, w8, v(w10)),
        bin(0x1000004c4, w9, sdiv, w9, v(w10)),
        bin(0x1000004c8, w8, sub, w8, v(w9)),
        branch_if(0x1000004cc, BranchCondition::NonZero(v(w8)), 0x1000004e4),
        goto(0x1000004d0, 0x1000004d4),
        copy(0x1000004d4, x0, imm(0x100000000)),
        bin(0x1000004d8, x0, add, x0, imm(0x545)),
        call(0x1000004dc, 0x100000534),
        goto(0x1000004e0, 0x100000500),
        bin(0x1000004e4, t(7), add, sp, imm(8)),
        load(0x1000004e4, w8, t(7)),
        copy(0x1000004e8, x9, v(sp)),
        bin(0x1000004ec, t(8), add, x9, imm(0)),
        store(0x1000004ec, t(8), x8),
        copy(0x1000004f0, x0, imm(0x100000000)),
        bin(0x1000004f4, x0, add, x0, imm(0x54a)),
        call(0x1000004f8, 0x100000534),
        goto(0x1000004fc, 0x100000500),
        goto(0x100000500, 0x100000504),
        copy(0x100000504, x0, imm(0x100000000)),
        bin(0x100000508, x0, add, x0, imm(0x54d)),
        call(0x10000050c, 0x100000534),
        goto(0x100000510, 0x100000514),
        bin(0x100000514, t(9), add, sp, imm(8)),
        load(0x100000514, w8, t(9)),
        bin(0x100000518, w8, add, w8, imm(1)),
        bin(0x10000051c, t(10), add, sp, imm(8)),
        store(0x10000051c, t(10), w8),
        goto(0x100000520, 0x10000047c),
        copy(0x100000524, r(Reg::W(0)), imm(0)),
        bin(0x100000528, t(11), add, sp, imm(0x10)),
        load(0x100000528, x29, t(11)),
        bin(0x100000528, t(12), add, sp, imm(0x18)),
        load(0x100000528, x30, t(12)),
        bin(0x10000052c, sp, add, sp, imm(0x20)),
        ret(0x100000530),
    ])
}

/// The structured listing of `main` that the README shows.
const README_LISTING: &str = "block13 _main:
  0x100000460: sp.1 = sub sp.0, 0x20
  0x100000464: t0.1 = add sp.1, 0x10
  0x100000464: store [t0.1], x29.0
  0x100000464: t1.1 = add sp.1, 0x18
  0x100000464: store [t1.1], x30.0
  0x100000468: x29.1 = add sp.1, 0x10
  0x10000046c: t2.1 = add x29.1, 0xfffffffffffffffc
  0x10000046c: store [t2.1], wzr.0
  0x100000470: w8.1 = copy 0x1
  0x100000474: t3.1 = add sp.1, 0x8
  0x100000474: store [t3.1], w8.1
  0x100000478: goto 0x10000047c
while (<= 0) {
    block2:
      0x10000047c: t4.1 = add sp.1, 0x8
      0x10000047c: w8.2 = load [t4.1]
      0x100000480: w8.3 = sub w8.2, 0xf
      0x100000484: if > 0 goto 0x100000524
    block8:
      0x100000488: goto 0x10000048c
    block0:
      0x10000048c: t5.1 = add sp.1, 0x8
      0x10000048c: w8.4 = load [t5.1]
      0x100000490: w10.1 = copy 0x3
      0x100000494: w9.1 = sdiv w8.4, w10.1
      0x100000498: w9.2 = sdiv w9.1, w10.1
      0x10000049c: w8.5 = sub w8.4, w9.2
      0x1000004a0: if w8.5 != 0 goto 0x1000004b8
    if (w8.5 != 0) {
        block7:
          0x1000004b8: t6.1 = add sp.1, 0x8
          0x1000004b8: w8.8 = load [t6.1]
          0x1000004bc: w10.2 = copy 0x5
          0x1000004c0: w9.3 = sdiv w8.8, w10.2
          0x1000004c4: w9.4 = sdiv w9.3, w10.2
          0x1000004c8: w8.9 = sub w8.8, w9.4
          0x1000004cc: if w8.9 != 0 goto 0x1000004e4
        if (w8.9 == 0) {
            block5:
              0x1000004d0: goto 0x1000004d4
            block1:
              0x1000004d4: x0.5 = copy 0x100000000
              0x1000004d8: x0.6 = add x0.5, 0x545
              0x1000004dc: call 0x100000534
              0x1000004e0: goto 0x100000500
        } else {
            block10:
              0x1000004e4: t7.1 = add sp.1, 0x8
              0x1000004e4: w8.10 = load [t7.1]
              0x1000004e8: x9.1 = copy sp.1
              0x1000004ec: t8.1 = add x9.1, 0x0
              0x1000004ec: store [t8.1], x8.0
              0x1000004f0: x0.7 = copy 0x100000000
              0x1000004f4: x0.8 = add x0.7, 0x54a
              0x1000004f8: call 0x100000534
              0x1000004fc: goto 0x100000500
        }
        block9:
          0x100000500: goto 0x100000504
    } else {
        block12:
          0x1000004a4: goto 0x1000004a8
        block11:
          0x1000004a8: x0.3 = copy 0x100000000
          0x1000004ac: x0.4 = add x0.3, 0x540
          0x1000004b0: call 0x100000534
          0x1000004b4: goto 0x100000504
    }
    block4:
      0x100000504: x0.1 = copy 0x100000000
      0x100000508: x0.2 = add x0.1, 0x54d
      0x10000050c: call 0x100000534
      0x100000510: goto 0x100000514
    block3:
      0x100000514: t9.1 = add sp.1, 0x8
      0x100000514: w8.6 = load [t9.1]
      0x100000518: w8.7 = add w8.6, 0x1
      0x10000051c: t10.1 = add sp.1, 0x8
      0x10000051c: store [t10.1], w8.7
      0x100000520: goto 0x10000047c
    continue;
}
block6:
  0x100000524: w0.1 = copy 0x0
  0x100000528: t11.1 = add sp.1, 0x10
  0x100000528: x29.2 = load [t11.1]
  0x100000528: t12.1 = add sp.1, 0x18
  0x100000528: x30.1 = load [t12.1]
  0x10000052c: sp.2 = add sp.1, 0x20
  0x100000530: ret
";

/// `text` without block numbers and variable versions, which depend on the order in which
/// blocks are numbered and visited.
fn without_numbering(text: &str) -> String {
    let chars: Vec<char> = text.chars().collect();
    let block: Vec<char> = "block".chars().collect();
    let mut out = String::new();
    let mut i = 0;
    while i < chars.len() {
        if chars[i..].starts_with(&block) {
            out.push_str("block");
            i += block.len();
            while i < chars.len() && chars[i].is_ascii_digit() {
                i += 1;
            }
        } else if chars[i] == '.' && i > 0 && chars[i - 1].is_ascii_alphanumeric() && i + 1 < chars.len()
            && chars[i + 1].is_ascii_digit()
        {
            i += 1;
            while i < chars.len() && chars[i].is_ascii_digit() {
                i += 1;
            }
        } else {
            out.push(chars[i]);
            i += 1;
        }
    }
    out
}

fn main_symbol() -> Vec<Symbol> {
    vec![Symbol { addr: 0x100000460, name: String::from("_main") }]
}

fn fizzbuzz_function() -> Function {
    let program = fizzbuzz_main();
    let symbols = main_symbol();
    assert!(is_recoverable(&program, &symbols));
    let icfg = recover_icfg(&program, &symbols);
    icfg.extract_function_by_label("_main").expect("_main labels a block")
}

#[test]
fn fizzbuzz_main_is_structured_as_the_readme_shows() {
    let func = fizzbuzz_function();
    assert!(func.blocks_well_formed());
    assert!(all_versions_zero(&func));
    let ssa = construct_ssa(&func).expect("liveness settles");
    let structured = structure_cfg(&ssa).expect("fizzbuzz main structures");
    let listing = render_structured_llir(&structured, &ssa);
    assert_eq!(without_numbering(&listing), without_numbering(README_LISTING), "listing:\n{}", listing);
}

#[test]
fn fizzbuzz_main_renames_the_entry_block_as_the_readme_shows() {
    let func = fizzbuzz_function();
    let ssa = construct_ssa(&func).expect("liveness settles");
    let structured = structure_cfg(&ssa).expect("fizzbuzz main structures");
    let listing = render_structured_llir(&structured, &ssa);
    let entry_lines: Vec<&str> = listing.lines().skip(1).take(11).collect();
    let readme_lines: Vec<&str> = README_LISTING.lines().skip(1).take(11).collect();
    assert_eq!(entry_lines, readme_lines);
    let exit_lines: Vec<&str> = listing.lines().rev().take(7).collect();
    let readme_exit: Vec<&str> = README_LISTING.lines().rev().take(7).collect();
    assert_eq!(exit_lines, readme_exit);
}

#[test]
fn ssa_of_fizzbuzz_main_defines_each_version_once() {
    let func = fizzbuzz_function();
    let ssa = construct_ssa(&func).expect("liveness settles");
    let mut seen = std::collections::HashSet::new();
    let mut count = 0;
    for block in ssa.blocks() {
        let phi_defs = block.phis().iter().map(|phi| phi.dst());
        let insn_defs = block.instructions().iter().filter_map(|insn| match insn.kind {
            InstructionKind::Assign { dst, .. } => Some(dst),
            _ => None,
        });
        for var in phi_defs.chain(insn_defs) {
            assert_ne!(var.version(), 0, "{}", var.to_text());
            assert!(seen.insert(var), "{} is defined twice", var.to_text());
            count += 1;
        }
    }
    assert_eq!(count, 44);
}
