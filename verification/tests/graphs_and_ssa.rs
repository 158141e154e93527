use chibidec::cfg_recovery::cfg::EdgeLabel;
use chibidec::cfg_structuring::render::render_structured_llir;
use chibidec::cfg_structuring::structure_cfg;
use chibidec::graph::{contains_edge, contains_node, neighbors_directed, Direction, GraphError, IndexedGraph};
use chibidec::llir::icfg::Icfg;
use chibidec::llir::ssa::construct_ssa;
use chibidec::llir::{
    BinOp, BranchCondition, BranchTarget, Instruction, InstructionKind, PhiFunc, Place, Reg, Rhs, Terminator, TerminatorKind,
    Value, Var,
};

#[test]
fn indexed_graph_finds_nodes_by_key_and_drops_edges_with_nodes() {
    let mut g = IndexedGraph::new();
    let a = g.add_node(10);
    let b = g.add_node(20);
    assert_eq!(g.node_for_key(10), Some(a));
    assert_eq!(g.node_for_key(20), Some(b));
    assert_eq!(g.key_for_node(b), Some(20));
    assert_eq!(g.node_for_key(30), None);
    let e = g.add_edge(a, b, EdgeLabel::Unconditional);
    assert!(contains_edge(g.graph(), a, b));
    assert!(!contains_edge(g.graph(), b, a));
    assert_eq!(neighbors_directed(g.graph(), a, Direction::Outgoing), vec![b]);
    assert_eq!(neighbors_directed(g.graph(), b, Direction::Incoming), vec![a]);
    assert!(matches!(g.remove_edge(e), Some(EdgeLabel::Unconditional)));
    assert!(g.remove_edge(e).is_none());
    g.add_edge(a, b, EdgeLabel::TrueBranch(None));
    assert_eq!(g.remove_node(20), Ok(()));
    assert!(!contains_node(g.graph(), b));
    assert!(neighbors_directed(g.graph(), a, Direction::Outgoing).is_empty());
    assert_eq!(g.node_for_key(20), None);
    assert_eq!(g.remove_node(20), Err(GraphError::KeyNotFound { key: 20 }));
}

#[test]
fn phi_arguments_are_kept_in_block_order_and_replaced() {
    let x0 = Place::Reg(Reg::X(0));
    let mut phi = PhiFunc::new(Var::with_version(x0, 3));
    phi.add_arg(2, Value::Var(Var::with_version(x0, 2)));
    phi.add_arg(1, Value::Var(Var::with_version(x0, 1)));
    phi.add_arg(2, Value::Imm(7));
    assert!(phi.is_well_formed());
    assert_eq!(phi.to_text(), "x0.3 = phi block1:x0.1, block2:0x7");
}

fn copy(addr: u64, reg: Reg, imm: i64) -> Instruction {
    Instruction::new(
        addr,
        InstructionKind::Assign { dst: Var::from_place(Place::Reg(reg)), src: Rhs::Copy { src: Value::Imm(imm) } },
    )
}

fn goto(addr: u64, target: u64) -> Terminator {
    Terminator::new(addr, TerminatorKind::Branch { target: BranchTarget::Imm(target) })
}

/// A diamond: the head tests `w8`, each arm sets `x0`, and the join reads it.
fn diamond() -> Icfg {
    let mut icfg = Icfg::new();
    let w8 = Var::from_place(Place::Reg(Reg::W(8)));
    let x0 = Var::from_place(Place::Reg(Reg::X(0)));
    let head = icfg.add_block(
        vec![copy(0x1000, Reg::W(8), 1)],
        Terminator::new(
            0x1004,
            TerminatorKind::ConditionalBranch { cond: BranchCondition::NonZero(Value::Var(w8)), target: BranchTarget::Imm(0x1010) },
        ),
    );
    let other = icfg.add_block(vec![copy(0x1008, Reg::X(0), 2)], goto(0x100c, 0x1018));
    let taken = icfg.add_block(vec![copy(0x1010, Reg::X(0), 3)], goto(0x1014, 0x1018));
    let join = icfg.add_block(
        vec![Instruction::new(
            0x1018,
            InstructionKind::Assign {
                dst: Var::from_place(Place::Reg(Reg::X(1))),
                src: Rhs::BinOp { op: BinOp::Add, lhs: Value::Var(x0), rhs: Value::Imm(0) },
            },
        )],
        Terminator::new(0x101c, TerminatorKind::Ret),
    );
    icfg.add_edge(head, taken, EdgeLabel::TrueBranch(None));
    icfg.add_edge(head, other, EdgeLabel::FalseBranch(None));
    icfg.add_edge(other, join, EdgeLabel::Unconditional);
    icfg.add_edge(taken, join, EdgeLabel::Unconditional);
    icfg.set_block_label(0, "f");
    icfg
}

#[test]
fn extraction_by_an_unknown_label_gives_nothing() {
    assert!(diamond().extract_function_by_label("g").is_none());
    assert!(diamond().extract_function(4).is_none());
}

#[test]
fn extraction_names_the_function_after_its_entry_block() {
    let f = diamond().extract_function_by_label("f").expect("block 0 is labelled f");
    assert_eq!(f.name(), "f");
    assert_eq!(f.block_count(), 4);
    let g = diamond().extract_function(1).expect("block 1 exists");
    assert_eq!(g.name(), "entry");
    assert_eq!(g.cfg().graph().node_count(), 2);
}

#[test]
fn ssa_puts_a_phi_at_the_join_of_the_diamond() {
    let f = diamond().extract_function_by_label("f").unwrap();
    let ssa = construct_ssa(&f).expect("liveness settles");
    let join = ssa.block(3);
    assert_eq!(join.phis().len(), 1);
    let text = join.to_text();
    assert!(text.starts_with("block3:\n  x0."), "{}", text);
    assert!(text.contains(" = phi block1:x0."), "{}", text);
    assert!(text.contains(", block2:x0."), "{}", text);
    assert_eq!(ssa.block(0).to_text(), "block0 f:\n  0x1000: w8.1 = copy 0x1\n  0x1004: if w8.1 != 0 goto 0x1010\n");
    for b in 0..3 {
        assert!(ssa.block(b).phis().is_empty());
    }
}

#[test]
fn the_diamond_is_structured_as_an_if_with_an_else() {
    let f = diamond().extract_function_by_label("f").unwrap();
    let ssa = construct_ssa(&f).unwrap();
    let structured = structure_cfg(&ssa).expect("a diamond structures");
    let listing = render_structured_llir(&structured, &ssa);
    assert!(listing.starts_with("block0 f:\n  0x1000: w8.1 = copy 0x1\n  0x1004: if w8.1 != 0 goto 0x1010\nif (w8.1 "), "{}", listing);
    assert!(listing.contains("\n} else {\n    block"), "{}", listing);
    assert!(listing.ends_with("}\nblock3:\n  x0.3 = phi block1:x0.1, block2:x0.2\n  0x1018: x1.1 = add x0.3, 0x0\n  0x101c: ret\n")
        || listing.ends_with("}\nblock3:\n  x0.3 = phi block1:x0.2, block2:x0.1\n  0x1018: x1.1 = add x0.3, 0x0\n  0x101c: ret\n"), "{}", listing);
}
