use std::collections::HashMap;

use jitfive::op::{AsmOp, Choice, ClauseOp64};
use jitfive::scheduled::{
    axis_index, BinaryChoiceOpcode, BinaryOpcode, Op, Scheduled, UnaryOpcode,
};
use jitfive::ssa::SsaTape;
use jitfive::tape::{all_both, PointEval, Tape};

const X: u32 = 0;
const Y: u32 = 1;
const Z: u32 = 2;

fn vars() -> Vec<String> {
    vec!["X".to_string(), "Y".to_string(), "Z".to_string()]
}

fn schedule(tape: Vec<(u32, Op)>) -> Scheduled {
    let root = tape.last().unwrap().0;
    Scheduled::new(tape, vars(), root)
}

fn konst(c: f64) -> Op {
    Op::Const((c as f32).to_bits())
}

/// Evaluates an SSA tape, and records the choice made at each min / max in
/// execution order.
fn eval_ssa_choices(t: &SsaTape, x: f32, y: f32, z: f32) -> (f32, Vec<Choice>) {
    let mut slots = vec![0.0f32; t.tape.len()];
    let mut choices = vec![];
    let mut data = t.data.iter().rev();
    let mut next = || *data.next().unwrap();
    let pick = |a: f32, b: f32, is_min: bool| -> Choice {
        if a == b {
            Choice::Both
        } else if (a < b) == is_min {
            Choice::Left
        } else {
            Choice::Right
        }
    };
    for &op in t.tape.iter().rev() {
        let out = match op {
            ClauseOp64::Input => match next() {
                0 => x,
                1 => y,
                2 => z,
                _ => panic!(),
            },
            ClauseOp64::CopyImm => f32::from_bits(next()),
            ClauseOp64::NegReg
            | ClauseOp64::AbsReg
            | ClauseOp64::RecipReg
            | ClauseOp64::SqrtReg
            | ClauseOp64::SquareReg
            | ClauseOp64::CopyReg => {
                let a = slots[next() as usize];
                match op {
                    ClauseOp64::NegReg => -a,
                    ClauseOp64::AbsReg => a.abs(),
                    ClauseOp64::RecipReg => 1.0 / a,
                    ClauseOp64::SqrtReg => a.sqrt(),
                    ClauseOp64::SquareReg => a * a,
                    _ => a,
                }
            }
            ClauseOp64::AddRegReg
            | ClauseOp64::MulRegReg
            | ClauseOp64::SubRegReg
            | ClauseOp64::MinRegReg
            | ClauseOp64::MaxRegReg => {
                let rhs = slots[next() as usize];
                let lhs = slots[next() as usize];
                match op {
                    ClauseOp64::AddRegReg => lhs + rhs,
                    ClauseOp64::MulRegReg => lhs * rhs,
                    ClauseOp64::SubRegReg => lhs - rhs,
                    ClauseOp64::MinRegReg => {
                        choices.push(pick(lhs, rhs, true));
                        lhs.min(rhs)
                    }
                    _ => {
                        choices.push(pick(lhs, rhs, false));
                        lhs.max(rhs)
                    }
                }
            }
            _ => {
                let imm = f32::from_bits(next());
                let a = slots[next() as usize];
                match op {
                    ClauseOp64::AddRegImm => a + imm,
                    ClauseOp64::MulRegImm => a * imm,
                    ClauseOp64::SubImmReg => imm - a,
                    ClauseOp64::SubRegImm => a - imm,
                    ClauseOp64::MinRegImm => {
                        choices.push(pick(a, imm, true));
                        a.min(imm)
                    }
                    _ => {
                        choices.push(pick(a, imm, false));
                        a.max(imm)
                    }
                }
            }
        };
        slots[next() as usize] = out;
    }
    (slots[t.data[0] as usize], choices)
}

fn eval_ssa(t: &SsaTape, x: f32, y: f32, z: f32) -> f32 {
    eval_ssa_choices(t, x, y, z).0
}

/// Runs a register tape forward (it is stored in reverse); the result is in
/// register 0.
fn eval_asm(code: &[AsmOp], x: f32, y: f32, z: f32) -> f32 {
    let mut r = [0.0f32; 256];
    let mut mem: HashMap<u32, f32> = HashMap::new();
    for &op in code.iter().rev() {
        match op {
            AsmOp::Input(o, i) => r[o as usize] = [x, y, z][i as usize],
            AsmOp::CopyImm(o, i) => r[o as usize] = f32::from_bits(i),
            AsmOp::NegReg(o, a) => r[o as usize] = -r[a as usize],
            AsmOp::AbsReg(o, a) => r[o as usize] = r[a as usize].abs(),
            AsmOp::RecipReg(o, a) => r[o as usize] = 1.0 / r[a as usize],
            AsmOp::SqrtReg(o, a) => r[o as usize] = r[a as usize].sqrt(),
            AsmOp::SquareReg(o, a) => r[o as usize] = r[a as usize] * r[a as usize],
            AsmOp::CopyReg(o, a) => r[o as usize] = r[a as usize],
            AsmOp::AddRegImm(o, a, i) => r[o as usize] = r[a as usize] + f32::from_bits(i),
            AsmOp::MulRegImm(o, a, i) => r[o as usize] = r[a as usize] * f32::from_bits(i),
            AsmOp::SubImmReg(o, a, i) => r[o as usize] = f32::from_bits(i) - r[a as usize],
            AsmOp::SubRegImm(o, a, i) => r[o as usize] = r[a as usize] - f32::from_bits(i),
            AsmOp::MinRegImm(o, a, i) => r[o as usize] = r[a as usize].min(f32::from_bits(i)),
            AsmOp::MaxRegImm(o, a, i) => r[o as usize] = r[a as usize].max(f32::from_bits(i)),
            AsmOp::AddRegReg(o, a, b) => r[o as usize] = r[a as usize] + r[b as usize],
            AsmOp::MulRegReg(o, a, b) => r[o as usize] = r[a as usize] * r[b as usize],
            AsmOp::SubRegReg(o, a, b) => r[o as usize] = r[a as usize] - r[b as usize],
            AsmOp::MinRegReg(o, a, b) => r[o as usize] = r[a as usize].min(r[b as usize]),
            AsmOp::MaxRegReg(o, a, b) => r[o as usize] = r[a as usize].max(r[b as usize]),
            AsmOp::Load(o, m) => r[o as usize] = mem[&m],
            AsmOp::Store(o, m) => {
                mem.insert(m, r[o as usize]);
            }
        }
    }
    r[0]
}

/// Evaluates a schedule directly, node by node.
fn eval_schedule(s: &Scheduled, x: f32, y: f32, z: f32) -> f32 {
    let mut v: HashMap<u32, f32> = HashMap::new();
    for &(n, op) in s.tape.iter() {
        let out = match op {
            Op::Var(i) => [x, y, z][axis_index(&s.vars[i as usize]).unwrap() as usize],
            Op::Const(c) => f32::from_bits(c),
            Op::Unary(u, a) => {
                let a = v[&a];
                match u {
                    UnaryOpcode::Neg => -a,
                    UnaryOpcode::Abs => a.abs(),
                    UnaryOpcode::Recip => 1.0 / a,
                    UnaryOpcode::Sqrt => a.sqrt(),
                    UnaryOpcode::Square => a * a,
                }
            }
            Op::Binary(b, l, r) => {
                let (l, r) = (v[&l], v[&r]);
                match b {
                    BinaryOpcode::Add => l + r,
                    BinaryOpcode::Mul => l * r,
                    BinaryOpcode::Sub => l - r,
                }
            }
            Op::BinaryChoice(b, l, r, _) => {
                let (l, r) = (v[&l], v[&r]);
                match b {
                    BinaryChoiceOpcode::Min => l.min(r),
                    BinaryChoiceOpcode::Max => l.max(r),
                }
            }
        };
        v.insert(n, out);
    }
    v[&s.root]
}

/// `min(x + 1, y)`
fn min_sum_y() -> Scheduled {
    schedule(vec![
        (0, Op::Var(X)),
        (1, Op::Var(Y)),
        (2, konst(1.0)),
        (3, Op::Binary(BinaryOpcode::Add, 0, 2)),
        (4, Op::BinaryChoice(BinaryChoiceOpcode::Min, 3, 1, 0)),
    ])
}

/// `min(x, y)`
fn min_x_y() -> Scheduled {
    schedule(vec![
        (0, Op::Var(X)),
        (1, Op::Var(Y)),
        (2, Op::BinaryChoice(BinaryChoiceOpcode::Min, 0, 1, 0)),
    ])
}

/// `min(x, 1)`
fn min_x_one() -> Scheduled {
    schedule(vec![
        (0, Op::Var(X)),
        (1, konst(1.0)),
        (2, Op::BinaryChoice(BinaryChoiceOpcode::Min, 0, 1, 0)),
    ])
}

/// `max(sqrt(|z - 2|) * 3 - x, min(-(y^2), 1 - 1 / z)) + max(y, x)`, with
/// shared nodes.
fn big() -> Scheduled {
    schedule(vec![
        (10, Op::Var(Z)),
        (11, konst(2.0)),
        (12, Op::Binary(BinaryOpcode::Sub, 10, 11)),
        (13, Op::Unary(UnaryOpcode::Abs, 12)),
        (14, Op::Unary(UnaryOpcode::Sqrt, 13)),
        (15, konst(3.0)),
        (16, Op::Binary(BinaryOpcode::Mul, 15, 14)),
        (17, Op::Var(X)),
        (18, Op::Binary(BinaryOpcode::Sub, 16, 17)),
        (19, Op::Var(Y)),
        (20, Op::Unary(UnaryOpcode::Square, 19)),
        (21, Op::Unary(UnaryOpcode::Neg, 20)),
        (22, Op::Unary(UnaryOpcode::Recip, 10)),
        (23, konst(1.0)),
        (24, Op::Binary(BinaryOpcode::Sub, 23, 22)),
        (25, Op::BinaryChoice(BinaryChoiceOpcode::Min, 21, 24, 0)),
        (26, Op::BinaryChoice(BinaryChoiceOpcode::Max, 18, 25, 1)),
        (27, Op::BinaryChoice(BinaryChoiceOpcode::Max, 19, 17, 2)),
        (28, Op::Binary(BinaryOpcode::Add, 26, 27)),
    ])
}

const POINTS: [(f32, f32, f32); 6] = [
    (0.0, 0.0, 1.0),
    (1.0, 2.0, 3.0),
    (-1.5, 0.25, 4.0),
    (3.0, -2.0, -0.5),
    (0.5, 0.5, 2.0),
    (-4.0, 7.0, 9.0),
];

fn check_structure(t: &Tape) {
    let ssa = &t.ssa;
    let n = ssa.tape.len();
    assert!(n >= 1);
    assert_eq!(ssa.data[0], 0);
    let mut i = 0;
    let mut choices = 0;
    for &op in ssa.tape.iter() {
        assert!((ssa.data[i] as usize) < n);
        let width = match op {
            ClauseOp64::Input | ClauseOp64::CopyImm => 2,
            ClauseOp64::NegReg
            | ClauseOp64::AbsReg
            | ClauseOp64::RecipReg
            | ClauseOp64::SqrtReg
            | ClauseOp64::SquareReg
            | ClauseOp64::CopyReg => {
                assert!((ssa.data[i + 1] as usize) < n);
                2
            }
            ClauseOp64::AddRegReg
            | ClauseOp64::MulRegReg
            | ClauseOp64::SubRegReg
            | ClauseOp64::MinRegReg
            | ClauseOp64::MaxRegReg => {
                assert!((ssa.data[i + 1] as usize) < n);
                assert!((ssa.data[i + 2] as usize) < n);
                3
            }
            _ => {
                assert!((ssa.data[i + 1] as usize) < n);
                3
            }
        };
        if matches!(
            op,
            ClauseOp64::MinRegImm
                | ClauseOp64::MaxRegImm
                | ClauseOp64::MinRegReg
                | ClauseOp64::MaxRegReg
        ) {
            choices += 1;
        }
        i += width;
    }
    assert_eq!(i, ssa.data.len());
    assert_eq!(choices, ssa.choice_count);
    // no dead clause: every output slot but the root's is read nearer the root
    let mut read: Vec<u32> = vec![];
    let mut i = 0;
    for (q, &op) in ssa.tape.iter().enumerate() {
        if q > 0 {
            assert!(read.contains(&ssa.data[i]));
        }
        let (width, args) = match op {
            ClauseOp64::Input | ClauseOp64::CopyImm => (2, 0),
            ClauseOp64::NegReg
            | ClauseOp64::AbsReg
            | ClauseOp64::RecipReg
            | ClauseOp64::SqrtReg
            | ClauseOp64::SquareReg
            | ClauseOp64::CopyReg => (2, 1),
            ClauseOp64::AddRegReg
            | ClauseOp64::MulRegReg
            | ClauseOp64::SubRegReg
            | ClauseOp64::MinRegReg
            | ClauseOp64::MaxRegReg => (3, 2),
            _ => (3, 1),
        };
        for j in 0..args {
            read.push(ssa.data[i + 1 + j]);
        }
        i += width;
    }
    let mut computing = 0;
    for &op in t.asm_tape.iter() {
        let regs: Vec<u8> = match op {
            AsmOp::Input(o, _) | AsmOp::CopyImm(o, _) => vec![o],
            AsmOp::Load(o, _) | AsmOp::Store(o, _) => vec![o],
            AsmOp::NegReg(o, a)
            | AsmOp::AbsReg(o, a)
            | AsmOp::RecipReg(o, a)
            | AsmOp::SqrtReg(o, a)
            | AsmOp::SquareReg(o, a)
            | AsmOp::CopyReg(o, a) => vec![o, a],
            AsmOp::AddRegImm(o, a, _)
            | AsmOp::MulRegImm(o, a, _)
            | AsmOp::SubImmReg(o, a, _)
            | AsmOp::SubRegImm(o, a, _)
            | AsmOp::MinRegImm(o, a, _)
            | AsmOp::MaxRegImm(o, a, _) => vec![o, a],
            AsmOp::AddRegReg(o, a, b)
            | AsmOp::MulRegReg(o, a, b)
            | AsmOp::SubRegReg(o, a, b)
            | AsmOp::MinRegReg(o, a, b)
            | AsmOp::MaxRegReg(o, a, b) => vec![o, a, b],
        };
        for r in regs {
            assert!(r < t.reg_limit);
        }
        if !matches!(op, AsmOp::Load(..) | AsmOp::Store(..)) {
            computing += 1;
        }
    }
    assert_eq!(computing, n);
}

#[test]
fn basic_interpreter() {
    let scheduled = min_sum_y();
    let tape = Tape::new(&scheduled);
    assert_eq!(eval_ssa(&tape.ssa, 1.0, 2.0, 0.0), 2.0);
    assert_eq!(eval_ssa(&tape.ssa, 1.0, 3.0, 0.0), 2.0);
    assert_eq!(eval_ssa(&tape.ssa, 3.0, 3.5, 0.0), 3.5);
}

#[test]
fn test_push() {
    let scheduled = min_x_y();
    let tape = Tape::new(&scheduled);
    assert_eq!(eval_ssa(&tape.ssa, 1.0, 2.0, 0.0), 1.0);
    assert_eq!(eval_ssa(&tape.ssa, 3.0, 2.0, 0.0), 2.0);

    let t = tape.simplify(&[Choice::Left]);
    assert_eq!(eval_ssa(&t.ssa, 1.0, 2.0, 0.0), 1.0);
    assert_eq!(eval_ssa(&t.ssa, 3.0, 2.0, 0.0), 3.0);

    let t = tape.simplify(&[Choice::Right]);
    assert_eq!(eval_ssa(&t.ssa, 1.0, 2.0, 0.0), 2.0);
    assert_eq!(eval_ssa(&t.ssa, 3.0, 2.0, 0.0), 2.0);

    let scheduled = min_x_one();
    let tape = Tape::new(&scheduled);
    assert_eq!(eval_ssa(&tape.ssa, 0.5, 0.0, 0.0), 0.5);
    assert_eq!(eval_ssa(&tape.ssa, 3.0, 0.0, 0.0), 1.0);

    let t = tape.simplify(&[Choice::Left]);
    assert_eq!(eval_ssa(&t.ssa, 0.5, 0.0, 0.0), 0.5);
    assert_eq!(eval_ssa(&t.ssa, 3.0, 0.0, 0.0), 3.0);

    let t = tape.simplify(&[Choice::Right]);
    assert_eq!(eval_ssa(&t.ssa, 0.5, 0.0, 0.0), 1.0);
    assert_eq!(eval_ssa(&t.ssa, 3.0, 0.0, 0.0), 1.0);
}

#[test]
fn min_sum_left_and_right() {
    let tape = Tape::new(&min_sum_y());
    let t = tape.simplify(&[Choice::Left]);
    assert_eq!(eval_ssa(&t.ssa, 1.0, 2.0, 0.0), 2.0);
    assert_eq!(eval_ssa(&t.ssa, 3.0, 2.0, 0.0), 4.0);
    assert_eq!(t.ssa.choice_count, 0);
    let t = tape.simplify(&[Choice::Right]);
    assert_eq!(eval_ssa(&t.ssa, 1.0, 2.0, 0.0), 2.0);
    assert_eq!(eval_ssa(&t.ssa, 3.0, 2.0, 0.0), 2.0);
    assert_eq!(t.ssa.tape, vec![ClauseOp64::Input]);
    assert_eq!(t.ssa.data, vec![0, 1]);
}

#[test]
fn right_of_immediate_folds_to_copy() {
    let tape = Tape::new(&min_x_one());
    let t = tape.simplify(&[Choice::Right]);
    assert_eq!(t.ssa.tape, vec![ClauseOp64::CopyImm]);
    assert_eq!(t.ssa.data, vec![0, 1.0f32.to_bits()]);
    assert_eq!(eval_ssa(&t.ssa, 0.5, 0.0, 0.0), 1.0);
    assert_eq!(t.asm_tape, vec![AsmOp::CopyImm(0, 1.0f32.to_bits())]);
}

#[test]
fn single_register_spills() {
    let tape = Tape::new_with_reg_limit(&min_x_y(), 1);
    check_structure(&tape);
    assert!(tape.asm_tape.iter().any(|op| matches!(op, AsmOp::Load(..))));
    assert!(tape.asm_tape.iter().any(|op| matches!(op, AsmOp::Store(..))));
    assert!(tape.asm_tape.len() > tape.ssa.tape.len());
    let t = tape.simplify(&[Choice::Left]);
    check_structure(&t);
    assert_eq!(t.reg_limit, 1);
    assert_eq!(eval_asm(&t.asm_tape, 3.0, 2.0, 0.0), 3.0);
    assert_eq!(eval_ssa(&t.ssa, 3.0, 2.0, 0.0), 3.0);
}

#[test]
fn two_registers_spill_dag() {
    let s = big();
    let tape = Tape::new_with_reg_limit(&s, 2);
    check_structure(&tape);
    assert!(tape.asm_tape.iter().any(|op| matches!(op, AsmOp::Load(..))));
    assert!(tape.asm_tape.iter().any(|op| matches!(op, AsmOp::Store(..))));
    let wide = Tape::new(&s);
    assert_eq!(tape.ssa.tape, wide.ssa.tape);
    assert_eq!(tape.ssa.data, wide.ssa.data);
}

#[test]
fn three_registers_run_spilled_dag() {
    let s = big();
    let tape = Tape::new_with_reg_limit(&s, 3);
    check_structure(&tape);
    for &(x, y, z) in POINTS.iter() {
        let want = eval_schedule(&s, x, y, z);
        assert_eq!(eval_asm(&tape.asm_tape, x, y, z).to_bits(), want.to_bits());
    }
}

#[test]
fn two_registers_run_spilled_dag() {
    let s = big();
    let tape = Tape::new_with_reg_limit(&s, 2);
    for &(x, y, z) in POINTS.iter() {
        let want = eval_schedule(&s, x, y, z);
        assert_eq!(eval_asm(&tape.asm_tape, x, y, z).to_bits(), want.to_bits());
    }
}

#[test]
fn few_registers_run_simplified_tapes() {
    let s = big();
    for limit in [2u8, 3, 4] {
        let tape = Tape::new_with_reg_limit(&s, limit);
        for &(x, y, z) in POINTS.iter() {
            let (want, choices) = eval_ssa_choices(&tape.ssa, x, y, z);
            assert_eq!(eval_asm(&tape.asm_tape, x, y, z).to_bits(), want.to_bits());
            let t = tape.simplify(&choices);
            check_structure(&t);
            assert_eq!(eval_asm(&t.asm_tape, x, y, z).to_bits(), want.to_bits());
        }
    }
}

#[test]
fn single_register_runs_chain() {
    // sqrt(|-(x * 2)| + 1), then squared: one value live at a time
    let s = schedule(vec![
        (0, Op::Var(X)),
        (1, konst(2.0)),
        (2, Op::Binary(BinaryOpcode::Mul, 0, 1)),
        (3, Op::Unary(UnaryOpcode::Neg, 2)),
        (4, Op::Unary(UnaryOpcode::Abs, 3)),
        (5, konst(1.0)),
        (6, Op::Binary(BinaryOpcode::Add, 4, 5)),
        (7, Op::Unary(UnaryOpcode::Sqrt, 6)),
        (8, Op::Unary(UnaryOpcode::Square, 7)),
    ]);
    let tape = Tape::new_with_reg_limit(&s, 1);
    check_structure(&tape);
    for &(x, y, z) in POINTS.iter() {
        let want = eval_schedule(&s, x, y, z);
        assert_eq!(eval_asm(&tape.asm_tape, x, y, z), want);
    }
}

#[test]
fn new_matches_direct_evaluation() {
    for s in [min_sum_y(), min_x_y(), min_x_one(), big()] {
        let tape = Tape::new(&s);
        for &(x, y, z) in POINTS.iter() {
            let want = eval_schedule(&s, x, y, z);
            assert_eq!(eval_ssa(&tape.ssa, x, y, z).to_bits(), want.to_bits());
            assert_eq!(eval_asm(&tape.asm_tape, x, y, z).to_bits(), want.to_bits());
        }
    }
}

#[test]
fn simplify_keeps_value_at_sample() {
    for s in [min_sum_y(), min_x_y(), min_x_one(), big()] {
        let tape = Tape::new(&s);
        for &(x, y, z) in POINTS.iter() {
            let (want, mut choices) = eval_ssa_choices(&tape.ssa, x, y, z);
            assert_eq!(choices.len(), tape.ssa.choice_count);
            let t = tape.simplify(&choices);
            check_structure(&t);
            assert_eq!(eval_ssa(&t.ssa, x, y, z), want);
            assert_eq!(eval_asm(&t.asm_tape, x, y, z), want);
            // and once more, on the simplified tape
            let (again, c2) = eval_ssa_choices(&t.ssa, x, y, z);
            assert_eq!(again, want);
            choices = c2;
            let t2 = t.simplify(&choices);
            assert_eq!(eval_ssa(&t2.ssa, x, y, z), want);
        }
    }
}

#[test]
fn all_both_is_identity_on_new_tape() {
    for s in [min_sum_y(), min_x_y(), min_x_one(), big()] {
        let tape = Tape::new(&s);
        let again = tape.simplify(&all_both(tape.ssa.choice_count));
        assert_eq!(again.ssa.tape, tape.ssa.tape);
        assert_eq!(again.ssa.data, tape.ssa.data);
        assert_eq!(again.ssa.choice_count, tape.ssa.choice_count);
        assert_eq!(again.asm_tape, tape.asm_tape);
    }
}

#[test]
fn structure_after_simplify() {
    let s = big();
    for limit in [1u8, 2, 3, 255] {
        let tape = Tape::new_with_reg_limit(&s, limit);
        check_structure(&tape);
        for c in [Choice::Left, Choice::Right, Choice::Both] {
            let t = tape.simplify(&[c, Choice::Both, c]);
            check_structure(&t);
            let t = tape.simplify_with_reg_limit(&[Choice::Right, c, Choice::Left], limit);
            check_structure(&t);
        }
    }
}

#[test]
fn no_spill_means_one_instruction_per_clause() {
    let tape = Tape::new(&big());
    assert_eq!(tape.asm_tape.len(), tape.ssa.tape.len());
    assert_eq!(tape.reg_limit, 255);
}

#[test]
fn no_choices_takes_empty_slice() {
    let s = schedule(vec![
        (0, Op::Var(Y)),
        (1, konst(2.5)),
        (2, Op::Binary(BinaryOpcode::Sub, 1, 0)),
    ]);
    let tape = Tape::new(&s);
    assert_eq!(tape.choice_count(), 0);
    assert_eq!(tape.ssa.tape, vec![ClauseOp64::SubImmReg, ClauseOp64::Input]);
    let t = tape.simplify(&[]);
    assert_eq!(t.ssa.tape, tape.ssa.tape);
    assert_eq!(eval_ssa(&t.ssa, 0.0, 1.0, 0.0), 1.5);
}

#[test]
fn left_drops_right_branch() {
    // max(x + 1, sqrt(y))
    let s = schedule(vec![
        (0, Op::Var(X)),
        (1, konst(1.0)),
        (2, Op::Binary(BinaryOpcode::Add, 0, 1)),
        (3, Op::Var(Y)),
        (4, Op::Unary(UnaryOpcode::Sqrt, 3)),
        (5, Op::BinaryChoice(BinaryChoiceOpcode::Max, 2, 4, 0)),
    ]);
    let tape = Tape::new(&s);
    assert_eq!(tape.ssa.tape.len(), 5);
    let t = tape.simplify(&[Choice::Left]);
    assert_eq!(t.ssa.tape, vec![ClauseOp64::AddRegImm, ClauseOp64::Input]);
    assert_eq!(t.ssa.data, vec![0, 1, 1.0f32.to_bits(), 1, 0]);
    assert_eq!(t.ssa.choice_count, 0);
    assert_eq!(eval_ssa(&t.ssa, 2.0, 100.0, 0.0), 3.0);
}

#[test]
fn lowering_layout() {
    let tape = SsaTape::new(&min_sum_y());
    assert_eq!(
        tape.tape,
        vec![ClauseOp64::MinRegReg, ClauseOp64::AddRegImm, ClauseOp64::Input, ClauseOp64::Input]
    );
    assert_eq!(tape.data, vec![3, 2, 1, 2, 0, 1.0f32.to_bits(), 1, 1, 0, 0]);
    assert_eq!(tape.choice_count, 1);
}

#[test]
fn immediate_on_left_of_choice() {
    // max(0.5, x): the immediate may stand on either side
    let s = schedule(vec![
        (0, konst(0.5)),
        (1, Op::Var(X)),
        (2, Op::BinaryChoice(BinaryChoiceOpcode::Max, 0, 1, 0)),
    ]);
    let tape = SsaTape::new(&s);
    assert_eq!(tape.tape, vec![ClauseOp64::MaxRegImm, ClauseOp64::Input]);
    assert_eq!(tape.data, vec![1, 0, 0.5f32.to_bits(), 0, 0]);
}

#[test]
fn copy_clause_collapses_or_stays() {
    // min(x, y) + x, then Left: the copy of x collapses into x
    let s = schedule(vec![
        (0, Op::Var(X)),
        (1, Op::Var(Y)),
        (2, Op::BinaryChoice(BinaryChoiceOpcode::Min, 0, 1, 0)),
        (3, Op::Binary(BinaryOpcode::Add, 2, 0)),
    ]);
    let tape = Tape::new(&s);
    let t = tape.simplify(&[Choice::Left]);
    check_structure(&t);
    assert!(t.ssa.tape.contains(&ClauseOp64::CopyReg));
    assert_eq!(eval_ssa(&t.ssa, 3.0, 2.0, 0.0), 6.0);
    assert_eq!(eval_asm(&t.asm_tape, 3.0, 2.0, 0.0), 6.0);
    let t2 = t.simplify(&[]);
    assert_eq!(t2.ssa.tape, t.ssa.tape);
    assert_eq!(eval_ssa(&t2.ssa, 3.0, 2.0, 0.0), 6.0);
}

#[test]
fn axis_names() {
    assert_eq!(axis_index(&"X".to_string()), Some(0));
    assert_eq!(axis_index(&"Y".to_string()), Some(1));
    assert_eq!(axis_index(&"Z".to_string()), Some(2));
    assert_eq!(axis_index(&"W".to_string()), None);
    assert_eq!(axis_index(&"XY".to_string()), None);
    assert_eq!(axis_index(&"".to_string()), None);
}

#[test]
fn variable_order_follows_names() {
    let s = Scheduled::new(
        vec![
            (0, Op::Var(0)),
            (1, Op::Var(1)),
            (2, Op::Binary(BinaryOpcode::Sub, 0, 1)),
        ],
        vec!["Z".to_string(), "X".to_string()],
        2,
    );
    let tape = Tape::new(&s);
    assert_eq!(eval_ssa(&tape.ssa, 1.0, 0.0, 5.0), 4.0);
}

#[test]
fn point_eval_choices() {
    let tape = Tape::new(&big());
    let mut p = PointEval::from(tape);
    assert_eq!(p.choices.len(), 3);
    assert!(p.choices.iter().all(|c| *c == Choice::Unknown));
    let (want, choices) = eval_ssa_choices(&p.tape.ssa, 1.0, 2.0, 3.0);
    p.choices = choices;
    let t = p.simplify(4);
    assert_eq!(t.reg_limit, 4);
    check_structure(&t);
    assert_eq!(eval_asm(&t.asm_tape, 1.0, 2.0, 3.0), want);
    p.reset_choices();
    assert_eq!(p.choices.len(), 3);
    assert!(p.choices.iter().all(|c| *c == Choice::Unknown));
}
