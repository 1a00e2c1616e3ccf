//! A scheduled expression: the input of tape construction.
use vstd::prelude::*;

use crate::op::ClauseOp64;
use crate::ssa::MAX_TAPE_LEN;

verus! {

/// Index of a node of the expression graph
pub type NodeIndex = u32;

/// Index of a variable name in `Scheduled::vars`
pub type VarIndex = u32;

/// Index of a choice in the expression graph
pub type ChoiceIndex = u32;

#[derive(Copy, Clone, Debug, PartialEq, Eq, Structural)]
pub enum UnaryOpcode {
    Neg,
    Abs,
    Recip,
    Sqrt,
    Square,
}

#[derive(Copy, Clone, Debug, PartialEq, Eq, Structural)]
pub enum BinaryOpcode {
    Add,
    Mul,
    Sub,
}

#[derive(Copy, Clone, Debug, PartialEq, Eq, Structural)]
pub enum BinaryChoiceOpcode {
    Min,
    Max,
}

/// One scheduled operation.
///
/// A constant holds the bit pattern of its value narrowed to `f32`.
#[derive(Copy, Clone, Debug, PartialEq, Eq, Structural)]
pub enum Op {
    Var(VarIndex),
    Const(u32),
    Unary(UnaryOpcode, NodeIndex),
    Binary(BinaryOpcode, NodeIndex, NodeIndex),
    BinaryChoice(BinaryChoiceOpcode, NodeIndex, NodeIndex, ChoiceIndex),
}

/// Input axis named by a variable: `X`, `Y` and `Z` are 0, 1 and 2.
pub open spec fn axis_of(name: Seq<char>) -> Option<u32> {
    if name == seq!['X'] {
        Some(0u32)
    } else if name == seq!['Y'] {
        Some(1u32)
    } else if name == seq!['Z'] {
        Some(2u32)
    } else {
        None
    }
}

/// Number of operations in `t` that are not constants.
pub open spec fn non_const_count(t: Seq<(NodeIndex, Op)>) -> nat
    decreases t.len(),
{
    if t.len() == 0 {
        0
    } else {
        non_const_count(t.drop_last()) + if t.last().1 is Const { 0nat } else { 1nat }
    }
}

/// Number of `min` / `max` operations in `t`.
pub open spec fn choice_count_of(t: Seq<(NodeIndex, Op)>) -> nat
    decreases t.len(),
{
    if t.len() == 0 {
        0
    } else {
        choice_count_of(t.drop_last()) + if t.last().1 is BinaryChoice { 1nat } else { 0nat }
    }
}

/// A set of instructions in topological order: every node comes after the
/// nodes it reads.
#[derive(Debug)]
pub struct Scheduled {
    pub tape: Vec<(NodeIndex, Op)>,
    /// Variable names, indexed by `VarIndex`
    pub vars: Vec<String>,
    pub root: NodeIndex,
}

impl Scheduled {
    pub fn new(tape: Vec<(NodeIndex, Op)>, vars: Vec<String>, root: NodeIndex) -> (r: Self)
        ensures
            r.tape@ == tape@,
            r.vars@ == vars@,
            r.root == root,
    {
        Self { tape, vars, root }
    }

    /// Node `a` is computed into a slot before position `p`.
    pub open spec fn slot_before(&self, a: NodeIndex, p: int) -> bool {
        exists|q: int| 0 <= q < p && #[trigger] self.tape@[q].0 == a && !(self.tape@[q].1 is Const)
    }

    /// Node `a` is a constant defined before position `p`.
    pub open spec fn imm_before(&self, a: NodeIndex, p: int) -> bool {
        exists|q: int| 0 <= q < p && #[trigger] self.tape@[q].0 == a && self.tape@[q].1 is Const
    }

    /// Position of node `a` in the schedule.
    pub open spec fn pos_of(&self, a: NodeIndex) -> int {
        choose|q: int| 0 <= q < self.tape@.len() && #[trigger] self.tape@[q].0 == a
    }

    /// Index, in execution order, of the clause that position `p` lowers to.
    pub open spec fn clause_index(&self, p: int) -> nat {
        non_const_count(self.tape@.take(p))
    }

    /// Node `a` is a constant.
    pub open spec fn is_imm(&self, a: NodeIndex) -> bool {
        self.tape@[self.pos_of(a)].1 is Const
    }

    /// The word that stands for node `a` in a clause: its slot, or the bits
    /// of its constant value.
    pub open spec fn word(&self, a: NodeIndex) -> u32 {
        match self.tape@[self.pos_of(a)].1 {
            Op::Const(c) => c,
            _ => self.clause_index(self.pos_of(a)) as u32,
        }
    }

    /// Opcode and operand words of the clause that position `p` lowers to;
    /// an immediate is always the last word.
    pub open spec fn lowered(&self, p: int) -> (ClauseOp64, u32, u32) {
        match self.tape@[p].1 {
            Op::Var(v) => (ClauseOp64::Input, match axis_of(self.vars@[v as int]@) {
                Some(axis) => axis,
                None => 0,
            }, 0),
            Op::Const(_) => (ClauseOp64::CopyImm, 0, 0),
            Op::Unary(u, a) => (
                match u {
                    UnaryOpcode::Neg => ClauseOp64::NegReg,
                    UnaryOpcode::Abs => ClauseOp64::AbsReg,
                    UnaryOpcode::Recip => ClauseOp64::RecipReg,
                    UnaryOpcode::Sqrt => ClauseOp64::SqrtReg,
                    UnaryOpcode::Square => ClauseOp64::SquareReg,
                },
                self.word(a),
                0,
            ),
            Op::Binary(b, l, r) => {
                let (rr, ri, ir) = match b {
                    BinaryOpcode::Add => (ClauseOp64::AddRegReg, ClauseOp64::AddRegImm, ClauseOp64::AddRegImm),
                    BinaryOpcode::Mul => (ClauseOp64::MulRegReg, ClauseOp64::MulRegImm, ClauseOp64::MulRegImm),
                    BinaryOpcode::Sub => (ClauseOp64::SubRegReg, ClauseOp64::SubRegImm, ClauseOp64::SubImmReg),
                };
                if self.is_imm(l) {
                    (ir, self.word(r), self.word(l))
                } else if self.is_imm(r) {
                    (ri, self.word(l), self.word(r))
                } else {
                    (rr, self.word(l), self.word(r))
                }
            },
            Op::BinaryChoice(b, l, r, _) => {
                let (rr, ri) = match b {
                    BinaryChoiceOpcode::Min => (ClauseOp64::MinRegReg, ClauseOp64::MinRegImm),
                    BinaryChoiceOpcode::Max => (ClauseOp64::MaxRegReg, ClauseOp64::MaxRegImm),
                };
                if self.is_imm(l) {
                    (ri, self.word(r), self.word(l))
                } else if self.is_imm(r) {
                    (ri, self.word(l), self.word(r))
                } else {
                    (rr, self.word(l), self.word(r))
                }
            },
        }
    }

    /// The operation at `p` is one that tape construction can encode.
    pub open spec fn op_wf(&self, p: int) -> bool {
        match self.tape@[p].1 {
            Op::Var(v) => v < self.vars@.len() && axis_of(self.vars@[v as int]@) is Some,
            Op::Const(_) => true,
            Op::Unary(_, a) => self.slot_before(a, p),
            Op::Binary(_, l, r) | Op::BinaryChoice(_, l, r, _) => {
                &&& self.slot_before(l, p) || self.imm_before(l, p)
                &&& self.slot_before(r, p) || self.imm_before(r, p)
                &&& self.slot_before(l, p) || self.slot_before(r, p)
            },
        }
    }

    /// The schedule is well formed: it is non-empty and within the size
    /// limit, ends with its root, which is not a constant, names each node
    /// once, reads only earlier nodes, names only the variables `X`, `Y` and
    /// `Z`, and never applies an operation to constants alone.
    pub open spec fn wf(&self) -> bool {
        let t = self.tape@;
        &&& 1 <= t.len() <= MAX_TAPE_LEN
        &&& t.last().0 == self.root
        &&& !(t.last().1 is Const)
        &&& forall|p: int, q: int| 0 <= p < q < t.len() ==> #[trigger] t[p].0 != #[trigger] t[q].0
        &&& forall|p: int| 0 <= p < t.len() ==> #[trigger] self.op_wf(p)
    }
}

/// Extending a prefix of a schedule by one operation adds that operation's
/// counts.
pub proof fn lemma_sched_step(t: Seq<(NodeIndex, Op)>, p: int)
    requires
        0 <= p < t.len(),
    ensures
        non_const_count(t.take(p + 1)) == non_const_count(t.take(p)) + if t[p].1 is Const { 0nat } else { 1nat },
        choice_count_of(t.take(p + 1)) == choice_count_of(t.take(p)) + if t[p].1 is BinaryChoice { 1nat } else { 0nat },
{
    assert(t.take(p + 1).drop_last() =~= t.take(p));
}

/// A later prefix holds at least as many non-constant operations, and one
/// more past a non-constant one.
pub proof fn lemma_sched_mono(t: Seq<(NodeIndex, Op)>, q: int, m: int)
    requires
        0 <= q < m <= t.len(),
    ensures
        non_const_count(t.take(q)) + if t[q].1 is Const { 0nat } else { 1nat } <= non_const_count(t.take(m)),
    decreases m - q,
{
    lemma_sched_step(t, m - 1);
    if q < m - 1 {
        lemma_sched_mono(t, q, m - 1);
    }
}

/// Exact axis index of a variable name.
pub fn axis_index(name: &String) -> (r: Option<u32>)
    ensures
        r == axis_of(name@),
{
    let s = name.as_str();
    if s.unicode_len() != 1 {
        proof {
            assert(name@ != seq!['X'] && name@ != seq!['Y'] && name@ != seq!['Z']);
        }
        return None;
    }
    let c = s.get_char(0);
    proof {
        assert(name@ =~= seq![c]);
    }
    if c == 'X' {
        Some(0)
    } else if c == 'Y' {
        Some(1)
    } else if c == 'Z' {
        Some(2)
    } else {
        proof {
            assert(seq![c][0] == c);
            assert(seq!['X'][0] == 'X');
            assert(seq!['Y'][0] == 'Y');
            assert(seq!['Z'][0] == 'Z');
        }
        None
    }
}

} // verus!
