//! Lowering of a scheduled expression into a single-assignment tape.
use vstd::prelude::*;

use std::collections::BTreeMap;

use crate::op::ClauseOp64;
use crate::scheduled::{
    axis_index, choice_count_of, lemma_sched_mono, lemma_sched_step, non_const_count, BinaryChoiceOpcode,
    BinaryOpcode, NodeIndex, Op, Scheduled, UnaryOpcode,
};

verus! {

broadcast use vstd::std_specs::btree::group_btree_axioms, vstd::laws_cmp::group_laws_cmp;

/// Where the value of a node lives while building: a slot, or an immediate
/// (the bits of an `f32`).
pub(crate) enum Location {
    Slot(u32),
    Immediate(u32),
}

/// A clause in execution order: opcode, output slot and up to two operand
/// words.
pub(crate) type Clause = (ClauseOp64, u32, u32, u32);

/// The clause at index `t` writes slot `t` and reads only earlier slots.
pub(crate) open spec fn clause_ok(c: Clause, t: int) -> bool {
    &&& c.1 == t
    &&& c.0.arg_count() >= 1 ==> c.2 < t
    &&& c.0.arg_count() == 2 ==> c.3 < t
    &&& c.0 == ClauseOp64::Input ==> c.2 < 3
}

/// Number of choice clauses in `cl`.
pub(crate) open spec fn clause_choices(cl: Seq<Clause>) -> nat
    decreases cl.len(),
{
    if cl.len() == 0 {
        0
    } else {
        clause_choices(cl.drop_last()) + if cl.last().0.is_choice() { 1nat } else { 0nat }
    }
}

pub(crate) proof fn lemma_clause_step(cl: Seq<Clause>, t: int)
    requires
        0 <= t < cl.len(),
    ensures
        clause_choices(cl.take(t + 1)) == clause_choices(cl.take(t)) + if cl[t].0.is_choice() { 1nat } else { 0nat },
{
    assert(cl.take(t + 1).drop_last() =~= cl.take(t));
}

pub(crate) struct SsaTapeBuilder<'a> {
    pub(crate) sched: &'a Scheduled,
    /// Number of scheduled operations already lowered
    pub(crate) pos: usize,
    /// Clauses in execution order (inputs first)
    pub(crate) clauses: Vec<Clause>,
    /// Slot of each node lowered into a clause
    pub(crate) mapping: BTreeMap<NodeIndex, u32>,
    /// Value of each constant node
    pub(crate) constants: BTreeMap<NodeIndex, u32>,
    pub(crate) choice_count: usize,
}

impl<'a> SsaTapeBuilder<'a> {
    pub(crate) open spec fn inv(&self) -> bool {
        let t = self.sched.tape@;
        let p = self.pos as int;
        &&& self.sched.wf()
        &&& p <= t.len()
        &&& self.clauses@.len() == non_const_count(t.take(p))
        &&& self.clauses@.len() <= p
        &&& self.choice_count == choice_count_of(t.take(p))
        &&& self.choice_count == clause_choices(self.clauses@)
        &&& self.choice_count <= self.clauses@.len()
        &&& forall|k: int| 0 <= k < self.clauses@.len() ==> clause_ok(#[trigger] self.clauses@[k], k)
        &&& forall|q: int| 0 <= q < p && !(t[q].1 is Const) ==> self.mapping@.contains_key(#[trigger] t[q].0)
            && self.mapping@[t[q].0] < self.clauses@.len() && self.mapping@[t[q].0] == self.sched.clause_index(q)
        &&& forall|q: int| 0 <= q < p && t[q].1 is Const ==> self.constants@.contains_key(#[trigger] t[q].0)
            && t[q].1 == Op::Const(self.constants@[t[q].0])
        &&& forall|q: int| 0 <= q < p && !(t[q].1 is Const) ==> {
            let l = #[trigger] self.sched.lowered(q);
            self.clauses@[self.sched.clause_index(q) as int] == (l.0, self.sched.clause_index(q) as u32, l.1, l.2)
        }
        &&& forall|key: NodeIndex| #[trigger] self.mapping@.contains_key(key) ==> self.sched.slot_before(key, p)
    }

    pub(crate) fn new(sched: &'a Scheduled) -> (r: Self)
        requires
            sched.wf(),
        ensures
            r.inv(),
            r.sched == sched,
            r.pos == 0,
    {
        proof {
            assert(sched.tape@.take(0) =~= Seq::<(NodeIndex, Op)>::empty());
        }
        Self {
            sched,
            pos: 0,
            clauses: Vec::new(),
            mapping: BTreeMap::new(),
            constants: BTreeMap::new(),
            choice_count: 0,
        }
    }

    /// Where the value of `node`, defined earlier in the schedule, lives.
    pub(crate) fn get_allocated_value(&self, node: NodeIndex) -> (r: Location)
        requires
            self.inv(),
            self.sched.slot_before(node, self.pos as int) || self.sched.imm_before(node, self.pos as int),
        ensures
            self.sched.slot_before(node, self.pos as int) ==> (r matches Location::Slot(s) && s < self.clauses@.len()
                && s == self.sched.word(node) && !self.sched.is_imm(node)),
            self.sched.imm_before(node, self.pos as int) ==> (r matches Location::Immediate(c) && c == self.sched.word(node)
                && self.sched.is_imm(node)),
    {
        proof {
            let t = self.sched.tape@;
            let q0 = self.sched.pos_of(node);
            if self.sched.slot_before(node, self.pos as int) {
                let q = choose|q: int| 0 <= q < self.pos && #[trigger] t[q].0 == node && !(t[q].1 is Const);
                assert(self.mapping@.contains_key(t[q].0));
                assert(t[q0].0 == node);
                assert(q0 == q);
            } else {
                let q = choose|q: int| 0 <= q < self.pos && #[trigger] t[q].0 == node && t[q].1 is Const;
                assert(self.constants@.contains_key(t[q].0));
                assert(t[q0].0 == node);
                assert(q0 == q);
                if self.mapping@.contains_key(node) {
                    let q2 = choose|q2: int| 0 <= q2 < self.pos && #[trigger] t[q2].0 == node && !(t[q2].1 is Const);
                    assert(q != q2);
                }
            }
        }
        match self.mapping.get(&node) {
            Some(r) => Location::Slot(*r),
            None => Location::Immediate(*self.constants.get(&node).unwrap()),
        }
    }
    /// Lowers every scheduled operation in order.
    pub(crate) fn run(&mut self)
        requires
            old(self).inv(),
        ensures
            final(self).inv(),
            final(self).sched == old(self).sched,
            final(self).pos == final(self).sched.tape@.len(),
    {
        while self.pos < self.sched.tape.len()
            invariant
                self.inv(),
                self.sched == old(self).sched,
            decreases self.sched.tape@.len() - self.pos,
        {
            let (n, op) = self.sched.tape[self.pos];
            self.step(n, op);
        }
    }

    /// Lowers the operation `op` of `node`, the next one in the schedule:
    /// a constant is only recorded, anything else becomes one clause.
    pub(crate) fn step(&mut self, node: NodeIndex, op: Op)
        requires
            old(self).inv(),
            old(self).pos < old(self).sched.tape@.len(),
            old(self).sched.tape@[old(self).pos as int] == (node, op),
        ensures
            final(self).inv(),
            final(self).sched == old(self).sched,
            final(self).pos == old(self).pos + 1,
            op matches Op::Const(c) ==> final(self).constants@ == old(self).constants@.insert(node, c)
                && final(self).mapping@ == old(self).mapping@ && final(self).clauses@ == old(self).clauses@,
            !(op is Const) ==> final(self).constants@ == old(self).constants@
                && final(self).mapping@ == old(self).mapping@.insert(node, old(self).clauses@.len() as u32)
                && final(self).clauses@ == old(self).clauses@.push((
                    old(self).sched.lowered(old(self).pos as int).0,
                    old(self).clauses@.len() as u32,
                    old(self).sched.lowered(old(self).pos as int).1,
                    old(self).sched.lowered(old(self).pos as int).2,
                )),
    {
        let ghost p = self.pos as int;
        let ghost t = self.sched.tape@;
        proof {
            lemma_sched_step(t, p);
            assert(self.sched.op_wf(p));
        }
        let index = self.clauses.len() as u32;
        let clause: Option<Clause> = match op {
            Op::Var(v) => {
                let arg = axis_index(&self.sched.vars[v as usize]).unwrap();
                Some((ClauseOp64::Input, index, arg, 0))
            },
            Op::Const(c) => {
                self.constants.insert(node, c);
                None
            },
            Op::Unary(u, a) => {
                let arg = match self.get_allocated_value(a) {
                    Location::Slot(r) => r,
                    Location::Immediate(_) => vstd::pervasive::unreached(),
                };
                let op = match u {
                    UnaryOpcode::Neg => ClauseOp64::NegReg,
                    UnaryOpcode::Abs => ClauseOp64::AbsReg,
                    UnaryOpcode::Recip => ClauseOp64::RecipReg,
                    UnaryOpcode::Sqrt => ClauseOp64::SqrtReg,
                    UnaryOpcode::Square => ClauseOp64::SquareReg,
                };
                Some((op, index, arg, 0))
            },
            Op::Binary(b, l, r) => {
                let lhs = self.get_allocated_value(l);
                let rhs = self.get_allocated_value(r);
                let f = match b {
                    BinaryOpcode::Add => (ClauseOp64::AddRegReg, ClauseOp64::AddRegImm, ClauseOp64::AddRegImm),
                    BinaryOpcode::Mul => (ClauseOp64::MulRegReg, ClauseOp64::MulRegImm, ClauseOp64::MulRegImm),
                    BinaryOpcode::Sub => (ClauseOp64::SubRegReg, ClauseOp64::SubRegImm, ClauseOp64::SubImmReg),
                };
                Some(
                    match (lhs, rhs) {
                        (Location::Slot(lhs), Location::Slot(rhs)) => (f.0, index, lhs, rhs),
                        (Location::Slot(arg), Location::Immediate(imm)) => (f.1, index, arg, imm),
                        (Location::Immediate(imm), Location::Slot(arg)) => (f.2, index, arg, imm),
                        (Location::Immediate(_), Location::Immediate(_)) => vstd::pervasive::unreached(),
                    },
                )
            },
            Op::BinaryChoice(b, l, r, _) => {
                let lhs = self.get_allocated_value(l);
                let rhs = self.get_allocated_value(r);
                self.choice_count = self.choice_count + 1;
                let f = match b {
                    BinaryChoiceOpcode::Min => (ClauseOp64::MinRegReg, ClauseOp64::MinRegImm),
                    BinaryChoiceOpcode::Max => (ClauseOp64::MaxRegReg, ClauseOp64::MaxRegImm),
                };
                Some(
                    match (lhs, rhs) {
                        (Location::Slot(lhs), Location::Slot(rhs)) => (f.0, index, lhs, rhs),
                        (Location::Slot(arg), Location::Immediate(imm)) => (f.1, index, arg, imm),
                        (Location::Immediate(imm), Location::Slot(arg)) => (f.1, index, arg, imm),
                        (Location::Immediate(_), Location::Immediate(_)) => vstd::pervasive::unreached(),
                    },
                )
            },
        };
        let ghost old_mapping = self.mapping@;
        let ghost old_clauses = self.clauses@;
        proof {
            if let Some(c) = clause {
                let l = self.sched.lowered(p);
                assert(c == (l.0, index, l.1, l.2));
            }
        }
        if let Some(c) = clause {
            self.clauses.push(c);
            self.mapping.insert(node, index);
            proof {
                assert(self.clauses@.drop_last() =~= old_clauses);
            }
        }
        self.pos = self.pos + 1;
        proof {
            assert forall|key: NodeIndex| #[trigger] self.mapping@.contains_key(key) implies self.sched.slot_before(key, p + 1) by {
                if key != node {
                    assert(old_mapping.contains_key(key));
                    let q = choose|q: int| 0 <= q < p && #[trigger] t[q].0 == key && !(t[q].1 is Const);
                    assert(t[q].0 == key);
                } else {
                    assert(t[p].0 == key);
                }
            }
            assert forall|q: int| 0 <= q < p + 1 && !(t[q].1 is Const) implies self.mapping@.contains_key(#[trigger] t[q].0)
                && self.mapping@[t[q].0] < self.clauses@.len() && self.mapping@[t[q].0] == self.sched.clause_index(q) by {
                if q < p {
                    assert(t[q].0 != t[p].0);
                }
            }
            assert forall|q: int| 0 <= q < p + 1 && t[q].1 is Const implies self.constants@.contains_key(#[trigger] t[q].0)
                && t[q].1 == Op::Const(self.constants@[t[q].0]) by {
                if q < p {
                    assert(t[q].0 != t[p].0);
                }
            }
            assert forall|q: int| 0 <= q < p + 1 && !(t[q].1 is Const) implies ({
                let l = #[trigger] self.sched.lowered(q);
                self.clauses@[self.sched.clause_index(q) as int] == (l.0, self.sched.clause_index(q) as u32, l.1, l.2)
            }) by {
                if q < p {
                    lemma_sched_mono(t, q, p);
                }
            }
        }
    }
}

} // verus!
