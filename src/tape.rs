//! A tape ready for evaluation: the single-assignment form, kept for further
//! simplification, and the register-assigned form.
use vstd::prelude::*;

use crate::op::{
    unresolved_count, choice_ops, instr_count, instr_kinds, instr_words, lemma_asm_split, lemma_both_bound,
    transfer_count, AsmOp, Choice, Simplify,
};
use crate::scheduled::{choice_count_of, non_const_count, Scheduled};
use crate::ssa::{
    canonical, clause_words, lemma_named_in, lemma_operand_source, lemma_operands_prefix, ops_operands, refs,
    arg_of, simplified_from, slot_of, SsaTape,
};

verus! {

/// Register limit of a tape built without one.
pub const DEFAULT_REG_LIMIT: u8 = 255;

/// The choices are one known choice per choice clause of `ssa`.
pub open spec fn choices_fit(ssa: &SsaTape, choices: Seq<Choice>) -> bool {
    ssa.choices_ok(choices)
}

/// Every choice is `Both`.
pub open spec fn all_both_spec(choices: Seq<Choice>) -> bool {
    forall|k: int| 0 <= k < choices.len() ==> choices[k] == Choice::Both
}

/// `ssa` and `instrs` are a simplified tape and its instructions under
/// `reg_limit` registers.
pub open spec fn simplified_pair(ssa: &SsaTape, instrs: Seq<AsmOp>, reg_limit: u8) -> bool {
    &&& ssa.wf()
    &&& ssa.out_slot(0) == 0
    &&& ssa.choice_count == choice_ops(ssa.tape@)
    &&& canonical(ssa.tape@, ssa.data@)
    &&& instr_count(instrs) == ssa.tape@.len()
    &&& instr_kinds(instrs) == ssa.tape@
    &&& instr_words(instrs) == clause_words(ssa.tape@, ssa.data@)
    &&& forall|k: int| 0 <= k < instrs.len() ==> #[trigger] instrs[k].regs_below(reg_limit as int)
}

/// `ssa` is the lowering of `s` simplified under all-`Both` choices.
pub open spec fn built_from(s: &Scheduled, ssa: &SsaTape) -> bool {
    exists|l: SsaTape, c: Seq<Choice>|
        #![trigger simplified_from(&l, c, ssa.tape@, ssa.data@)]
        l.wf() && l.lowered_from(s) && l.tape@.len() == non_const_count(s.tape@) && l.choice_count
            == choice_count_of(s.tape@) && c.len() == l.choice_count && all_both_spec(c) && simplified_from(
            &l,
            c,
            ssa.tape@,
            ssa.data@,
        )
}

/// A simplified tape has one instruction per clause, plus the memory
/// transfers that the register limit forced.
pub proof fn lemma_instruction_count(t: &Tape)
    requires
        t.wf(),
    ensures
        t.asm_tape@.len() == t.ssa.tape@.len() + transfer_count(t.asm_tape@),
        transfer_count(t.asm_tape@) == 0 ==> t.asm_tape@.len() == t.ssa.tape@.len(),
{
    lemma_asm_split(t.asm_tape@);
}

/// A simplified tape holds no dead clause: every clause but the root
/// writes a slot that an earlier clause (nearer the root) reads.
pub proof fn lemma_no_dead_clauses(t: &Tape, q: int)
    requires
        t.wf(),
        1 <= q < t.ssa.tape@.len(),
    ensures
        exists|p: int, j: int| 0 <= p < q && 0 <= j < t.ssa.tape@[p].arg_count()
            && #[trigger] t.ssa.arg(p, j) == t.ssa.out_slot(q),
{
    let ops = t.ssa.tape@;
    let data = t.ssa.data@;
    let x = t.ssa.out_slot(q);
    assert(slot_of(ops, data, q) < refs(ops_operands(ops, data, q)));
    assert(slot_of(ops, data, 0) != slot_of(ops, data, q));
    lemma_operands_prefix(ops, data, q, ops.len() as int);
    lemma_named_in(ops_operands(ops, data, q), x);
    lemma_operand_source(ops, data, q, x);
    let (p, j) = choose|p: int, j: int| 0 <= p < q && 0 <= j < ops[p].arg_count() && #[trigger] arg_of(ops, data, p, j) == x;
    assert(t.ssa.arg(p, j) == x);
}

/// A tape without choice clauses accepts exactly the empty choice vector.
pub proof fn lemma_no_choices(t: &Tape, choices: Seq<Choice>)
    requires
        t.wf(),
        choice_ops(t.ssa.tape@) == 0,
    ensures
        choices_fit(&t.ssa, choices) <==> choices.len() == 0,
{
}

/// A pair of flat expressions: `ssa` for simplification, and `asm_tape`, the same
/// clauses with registers assigned, in reverse execution order.
#[derive(Clone)]
pub struct Tape {
    pub ssa: SsaTape,
    pub asm_tape: Vec<AsmOp>,
    pub reg_limit: u8,
}

impl Tape {
    /// Well formed: a simplified pair under a positive register limit.
    pub open spec fn wf(&self) -> bool {
        &&& self.reg_limit >= 1
        &&& simplified_pair(&self.ssa, self.asm_tape@, self.reg_limit)
    }

    /// Builds a tape from `s` with the default register limit.
    pub fn new(s: &Scheduled) -> (r: Self)
        requires
            s.wf(),
        ensures
            r.wf(),
            r.reg_limit == DEFAULT_REG_LIMIT,
            r.ssa.tape@.len() <= non_const_count(s.tape@),
            r.ssa.choice_count <= choice_count_of(s.tape@),
            built_from(s, &r.ssa),
    {
        Self::new_with_reg_limit(s, DEFAULT_REG_LIMIT)
    }

    /// Lowers `s` and simplifies it once with every choice `Both`, which
    /// drops unused clauses and assigns registers.
    ///
    /// A two-slot clause needs both operands in registers at once, so a
    /// limit of 1 only suits tapes without such clauses: with one register,
    /// fetching the rhs evicts the lhs.
    pub fn new_with_reg_limit(s: &Scheduled, reg_limit: u8) -> (r: Self)
        requires
            s.wf(),
            reg_limit >= 1,
        ensures
            r.wf(),
            r.reg_limit == reg_limit,
            r.ssa.tape@.len() <= non_const_count(s.tape@),
            r.ssa.choice_count <= choice_count_of(s.tape@),
            built_from(s, &r.ssa),
    {
        let lowered = SsaTape::new(s);
        let dummy = all_both(lowered.choice_count);
        proof {
            lemma_both_bound(dummy@);
        }
        let (ssa, asm_tape) = lowered.simplify(dummy.as_slice(), reg_limit);
        proof {
            assert(simplified_from(&lowered, dummy@, ssa.tape@, ssa.data@));
        }
        Self { ssa, asm_tape, reg_limit }
    }

    /// Simplifies the tape under `choices`, keeping the register limit.
    pub fn simplify(&self, choices: &[Choice]) -> (r: Self)
        requires
            self.wf(),
            choices_fit(&self.ssa, choices@),
        ensures
            r.wf(),
            r.reg_limit == self.reg_limit,
            r.ssa.tape@.len() <= self.ssa.tape@.len(),
            all_both_spec(choices@) ==> r.ssa.tape@ == self.ssa.tape@ && r.ssa.data@ == self.ssa.data@
                && r.ssa.choice_count == self.ssa.choice_count,
            r.ssa.choice_count <= unresolved_count(choices@),
            simplified_from(&self.ssa, choices@, r.ssa.tape@, r.ssa.data@),
    {
        self.simplify_with_reg_limit(choices, self.reg_limit)
    }

    /// Simplifies the tape under `choices` with a new register limit.
    pub fn simplify_with_reg_limit(&self, choices: &[Choice], reg_limit: u8) -> (r: Self)
        requires
            self.wf(),
            choices_fit(&self.ssa, choices@),
            reg_limit >= 1,
        ensures
            r.wf(),
            r.reg_limit == reg_limit,
            r.ssa.tape@.len() <= self.ssa.tape@.len(),
            all_both_spec(choices@) ==> r.ssa.tape@ == self.ssa.tape@ && r.ssa.data@ == self.ssa.data@
                && r.ssa.choice_count == self.ssa.choice_count,
            r.ssa.choice_count <= unresolved_count(choices@),
            simplified_from(&self.ssa, choices@, r.ssa.tape@, r.ssa.data@),
    {
        let (ssa, asm_tape) = self.ssa.simplify(choices, reg_limit);
        Self { ssa, asm_tape, reg_limit }
    }

    /// Number of choice clauses, i.e. the length of a choice vector.
    pub fn choice_count(&self) -> (r: usize)
        ensures
            r == self.ssa.choice_count,
    {
        self.ssa.choice_count
    }
}

/// A choice vector of `n` entries, all `Both`.
pub fn all_both(n: usize) -> (r: Vec<Choice>)
    ensures
        r@.len() == n,
        forall|k: int| 0 <= k < n ==> r@[k] == Choice::Both,
{
    let mut v: Vec<Choice> = Vec::new();
    while v.len() < n
        invariant
            v@.len() <= n,
            forall|k: int| 0 <= k < v@.len() ==> v@[k] == Choice::Both,
        decreases n - v@.len(),
    {
        v.push(Choice::Both);
    }
    v
}

impl Simplify for Tape {
    open spec fn valid(&self) -> bool {
        self.wf()
    }

    open spec fn accepts(&self, choices: Seq<Choice>) -> bool {
        choices_fit(&self.ssa, choices)
    }

    fn simplify(&self, choices: &[Choice]) -> (r: Self) {
        Tape::simplify(self, choices)
    }
}

/// A tape together with the choice buffer that its point evaluations fill.
pub struct PointEval {
    pub tape: Tape,
    pub choices: Vec<Choice>,
}

impl PointEval {
    /// Wraps `tape` with a choice buffer of the right length, all `Unknown`.
    pub fn from(tape: Tape) -> (r: Self)
        ensures
            r.tape == tape,
            r.choices@.len() == tape.ssa.choice_count,
            forall|k: int| 0 <= k < r.choices@.len() ==> r.choices@[k] == Choice::Unknown,
    {
        let n = tape.choice_count();
        let mut choices: Vec<Choice> = Vec::new();
        while choices.len() < n
            invariant
                choices@.len() <= n,
                forall|k: int| 0 <= k < choices@.len() ==> choices@[k] == Choice::Unknown,
            decreases n - choices@.len(),
        {
            choices.push(Choice::Unknown);
        }
        PointEval { tape, choices }
    }

    /// Simplifies the tape under the choices of the last evaluation.
    pub fn simplify(&self, reg_limit: u8) -> (r: Tape)
        requires
            self.tape.wf(),
            choices_fit(&self.tape.ssa, self.choices@),
            reg_limit >= 1,
        ensures
            r.wf(),
            r.reg_limit == reg_limit,
            r.ssa.tape@.len() <= self.tape.ssa.tape@.len(),
            r.ssa.choice_count <= unresolved_count(self.choices@),
            simplified_from(&self.tape.ssa, self.choices@, r.ssa.tape@, r.ssa.data@),
            all_both_spec(self.choices@) ==> r.ssa.tape@ == self.tape.ssa.tape@ && r.ssa.data@ == self.tape.ssa.data@
                && r.ssa.choice_count == self.tape.ssa.choice_count,
    {
        self.tape.simplify_with_reg_limit(self.choices.as_slice(), reg_limit)
    }

    /// Resets every entry of the choice buffer to `Unknown`.
    pub fn reset_choices(&mut self)
        ensures
            final(self).tape == old(self).tape,
            final(self).choices@.len() == old(self).choices@.len(),
            forall|k: int| 0 <= k < final(self).choices@.len() ==> final(self).choices@[k] == Choice::Unknown,
    {
        let mut i: usize = 0;
        while i < self.choices.len()
            invariant
                self.tape == old(self).tape,
                self.choices@.len() == old(self).choices@.len(),
                i <= self.choices@.len(),
                forall|k: int| 0 <= k < i ==> self.choices@[k] == Choice::Unknown,
            decreases self.choices@.len() - i,
        {
            self.choices.set(i, Choice::Unknown);
            i = i + 1;
        }
    }
}

} // verus!
