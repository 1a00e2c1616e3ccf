//! State of one simplification pass over a tape, and the steps that move it
//! from one clause to the next.
use vstd::prelude::*;

use crate::allocator::SsaTapeAllocator;
use crate::op::{choice_ops, data_len, instr_count, instr_kinds, instr_words, AsmOp, Choice, ClauseOp64};
use crate::ssa::{
    written_after, clause_word, clause_words, chosen, collapses, live_kept, rewrites_to, selects, selects_words, carries_words, renamed, arg_of, canonical, clause_args, fresh_ok, lemma_append, lemma_operands_append, lemma_refs_push,
    ops_operands, refs, slot_of, SsaTape,
};

verus! {

/// Number of clauses at or after `i` whose output slot has been given a new
/// slot, i.e. clauses still to be emitted.
pub open spec fn pending(src: &SsaTape, active: Seq<Option<u32>>, i: int) -> nat
    decreases src.tape@.len() - i,
{
    if i >= src.tape@.len() {
        0
    } else {
        (if active[src.out_slot(i) as int] is Some { 1nat } else { 0nat }) + pending(src, active, i + 1)
    }
}

/// Clauses from `i` on see the same entries in both tables.
pub proof fn lemma_pending_frame(src: &SsaTape, a: Seq<Option<u32>>, b: Seq<Option<u32>>, i: int)
    requires
        0 <= i,
        forall|k: int| i <= k < src.tape@.len() ==> a[#[trigger] src.out_slot(k) as int] == b[src.out_slot(k) as int],
    ensures
        pending(src, a, i) == pending(src, b, i),
    decreases src.tape@.len() - i,
{
    if i < src.tape@.len() {
        lemma_pending_frame(src, a, b, i + 1);
    }
}

/// Giving a new slot to the output of one clause at or after `i` adds one.
pub proof fn lemma_pending_update(src: &SsaTape, a: Seq<Option<u32>>, o: u32, v: u32, k0: int, i: int)
    requires
        src.wf(),
        0 <= i <= k0 < src.tape@.len(),
        src.out_slot(k0) == o,
        a.len() == src.tape@.len(),
        a[o as int] is None,
    ensures
        pending(src, a.update(o as int, Some(v)), i) == pending(src, a, i) + 1,
    decreases src.tape@.len() - i,
{
    let b = a.update(o as int, Some(v));
    if i < k0 {
        lemma_pending_update(src, a, o, v, k0, i + 1);
        assert(src.out_slot(i) != src.out_slot(k0));
    } else {
        assert forall|k: int| i + 1 <= k < src.tape@.len() implies a[#[trigger] src.out_slot(k) as int] == b[src.out_slot(k) as int] by {
            assert(src.out_slot(k0) != src.out_slot(k));
        }
        lemma_pending_frame(src, a, b, i + 1);
    }
}

/// No clause from `i` on is pending when none has a new slot.
pub proof fn lemma_pending_none(src: &SsaTape, a: Seq<Option<u32>>, i: int)
    requires
        0 <= i,
        forall|k: int| i <= k < src.tape@.len() ==> a[#[trigger] src.out_slot(k) as int] is None,
    ensures
        pending(src, a, i) == 0,
    decreases src.tape@.len() - i,
{
    if i < src.tape@.len() {
        lemma_pending_none(src, a, i + 1);
    }
}

/// At most every clause from `i` on is pending.
pub proof fn lemma_pending_bound(src: &SsaTape, a: Seq<Option<u32>>, i: int)
    requires
        0 <= i <= src.tape@.len(),
    ensures
        pending(src, a, i) <= src.tape@.len() - i,
    decreases src.tape@.len() - i,
{
    if i < src.tape@.len() {
        lemma_pending_bound(src, a, i + 1);
    }
}

/// A renaming that only gains entries keeps every clause renamed.
pub proof fn lemma_renamed_grow(
    src: &SsaTape,
    choices: Seq<Choice>,
    k: int,
    ops: Seq<ClauseOp64>,
    data: Seq<u32>,
    q: int,
    rho: Seq<Option<u32>>,
    rho2: Seq<Option<u32>>,
)
    requires
        src.wf(),
        0 <= k < src.tape@.len(),
        rho.len() == src.tape@.len(),
        forall|x: int| 0 <= x < rho.len() && (#[trigger] rho[x]) is Some ==> rho2[x] == rho[x],
        renamed(src, choices, k, ops, data, q, rho),
    ensures
        renamed(src, choices, k, ops, data, q, rho2),
{
    let sop = src.tape@[k];
    assert(src.out_slot(k) < src.tape@.len());
    if sop.arg_count() >= 1 {
        assert(written_after(src.tape@, src.data@, k, src.arg(k, 0)));
        crate::ssa::lemma_slot_below(src, k, src.arg(k, 0));
    }
    if sop.arg_count() == 2 {
        assert(written_after(src.tape@, src.data@, k, src.arg(k, 1)));
        crate::ssa::lemma_slot_below(src, k, src.arg(k, 1));
    }
}

/// Working state of a simplification pass.
///
/// `home` and `done` follow each new slot: a slot not yet emitted waits on
/// the clause at `home` of the source tape; an emitted one was written by the
/// clause at `home` of the output.
pub(crate) struct SimplifyPass {
    /// New slot of each source slot that is used, if any
    pub(crate) active: Vec<Option<u32>>,
    /// Next new slot to hand out
    pub(crate) next: u32,
    pub(crate) ops_out: Vec<ClauseOp64>,
    pub(crate) data_out: Vec<u32>,
    pub(crate) choice_count: usize,
    pub(crate) alloc: SsaTapeAllocator,
    pub(crate) home: Ghost<Seq<int>>,
    pub(crate) done: Ghost<Seq<bool>>,
    /// Source clause that each emitted clause stands for
    pub(crate) src_of: Ghost<Seq<int>>,
    /// The choice vector of the pass
    pub(crate) choices: Ghost<Seq<Choice>>,
}

impl SimplifyPass {
    pub(crate) open spec fn inv(&self, src: &SsaTape, i: int) -> bool {
        let n = src.tape@.len() as int;
        let o = self.ops_out@;
        let d = self.data_out@;
        let home = self.home@;
        let done = self.done@;
        &&& src.wf()
        &&& 0 <= i <= n
        &&& self.active@.len() == n
        &&& home.len() == self.next as int
        &&& done.len() == self.next as int
        &&& 1 <= self.next as int <= n
        &&& forall|k: int| i <= k < n && (#[trigger] self.active@[src.out_slot(k) as int]) is Some ==> {
            let s = self.active@[src.out_slot(k) as int]->0 as int;
            s < self.next && !done[s] && home[s] == k
        }
        &&& forall|s: int| 0 <= s < self.next && #[trigger] done[s] ==> 0 <= home[s] < o.len() && slot_of(o, d, home[s]) == s
        &&& forall|s: int| 0 <= s < self.next && !#[trigger] done[s] ==> i <= home[s] < n
            && self.active@[src.out_slot(home[s]) as int] == Some(s as u32)
        &&& forall|q: int| 0 <= q < o.len() ==> {
            let s = #[trigger] slot_of(o, d, q) as int;
            s < self.next && done[s] && home[s] == q
        }
        &&& forall|q: int, j: int| 0 <= q < o.len() && 0 <= j < o[q].arg_count() ==> {
            let a = #[trigger] arg_of(o, d, q, j) as int;
            a < self.next && (!done[a] || home[a] > q)
        }
        &&& forall|q: int| 0 <= q < o.len() && o[q] == ClauseOp64::Input ==> #[trigger] arg_of(o, d, q, 0) < 3
        &&& self.next == o.len() + pending(src, self.active@, i)
        &&& d.len() == data_len(o)
        &&& self.choice_count == choice_ops(o)
        &&& o.len() <= i
        &&& o.len() == 0 ==> (self.next == 1 || self.active@[src.out_slot(i) as int] == Some(0u32))
        &&& o.len() > 0 ==> slot_of(o, d, 0) == 0
        &&& fresh_ok(ops_operands(o, d, o.len() as int))
        &&& refs(ops_operands(o, d, o.len() as int)) <= self.next
        &&& forall|q: int| 1 <= q < o.len() ==> #[trigger] slot_of(o, d, q) < refs(ops_operands(o, d, q))
        &&& forall|q: int| 0 <= q < o.len() && o[q] == ClauseOp64::CopyReg
            ==> #[trigger] arg_of(o, d, q, 0) < refs(ops_operands(o, d, q))
        &&& self.alloc.inv()
        &&& forall|t: int| 0 <= t < refs(ops_operands(o, d, o.len() as int)) && !#[trigger] done[t]
            ==> self.alloc.alloc_of(t as u32) != crate::allocator::UNASSIGNED
        &&& self.alloc.time <= 1 + 3 * o.len()
        &&& instr_count(self.alloc.out@) == o.len()
        &&& instr_kinds(self.alloc.out@) == o
        &&& instr_words(self.alloc.out@) == clause_words(o, d)
        &&& selects(src, self.choices@, o, self.src_of@)
        &&& self.active@[src.out_slot(0) as int] == Some(0u32)
        &&& live_kept(src, self.choices@, self.src_of@, self.active@, i)
        &&& forall|q: int| 0 <= q < o.len() ==> #[trigger] renamed(src, self.choices@, self.src_of@[q], o, d, q, self.active@)
        &&& forall|q: int| 0 <= q < o.len() ==> #[trigger] carries_words(src.tape@, src.data@, self.src_of@[q], o, d, q)
        &&& forall|q: int| 0 <= q < self.src_of@.len() ==> #[trigger] self.src_of@[q] < i
    }

    /// Passes over a clause whose output nothing uses.
    pub(crate) proof fn lemma_skip(&self, src: &SsaTape, i: int)
        requires
            self.inv(src, i),
            i < src.tape@.len(),
            self.active@[src.out_slot(i) as int] is None,
        ensures
            self.inv(src, i + 1),
    {
    }
    /// The new slot for source slot `old_slot`, used as an operand of clause
    /// `i`; a slot not seen before gets the next free new slot.
    pub(crate) fn resolve(&mut self, src: &SsaTape, Ghost(i): Ghost<int>, old_slot: u32) -> (r: u32)
        requires
            old(self).inv(src, i),
            i < src.tape@.len(),
            crate::ssa::written_after(src.tape@, src.data@, i, old_slot),
            old(self).ops_out@.len() > 0 || old(self).active@[src.out_slot(i) as int] == Some(0u32),
        ensures
            final(self).choices == old(self).choices,
            final(self).inv(src, i),
            r < final(self).next,
            !final(self).done@[r as int],
            i < final(self).home@[r as int],
            final(self).active@[old_slot as int] == Some(r),
            final(self).active@[src.out_slot(i) as int] == old(self).active@[src.out_slot(i) as int],
            old(self).next <= final(self).next,
            (r == old(self).next && final(self).next == old(self).next + 1) || (r < old(self).next
                && final(self).next == old(self).next),
            final(self).active@ == old(self).active@.update(old_slot as int, Some(r)),
            old(self).active@[old_slot as int] matches Some(v) ==> r == v,
            old(self).active@[old_slot as int] is None ==> r == old(self).next,
            forall|s: int| 0 <= s < old(self).next ==> final(self).home@[s] == old(self).home@[s]
                && final(self).done@[s] == old(self).done@[s],
            final(self).ops_out@ == old(self).ops_out@,
            final(self).data_out@ == old(self).data_out@,
            final(self).choice_count == old(self).choice_count,
            final(self).alloc == old(self).alloc,
    {
        let ghost k0 = choose|k: int| i < k < src.tape@.len() && #[trigger] slot_of(src.tape@, src.data@, k) == old_slot;
        proof {
            assert(src.out_slot(k0) == old_slot);
            assert(src.out_slot(i) != old_slot);
        }
        match self.active[old_slot as usize] {
            Some(s) => {
                proof {
                    assert(self.active@.update(old_slot as int, Some(s)) =~= self.active@);
                }
                s
            },
            None => {
                let ghost a = self.active@;
                proof {
                    lemma_pending_update(src, a, old_slot, self.next, k0, i);
                    lemma_pending_bound(src, a.update(old_slot as int, Some(self.next)), i);
                }
                let s = self.next;
                self.active.set(old_slot as usize, Some(s));
                self.next = self.next + 1;
                proof {
                    self.home@ = self.home@.push(k0);
                    self.done@ = self.done@.push(false);
                    assert(self.active@ == a.update(old_slot as int, Some(s)));
                    assert forall|k: int| i <= k < src.tape@.len() && (#[trigger] self.active@[src.out_slot(k) as int]) is Some
                        implies ({
                        let t = self.active@[src.out_slot(k) as int]->0 as int;
                        t < self.next && !self.done@[t] && self.home@[t] == k
                    }) by {
                        if k != k0 {
                            assert(src.out_slot(k) != src.out_slot(k0));
                        }
                    }
                    assert forall|t: int| 0 <= t < self.next && !#[trigger] self.done@[t]
                        implies i <= self.home@[t] < src.tape@.len()
                        && self.active@[src.out_slot(self.home@[t]) as int] == Some(t as u32) by {
                        if t != s {
                            assert(a[src.out_slot(self.home@[t]) as int] == Some(t as u32));
                        }
                    }
                    assert forall|q: int| 0 <= q < self.ops_out@.len() implies #[trigger] renamed(
                        src, self.choices@, self.src_of@[q], self.ops_out@, self.data_out@, q, self.active@) by {
                        lemma_renamed_grow(src, self.choices@, self.src_of@[q], self.ops_out@, self.data_out@, q, a, self.active@);
                    }
                    let o = self.ops_out@;
                    let d = self.data_out@;
                    assert forall|q: int, j: int| 0 <= q < o.len() && 0 <= j < o[q].arg_count() implies ({
                        let b = #[trigger] arg_of(o, d, q, j) as int;
                        b < self.next && (!self.done@[b] || self.home@[b] > q)
                    }) by {
                        assert(arg_of(o, d, q, j) < old(self).next);
                    }
                    assert forall|q: int| 0 <= q < o.len() implies ({
                        let t = #[trigger] slot_of(o, d, q) as int;
                        t < self.next && self.done@[t] && self.home@[t] == q
                    }) by {
                        assert(slot_of(o, d, q) < old(self).next);
                    }
                }
                s
            },
        }
    }

    /// Clause `i` collapses into the clause that writes `old_src`: that
    /// clause takes over its new slot, and nothing is emitted.
    pub(crate) fn collapse(&mut self, src: &SsaTape, Ghost(i): Ghost<int>, new_out: u32, old_src: u32)
        requires
            old(self).inv(src, i),
            i < src.tape@.len(),
            old(self).active@[src.out_slot(i) as int] == Some(new_out),
            old(self).active@[old_src as int] is None,
            crate::ssa::written_after(src.tape@, src.data@, i, old_src),
            old(self).ops_out@.len() > 0 || old(self).next == 1,
            ({
                let sop = src.tape@[i];
                let c = chosen(src, old(self).choices@, i);
                ||| sop == ClauseOp64::CopyReg && old_src == src.arg(i, 0)
                ||| sop.is_choice() && c == Choice::Left && old_src == src.arg(i, 0)
                ||| sop.is_choice() && c == Choice::Right && sop.arg_count() == 2 && old_src == src.arg(i, 1)
            }),
        ensures
            final(self).choices == old(self).choices,
            final(self).inv(src, i + 1),
            final(self).next == old(self).next,
            final(self).alloc == old(self).alloc,
            final(self).data_out@ == old(self).data_out@,
            final(self).choice_count == old(self).choice_count,
            final(self).ops_out@ == old(self).ops_out@,
    {
        let ghost k0 = choose|k: int| i < k < src.tape@.len() && #[trigger] slot_of(src.tape@, src.data@, k) == old_src;
        let ghost a = self.active@;
        proof {
            assert(src.out_slot(k0) == old_src);
            lemma_pending_update(src, a, old_src, new_out, k0, i + 1);
        }
        self.active.set(old_src as usize, Some(new_out));
        proof {
            self.home@ = self.home@.update(new_out as int, k0);
            assert(self.active@ == a.update(old_src as int, Some(new_out)));
            assert forall|k: int| i + 1 <= k < src.tape@.len() && (#[trigger] self.active@[src.out_slot(k) as int]) is Some
                implies ({
                let t = self.active@[src.out_slot(k) as int]->0 as int;
                t < self.next && !self.done@[t] && self.home@[t] == k
            }) by {
                if k != k0 {
                    assert(src.out_slot(k) != src.out_slot(k0));
                }
            }
            assert forall|s: int| 0 <= s < self.next && !#[trigger] self.done@[s]
                implies i + 1 <= self.home@[s] < src.tape@.len()
                && self.active@[src.out_slot(self.home@[s]) as int] == Some(s as u32) by {
                if s != new_out {
                    assert(old(self).home@[s] != i);
                }
            }
            assert forall|q: int| 0 <= q < self.ops_out@.len() implies #[trigger] renamed(
                src, self.choices@, self.src_of@[q], self.ops_out@, self.data_out@, q, self.active@) by {
                lemma_renamed_grow(src, self.choices@, self.src_of@[q], self.ops_out@, self.data_out@, q, a, self.active@);
            }
            assert(src.out_slot(0) != old_src) by {
                assert(src.out_slot(0) != src.out_slot(k0));
            }
            assert forall|k: int| 0 <= k < i + 1 && (#[trigger] self.active@[src.out_slot(k) as int]) is Some
                implies (exists|q: int| 0 <= q < self.src_of@.len() && self.src_of@[q] == k) || collapses(
                src, self.choices@, k, self.active@) by {
                if k < i {
                    assert(src.out_slot(k) != src.out_slot(k0));
                    assert(a[src.out_slot(k) as int] is Some);
                    if collapses(src, self.choices@, k, a) {
                        let sop = src.tape@[k];
                        if sop.arg_count() >= 1 && a[src.arg(k, 0) as int] == a[src.out_slot(k) as int] {
                            assert(src.arg(k, 0) != old_src);
                        }
                        if sop.arg_count() == 2 && a[src.arg(k, 1) as int] == a[src.out_slot(k) as int] {
                            assert(src.arg(k, 1) != old_src);
                        }
                    }
                } else {
                    assert(src.out_slot(i) != old_src);
                }
            }
        }
    }
    /// Emits clause `op` writing `new_out`, with operand words `w1` and (for
    /// three-word clauses) `w2`, and has the allocator emit its instruction.
    #[verifier::rlimit(100)]
    pub(crate) fn emit(
        &mut self,
        src: &SsaTape,
        Ghost(i): Ghost<int>,
        op: ClauseOp64,
        new_out: u32,
        w1: u32,
        w2: u32,
    )
        requires
            old(self).inv(src, i),
            i < src.tape@.len(),
            old(self).active@[src.out_slot(i) as int] == Some(new_out),
            op == ClauseOp64::Input ==> w1 < 3,
            rewrites_to(src, self.choices@, i, op),
            (op == ClauseOp64::Input || (op == ClauseOp64::CopyImm && src.tape@[i] == ClauseOp64::CopyImm))
                ==> w1 == src.arg(i, 0),
            (op == ClauseOp64::CopyImm && src.tape@[i] != ClauseOp64::CopyImm) ==> w1 == src.arg(i, 1),
            (op.width() == 3 && op.arg_count() == 1) ==> w2 == src.arg(i, 1),
            (op == src.tape@[i] && op.arg_count() >= 1) ==> old(self).active@[src.arg(i, 0) as int] == Some(w1),
            (op == src.tape@[i] && op.arg_count() == 2) ==> old(self).active@[src.arg(i, 1) as int] == Some(w2),
            (op == ClauseOp64::CopyReg && src.tape@[i].is_choice() && chosen(src, old(self).choices@, i)
                == Choice::Left) ==> old(self).active@[src.arg(i, 0) as int] == Some(w1),
            (op == ClauseOp64::CopyReg && src.tape@[i].is_choice() && src.tape@[i].arg_count() == 2 && chosen(
                src,
                old(self).choices@,
                i,
            ) == Choice::Right) ==> old(self).active@[src.arg(i, 1) as int] == Some(w1),
            op.arg_count() >= 1 ==> w1 < old(self).next && !old(self).done@[w1 as int]
                && i < old(self).home@[w1 as int],
            op.arg_count() == 2 ==> w2 < old(self).next && !old(self).done@[w2 as int]
                && i < old(self).home@[w2 as int],
            ({
                let l = ops_operands(old(self).ops_out@, old(self).data_out@, old(self).ops_out@.len() as int);
                &&& old(self).ops_out@.len() > 0 ==> new_out < refs(l)
                &&& op.arg_count() >= 1 ==> w1 <= refs(l)
                &&& op.arg_count() == 2 ==> w2 <= refs(l.push(w1))
                &&& op == ClauseOp64::CopyReg ==> w1 < refs(l)
                &&& old(self).next == refs(l + clause_args(op, seq![new_out, w1, w2]))
            }),
        ensures
            final(self).choices == old(self).choices,
            final(self).inv(src, i + 1),
            final(self).ops_out@ == old(self).ops_out@.push(op),
            final(self).choice_count == old(self).choice_count + if op.is_choice() { 1int } else { 0int },
            final(self).data_out@ == old(self).data_out@ + if op.width() == 2 { seq![new_out, w1] } else { seq![new_out, w1, w2] },
            final(self).next == old(self).next,
            final(self).active@ == old(self).active@,
            final(self).next == refs(ops_operands(final(self).ops_out@, final(self).data_out@, final(self).ops_out@.len() as int)),
            final(self).alloc.reg_limit == old(self).alloc.reg_limit,
    {
        let ghost o = self.ops_out@;
        let ghost d = self.data_out@;
        let ghost words = if op.width() == 2 { seq![new_out, w1] } else { seq![new_out, w1, w2] };
        proof {
            lemma_append(o, d, op, words);
            lemma_operands_append(o, d, op, words);
            crate::op::lemma_push_counts(o, op);
            crate::op::lemma_choice_ops_bound(o);
            let l = ops_operands(o, d, o.len() as int);
            assert(clause_args(op, words) == clause_args(op, seq![new_out, w1, w2]));
            if op.arg_count() == 1 {
                assert(l + clause_args(op, words) =~= l.push(w1));
                lemma_refs_push(l, w1);
            } else if op.arg_count() == 2 {
                assert(l + clause_args(op, words) =~= l.push(w1).push(w2));
                lemma_refs_push(l, w1);
                lemma_refs_push(l.push(w1), w2);
            } else {
                assert(l + clause_args(op, words) =~= l);
            }
            assert(new_out < self.next);
            if o.len() == 0 {
                assert(l == Seq::<u32>::empty());
                assert(new_out == 0);
            }
            assert(self.alloc.alloc_of(new_out) != crate::allocator::UNASSIGNED);
        }
        let ghost alloc0 = self.alloc;
        let ghost done0 = self.done@;
        if op.has_choice() {
            self.choice_count = self.choice_count + 1;
        }
        self.data_out.push(new_out);
        self.data_out.push(w1);
        if op.data_width() == 3 {
            self.data_out.push(w2);
        }
        self.ops_out.push(op);
        match op {
            ClauseOp64::Input => self.alloc.op_input(new_out, w1 as u8),
            ClauseOp64::CopyImm => self.alloc.op_copy_imm(new_out, w1),
            ClauseOp64::NegReg | ClauseOp64::AbsReg | ClauseOp64::RecipReg | ClauseOp64::SqrtReg
            | ClauseOp64::SquareReg | ClauseOp64::CopyReg => self.alloc.op_reg(new_out, w1, op),
            ClauseOp64::AddRegImm | ClauseOp64::MulRegImm | ClauseOp64::SubImmReg
            | ClauseOp64::SubRegImm | ClauseOp64::MinRegImm | ClauseOp64::MaxRegImm => {
                self.alloc.op_reg_imm(new_out, w1, w2, op)
            },
            _ => self.alloc.op_reg_reg(new_out, w1, w2, op),
        }
        proof {
            let l = ops_operands(o, d, o.len() as int);
            assert(self.data_out@ == d + words);
            assert(self.ops_out@ == o.push(op));
            let o2 = self.ops_out@;
            let d2 = self.data_out@;
            assert forall|q: int| 0 <= q < o.len() implies clause_word(o2, d2, q) == clause_word(o, d, q) by {
                assert(arg_of(o2, d2, q, 0) == arg_of(o, d, q, 0));
                if o[q].width() == 3 {
                    assert(arg_of(o2, d2, q, 1) == arg_of(o, d, q, 1));
                }
            }
            assert(clause_words(o2, d2) =~= clause_words(o, d).push(clause_word(o2, d2, o.len() as int)));
            let l2 = ops_operands(self.ops_out@, self.data_out@, self.ops_out@.len() as int);
            assert(l2 == l + clause_args(op, words));
            assert forall|t: int| 0 <= t < refs(l2) && t != new_out as int && !#[trigger] done0[t]
                implies self.alloc.alloc_of(t as u32) != crate::allocator::UNASSIGNED by {
                if t < refs(l) {
                    assert(alloc0.alloc_of(t as u32) != crate::allocator::UNASSIGNED);
                } else {
                    assert(op.arg_count() >= 1);
                    if op.arg_count() == 1 {
                        assert(t == w1);
                    } else {
                        assert(t == w1 || t == w2);
                    }
                }
            }
        }
        proof {
            assert(self.data_out@ == d + words);
            self.home@ = self.home@.update(new_out as int, o.len() as int);
            self.done@ = self.done@.update(new_out as int, true);
            self.src_of@ = self.src_of@.push(i);
            let o2 = self.ops_out@;
            let d2 = self.data_out@;
            assert forall|q: int| 0 <= q < o2.len() implies ({
                let t = #[trigger] slot_of(o2, d2, q) as int;
                t < self.next && self.done@[t] && self.home@[t] == q
            }) by {
                if q < o.len() {
                    assert(slot_of(o2, d2, q) == slot_of(o, d, q));
                }
            }
            assert forall|q: int, j: int| 0 <= q < o2.len() && 0 <= j < o2[q].arg_count() implies ({
                let b = #[trigger] arg_of(o2, d2, q, j) as int;
                b < self.next && (!self.done@[b] || self.home@[b] > q)
            }) by {
                if q < o.len() {
                    assert(arg_of(o2, d2, q, j) == arg_of(o, d, q, j));
                }
            }
            assert forall|k: int| 0 <= k < i + 1 && (#[trigger] self.active@[src.out_slot(k) as int]) is Some
                implies (exists|q: int| 0 <= q < self.src_of@.len() && self.src_of@[q] == k) || collapses(
                src, self.choices@, k, self.active@) by {
                if k == i {
                    assert(self.src_of@[o.len() as int] == i);
                } else if !collapses(src, self.choices@, k, self.active@) {
                    let q = choose|q: int| 0 <= q < old(self).src_of@.len() && old(self).src_of@[q] == k;
                    assert(self.src_of@[q] == k);
                }
            }
            assert forall|q: int| 0 <= q < o2.len() implies #[trigger] renamed(src, self.choices@, self.src_of@[q], o2, d2, q, self.active@) by {
                if q < o.len() {
                    assert(renamed(src, self.choices@, self.src_of@[q], o, d, q, self.active@));
                    assert(slot_of(o2, d2, q) == slot_of(o, d, q));
                    assert(arg_of(o2, d2, q, 0) == arg_of(o, d, q, 0));
                    if o[q].width() == 3 {
                        assert(arg_of(o2, d2, q, 1) == arg_of(o, d, q, 1));
                    }
                }
            }
            assert forall|q: int| 0 <= q < o2.len() implies #[trigger] carries_words(src.tape@, src.data@, self.src_of@[q], o2, d2, q) by {
                if q < o.len() {
                    assert(carries_words(src.tape@, src.data@, self.src_of@[q], o, d, q));
                    assert(arg_of(o2, d2, q, 0) == arg_of(o, d, q, 0));
                    if o[q].width() == 3 {
                        assert(arg_of(o2, d2, q, 1) == arg_of(o, d, q, 1));
                    }
                }
            }
            assert forall|q: int| 0 <= q < o2.len() && o2[q] == ClauseOp64::Input implies #[trigger] arg_of(o2, d2, q, 0) < 3 by {
                if q < o.len() {
                    assert(arg_of(o2, d2, q, 0) == arg_of(o, d, q, 0));
                }
            }
            assert forall|t: int| 0 <= t < self.next && !#[trigger] self.done@[t]
                implies i + 1 <= self.home@[t] < src.tape@.len()
                && self.active@[src.out_slot(self.home@[t]) as int] == Some(t as u32) by {
                assert(old(self).home@[t] != i);
            }
            assert forall|t: int| 0 <= t < self.next && #[trigger] self.done@[t]
                implies 0 <= self.home@[t] < o2.len() && slot_of(o2, d2, self.home@[t]) == t by {
                if t != new_out {
                    assert(slot_of(o2, d2, self.home@[t]) == slot_of(o, d, self.home@[t]));
                }
            }
            if o.len() > 0 {
                assert(slot_of(o2, d2, 0) == slot_of(o, d, 0));
            }
            assert forall|q: int| 1 <= q < o2.len() implies #[trigger] slot_of(o2, d2, q) < refs(ops_operands(o2, d2, q)) by {
                if q < o.len() {
                    assert(slot_of(o2, d2, q) == slot_of(o, d, q));
                }
            }
            assert forall|q: int| 0 <= q < o2.len() && o2[q] == ClauseOp64::CopyReg
                implies #[trigger] arg_of(o2, d2, q, 0) < refs(ops_operands(o2, d2, q)) by {
                if q < o.len() {
                    assert(arg_of(o2, d2, q, 0) == arg_of(o, d, q, 0));
                }
            }
        }
    }
    /// What the invariant gives for a source slot that already has a new
    /// slot and is written after clause `i`.
    pub(crate) proof fn lemma_operand(&self, src: &SsaTape, i: int, old_slot: u32)
        requires
            self.inv(src, i),
            crate::ssa::written_after(src.tape@, src.data@, i, old_slot),
            self.active@[old_slot as int] is Some,
        ensures
            ({
                let s = self.active@[old_slot as int]->0;
                s < self.next && !self.done@[s as int] && i < self.home@[s as int]
            }),
    {
        let k0 = choose|k: int| i < k < src.tape@.len() && #[trigger] slot_of(src.tape@, src.data@, k) == old_slot;
        assert(src.out_slot(k0) == old_slot);
    }
    /// Clause `i` copies source slot `old_src`: if that slot is already in
    /// use the copy is emitted, else the clause collapses into its source.
    pub(crate) fn copy_or_collapse(&mut self, src: &SsaTape, Ghost(i): Ghost<int>, new_out: u32, old_src: u32)
        requires
            old(self).inv(src, i),
            i < src.tape@.len(),
            old(self).active@[src.out_slot(i) as int] == Some(new_out),
            crate::ssa::written_after(src.tape@, src.data@, i, old_src),
            old(self).ops_out@.len() > 0 || old(self).next == 1,
            rewrites_to(src, old(self).choices@, i, ClauseOp64::CopyReg),
            (src.tape@[i] == ClauseOp64::CopyReg || chosen(src, old(self).choices@, i) == Choice::Left) ==> old_src
                == src.arg(i, 0),
            (src.tape@[i].is_choice() && chosen(src, old(self).choices@, i) == Choice::Right) ==> old_src == src.arg(i, 1),
            ({
                let l = ops_operands(old(self).ops_out@, old(self).data_out@, old(self).ops_out@.len() as int);
                &&& old(self).ops_out@.len() > 0 ==> new_out < refs(l)
                &&& old(self).next == refs(l)
            }),
        ensures
            final(self).choices == old(self).choices,
            final(self).inv(src, i + 1),
            final(self).alloc.reg_limit == old(self).alloc.reg_limit,
            final(self).choice_count == old(self).choice_count,
            final(self).ops_out@.len() > 0 || final(self).next == 1,
            final(self).next == refs(ops_operands(final(self).ops_out@, final(self).data_out@, final(self).ops_out@.len() as int)),
            old(self).active@[old_src as int] matches Some(s) ==> final(self).ops_out@ == old(self).ops_out@.push(ClauseOp64::CopyReg)
                && final(self).data_out@ == old(self).data_out@ + seq![new_out, s] && final(self).active@ == old(self).active@
                && final(self).next == old(self).next,
    {
        match self.active[old_src as usize] {
            Some(s) => {
                proof {
                    self.lemma_operand(src, i, old_src);
                    let l = ops_operands(self.ops_out@, self.data_out@, self.ops_out@.len() as int);
                    assert(clause_args(ClauseOp64::CopyReg, seq![new_out, s, 0u32]) =~= seq![s]);
                    assert(l + seq![s] =~= l.push(s));
                    lemma_refs_push(l, s);
                }
                self.emit(src, Ghost(i), ClauseOp64::CopyReg, new_out, s, 0);
            },
            None => {
                self.collapse(src, Ghost(i), new_out, old_src);
            },
        }
    }

    /// Packages the finished pass as a tape and its instructions.
    pub(crate) fn finish(self, src: &SsaTape) -> (r: (SsaTape, Vec<AsmOp>))
        requires
            self.inv(src, src.tape@.len() as int),
        ensures
            r.0.wf(),
            r.0.out_slot(0) == 0,
            r.0.tape@.len() <= src.tape@.len(),
            forall|q: int, j: int| 0 <= q < r.0.tape@.len() && 0 <= j < r.0.tape@[q].arg_count()
                ==> #[trigger] r.0.arg(q, j) < r.0.tape@.len(),
            r.0.choice_count == choice_ops(r.0.tape@),
            canonical(r.0.tape@, r.0.data@),
            r.0.tape@ == self.ops_out@,
            r.0.data@ == self.data_out@,
            instr_count(r.1@) == r.0.tape@.len(),
            instr_kinds(r.1@) == r.0.tape@,
            instr_words(r.1@) == clause_words(r.0.tape@, r.0.data@),
            crate::ssa::relates(src, self.choices@, r.0.tape@, r.0.data@, self.src_of@, self.active@),
            forall|k: int| 0 <= k < r.1@.len() ==> #[trigger] r.1@[k].regs_below(self.alloc.reg_limit as int),
    {
        let tape = SsaTape { tape: self.ops_out, data: self.data_out, choice_count: self.choice_count };
        proof {
            let o = tape.tape@;
            let d = tape.data@;
            let n = o.len();
            assert forall|s: int| 0 <= s < self.next implies #[trigger] self.done@[s] by {}
            assert forall|q: int, k: int| 0 <= q < k < n implies #[trigger] slot_of(o, d, q) != #[trigger] slot_of(o, d, k) by {}
            assert forall|q: int, j: int| 0 <= q < n && 0 <= j < o[q].arg_count() implies written_after(
                o, d, q, #[trigger] arg_of(o, d, q, j)) by {
                let a = arg_of(o, d, q, j) as int;
                assert(self.done@[a]);
                assert(slot_of(o, d, self.home@[a]) == a);
            }
        }
        (tape, self.alloc.out)
    }
}

} // verus!
