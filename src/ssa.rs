//! The single-assignment tape: its layout, and what makes one well formed.
use vstd::prelude::*;

use crate::allocator::SsaTapeAllocator;
use crate::op::{
    unresolved_count, choice_ops, data_len, instr_count, instr_kinds, instr_words, lemma_both_step, lemma_prefix_mono,
    lemma_prefix_step, AsmOp, Choice, ClauseOp64,
};
use crate::builder::{clause_choices, clause_ok, lemma_clause_step, SsaTapeBuilder};
use crate::pass::{lemma_pending_none, SimplifyPass};
use crate::scheduled::{choice_count_of, non_const_count, Scheduled};

verus! {

/// Largest number of clauses a tape may hold, so that every slot, register
/// and memory index stays within `u32`.
pub const MAX_TAPE_LEN: usize = 0x1000_0000;

/// Tape of clauses in root-first order, with their operands packed in `data`.
///
/// For each clause, in order, `data` holds its output slot and then its
/// operands: one word for `Input` (the axis), `CopyImm` (the immediate bits)
/// and the one-slot opcodes; two words for the rest, where an immediate is
/// always the last word.
#[derive(Clone, Debug)]
pub struct SsaTape {
    /// Clauses; the root of the expression comes first.
    pub tape: Vec<ClauseOp64>,
    /// Packed output slots and operands.
    pub data: Vec<u32>,
    /// Number of choice clauses in the tape
    pub choice_count: usize,
}

/// Index in the data stream where clause `q` begins.
pub open spec fn off(ops: Seq<ClauseOp64>, q: int) -> int {
    data_len(ops.take(q)) as int
}

/// Output slot of clause `q`.
pub open spec fn slot_of(ops: Seq<ClauseOp64>, data: Seq<u32>, q: int) -> u32 {
    data[off(ops, q)]
}

/// Operand word `j` of clause `q`.
pub open spec fn arg_of(ops: Seq<ClauseOp64>, data: Seq<u32>, q: int, j: int) -> u32 {
    data[off(ops, q) + 1 + j]
}

/// Some clause after `q` writes slot `s`.
pub open spec fn written_after(ops: Seq<ClauseOp64>, data: Seq<u32>, q: int, s: u32) -> bool {
    exists|k: int| q < k < ops.len() && #[trigger] slot_of(ops, data, k) == s
}

/// A tape is well formed when its data stream matches its clauses, its
/// choice count is right, each clause writes its own slot below the clause
/// count, every slot operand is written by a later clause (earlier in
/// execution), and every input axis is 0, 1 or 2.
pub open spec fn tape_wf(ops: Seq<ClauseOp64>, data: Seq<u32>, choice_count: nat) -> bool {
    let n = ops.len();
    &&& 1 <= n <= MAX_TAPE_LEN
    &&& data.len() == data_len(ops)
    &&& choice_count == choice_ops(ops)
    &&& forall|q: int| 0 <= q < n ==> #[trigger] slot_of(ops, data, q) < n
    &&& forall|q: int, k: int|
        0 <= q < k < n ==> #[trigger] slot_of(ops, data, q) != #[trigger] slot_of(ops, data, k)
    &&& forall|q: int, j: int|
        0 <= q < n && 0 <= j < ops[q].arg_count() ==> written_after(
            ops,
            data,
            q,
            #[trigger] arg_of(ops, data, q, j),
        )
    &&& forall|q: int| 0 <= q < n && ops[q] == ClauseOp64::Input ==> #[trigger] arg_of(ops, data, q, 0) < 3
}

/// Where clause `q` sits in the data stream.
pub proof fn lemma_layout(ops: Seq<ClauseOp64>, q: int)
    requires
        0 <= q < ops.len(),
    ensures
        off(ops, q + 1) == off(ops, q) + ops[q].width(),
        off(ops, q) + ops[q].width() <= data_len(ops),
        choice_ops(ops.take(q + 1)) == choice_ops(ops.take(q)) + if ops[q].is_choice() { 1nat } else { 0nat },
        choice_ops(ops.take(q + 1)) <= choice_ops(ops),
{
    lemma_prefix_step(ops, q);
    lemma_prefix_mono(ops, q + 1, ops.len() as int);
    assert(ops.take(ops.len() as int) =~= ops);
}

/// Appending a clause keeps the slots and operands of the earlier ones, and
/// places the new clause's words where it begins.
pub proof fn lemma_append(ops: Seq<ClauseOp64>, data: Seq<u32>, x: ClauseOp64, words: Seq<u32>)
    requires
        data.len() == data_len(ops),
        words.len() == x.width(),
    ensures
        (data + words).len() == data_len(ops.push(x)),
        off(ops.push(x), ops.len() as int) == data.len(),
        forall|q: int| 0 <= q < ops.len() ==> #[trigger] slot_of(ops.push(x), data + words, q) == slot_of(ops, data, q),
        forall|q: int, j: int| 0 <= q < ops.len() && 0 <= j < ops[q].width() - 1
            ==> #[trigger] arg_of(ops.push(x), data + words, q, j) == arg_of(ops, data, q, j),
        slot_of(ops.push(x), data + words, ops.len() as int) == words[0],
        forall|j: int| 0 <= j < x.width() - 1 ==> #[trigger] arg_of(ops.push(x), data + words, ops.len() as int, j) == words[1 + j],
{
    crate::op::lemma_push_counts(ops, x);
    assert(ops.push(x).take(ops.len() as int) == ops.take(ops.len() as int));
    assert(ops.take(ops.len() as int) =~= ops);
    assert forall|q: int| 0 <= q < ops.len() implies #[trigger] slot_of(ops.push(x), data + words, q) == slot_of(ops, data, q) by {
        lemma_layout(ops, q);
        assert(ops.push(x).take(q) == ops.take(q));
    }
    assert forall|q: int, j: int| 0 <= q < ops.len() && 0 <= j < ops[q].width() - 1
        implies #[trigger] arg_of(ops.push(x), data + words, q, j) == arg_of(ops, data, q, j) by {
        lemma_layout(ops, q);
        assert(ops.push(x).take(q) == ops.take(q));
    }
}

/// The choice paired with source clause `k`: choice clauses take the
/// choice vector from its end, in root-first order.
pub open spec fn chosen(src: &SsaTape, choices: Seq<Choice>, k: int) -> Choice {
    choices[choices.len() - 1 - choice_ops(src.tape@.take(k))]
}

/// A choice that resolves nothing: `Both`.
pub open spec fn unresolved(c: Choice) -> bool {
    c == Choice::Both
}

/// Clause `op` of a simplified tape may stand for source clause `k` under
/// `choices`: it is the same opcode (for a choice clause, only if its choice
/// is unresolved), a copy of the lhs under `Left`, a copy of the rhs slot
/// under `Right`, or a copy of the immediate under `Right`.
pub open spec fn rewrites_to(src: &SsaTape, choices: Seq<Choice>, k: int, op: ClauseOp64) -> bool {
    let sop = src.tape@[k];
    let c = chosen(src, choices, k);
    ||| op == sop && (sop.is_choice() ==> unresolved(c))
    ||| op == ClauseOp64::CopyReg && sop.is_choice() && (c == Choice::Left || (c == Choice::Right
        && sop.arg_count() == 2))
    ||| op == ClauseOp64::CopyImm && (sop == ClauseOp64::MinRegImm || sop == ClauseOp64::MaxRegImm) && c
        == Choice::Right
}

/// `m` maps each clause of `out`, in order, to a distinct later source
/// clause of `src` that it stands for.
pub open spec fn selects(src: &SsaTape, choices: Seq<Choice>, out: Seq<ClauseOp64>, m: Seq<int>) -> bool {
    &&& m.len() == out.len()
    &&& forall|q: int| 0 <= q < m.len() ==> 0 <= #[trigger] m[q] < src.tape@.len() && rewrites_to(src, choices, m[q], out[q])
    &&& forall|q: int, r: int| 0 <= q < r < m.len() ==> #[trigger] m[q] < #[trigger] m[r]
}

/// The words of output clause `q` that are not slots (an input axis, an
/// immediate) are those of source clause `k`.
pub open spec fn carries_words(
    src_ops: Seq<ClauseOp64>,
    src_data: Seq<u32>,
    k: int,
    ops: Seq<ClauseOp64>,
    data: Seq<u32>,
    q: int,
) -> bool {
    let op = ops[q];
    let sop = src_ops[k];
    &&& (op == ClauseOp64::Input || (op == ClauseOp64::CopyImm && sop == ClauseOp64::CopyImm))
        ==> arg_of(ops, data, q, 0) == arg_of(src_ops, src_data, k, 0)
    &&& (op == ClauseOp64::CopyImm && sop != ClauseOp64::CopyImm) ==> arg_of(ops, data, q, 0) == arg_of(src_ops, src_data, k, 1)
    &&& (op.width() == 3 && op.arg_count() == 1) ==> arg_of(ops, data, q, 1) == arg_of(src_ops, src_data, k, 1)
}

/// Under the slot renaming `rho`, output clause `q` writes the renamed
/// output slot of source clause `k` and reads its renamed slot operands; a
/// copy that a choice became reads the chosen operand.
pub open spec fn renamed(
    src: &SsaTape,
    choices: Seq<Choice>,
    k: int,
    ops: Seq<ClauseOp64>,
    data: Seq<u32>,
    q: int,
    rho: Seq<Option<u32>>,
) -> bool {
    let op = ops[q];
    let sop = src.tape@[k];
    &&& rho[src.out_slot(k) as int] == Some(slot_of(ops, data, q))
    &&& (op == sop && op.arg_count() >= 1) ==> rho[src.arg(k, 0) as int] == Some(arg_of(ops, data, q, 0))
    &&& (op == sop && op.arg_count() == 2) ==> rho[src.arg(k, 1) as int] == Some(arg_of(ops, data, q, 1))
    &&& (op == ClauseOp64::CopyReg && sop.is_choice() && chosen(src, choices, k) == Choice::Left)
        ==> rho[src.arg(k, 0) as int] == Some(arg_of(ops, data, q, 0))
    &&& (op == ClauseOp64::CopyReg && sop.is_choice() && sop.arg_count() == 2 && chosen(src, choices, k)
        == Choice::Right) ==> rho[src.arg(k, 1) as int] == Some(arg_of(ops, data, q, 0))
}

/// Source clause `k` collapsed under `rho`: it is a copy, or a choice
/// resolved to one of its slots, and its output slot was handed to the slot
/// it copies.
pub open spec fn collapses(src: &SsaTape, choices: Seq<Choice>, k: int, rho: Seq<Option<u32>>) -> bool {
    let sop = src.tape@[k];
    let c = chosen(src, choices, k);
    let o = rho[src.out_slot(k) as int];
    ||| sop == ClauseOp64::CopyReg && rho[src.arg(k, 0) as int] == o
    ||| sop.is_choice() && c == Choice::Left && rho[src.arg(k, 0) as int] == o
    ||| sop.is_choice() && c == Choice::Right && sop.arg_count() == 2 && rho[src.arg(k, 1) as int] == o
}

/// Every source clause whose output slot `rho` keeps is picked by `m`, or
/// collapsed.
pub open spec fn live_kept(src: &SsaTape, choices: Seq<Choice>, m: Seq<int>, rho: Seq<Option<u32>>, upto: int) -> bool {
    forall|k: int| 0 <= k < upto && (#[trigger] rho[src.out_slot(k) as int]) is Some ==> (exists|q: int| 0 <= q < m.len()
        && m[q] == k) || collapses(src, choices, k, rho)
}

/// `m` maps each clause of the tape `(ops, data)`, in order, to the clause
/// of the source tape that it stands for, whose non-slot words it carries.
pub open spec fn selects_words(src: &SsaTape, choices: Seq<Choice>, ops: Seq<ClauseOp64>, data: Seq<u32>, m: Seq<int>) -> bool {
    &&& selects(src, choices, ops, m)
    &&& forall|q: int| 0 <= q < m.len() ==> #[trigger] carries_words(src.tape@, src.data@, m[q], ops, data, q)
}

/// `m` and `rho` relate the tape `(ops, data)` to `src`: `m` picks the
/// source clause of each clause, whose non-slot words it carries, and `rho`
/// renames source slots so that each clause is its source clause renamed.
pub open spec fn relates(
    src: &SsaTape,
    choices: Seq<Choice>,
    ops: Seq<ClauseOp64>,
    data: Seq<u32>,
    m: Seq<int>,
    rho: Seq<Option<u32>>,
) -> bool {
    &&& selects_words(src, choices, ops, data, m)
    &&& rho.len() == src.tape@.len()
    &&& rho[src.out_slot(0) as int] == Some(0u32)
    &&& live_kept(src, choices, m, rho, src.tape@.len() as int)
    &&& forall|q: int| 0 <= q < ops.len() ==> #[trigger] renamed(src, choices, m[q], ops, data, q, rho)
}

/// The tape `(ops, data)` is `src` with clauses dropped, copies and resolved
/// choices rewritten, and slots renamed.
pub open spec fn simplified_from(src: &SsaTape, choices: Seq<Choice>, ops: Seq<ClauseOp64>, data: Seq<u32>) -> bool {
    exists|m: Seq<int>, rho: Seq<Option<u32>>| #[trigger] relates(src, choices, ops, data, m, rho)
}

/// The word of clause `q` that is not a slot: the axis of `Input`, the
/// immediate of `CopyImm` and of the slot-immediate forms, 0 for the rest.
pub open spec fn clause_word(ops: Seq<ClauseOp64>, data: Seq<u32>, q: int) -> u32 {
    let op = ops[q];
    if op == ClauseOp64::Input || op == ClauseOp64::CopyImm {
        arg_of(ops, data, q, 0)
    } else if op.width() == 3 && op.arg_count() == 1 {
        arg_of(ops, data, q, 1)
    } else {
        0
    }
}

/// Non-slot words of all clauses, in order.
pub open spec fn clause_words(ops: Seq<ClauseOp64>, data: Seq<u32>) -> Seq<u32> {
    Seq::new(ops.len(), |q: int| clause_word(ops, data, q))
}

/// Slot operands of one clause, given its opcode and its data words.
pub open spec fn clause_args(op: ClauseOp64, words: Seq<u32>) -> Seq<u32> {
    if op.arg_count() == 0 {
        seq![]
    } else if op.arg_count() == 1 {
        seq![words[1]]
    } else {
        seq![words[1], words[2]]
    }
}

/// Slot operands of clauses `0..q`, in order.
pub open spec fn ops_operands(ops: Seq<ClauseOp64>, data: Seq<u32>, q: int) -> Seq<u32>
    decreases q,
{
    if q <= 0 {
        seq![]
    } else {
        ops_operands(ops, data, q - 1) + clause_args(
            ops[q - 1],
            data.subrange(off(ops, q - 1), off(ops, q - 1) + ops[q - 1].width()),
        )
    }
}

/// Number of slots named so far: the root's slot 0, plus each operand that
/// named a slot for the first time.
pub open spec fn refs(l: Seq<u32>) -> nat
    decreases l.len(),
{
    if l.len() == 0 {
        1
    } else {
        refs(l.drop_last()) + if l.last() == refs(l.drop_last()) { 1nat } else { 0nat }
    }
}

/// Each operand names a slot already named, or the next one.
pub open spec fn fresh_ok(l: Seq<u32>) -> bool
    decreases l.len(),
{
    l.len() == 0 || (fresh_ok(l.drop_last()) && l.last() <= refs(l.drop_last()))
}

/// A tape is canonical when its slots are numbered in the order in which a
/// root-first walk first names them: every operand names a slot already
/// named or the next one, every clause after the root writes a slot already
/// named, and every copy reads a slot already named.
pub open spec fn canonical(ops: Seq<ClauseOp64>, data: Seq<u32>) -> bool {
    &&& slot_of(ops, data, 0) == 0
    &&& fresh_ok(ops_operands(ops, data, ops.len() as int))
    &&& forall|q: int| 1 <= q < ops.len() ==> #[trigger] slot_of(ops, data, q) < refs(ops_operands(ops, data, q))
    &&& forall|q: int| 0 <= q < ops.len() && ops[q] == ClauseOp64::CopyReg
        ==> #[trigger] arg_of(ops, data, q, 0) < refs(ops_operands(ops, data, q))
}

/// In a list where each operand names a slot already named or the next one,
/// every slot named besides the root's is one of its operands.
pub proof fn lemma_named_in(l: Seq<u32>, x: u32)
    requires
        fresh_ok(l),
        0 < x < refs(l),
    ensures
        l.contains(x),
    decreases l.len(),
{
    if l.len() > 0 {
        let p = l.drop_last();
        assert(l == p.push(l.last()));
        lemma_refs_push(p, l.last());
        if x < refs(p) {
            lemma_named_in(p, x);
            let k = choose|k: int| 0 <= k < p.len() && p[k] == x;
            assert(l[k] == x);
        } else {
            assert(l[l.len() - 1] == x);
        }
    }
}

/// An operand in the operand list of clauses `0..q` is an operand of one of
/// them.
pub proof fn lemma_operand_source(ops: Seq<ClauseOp64>, data: Seq<u32>, q: int, x: u32)
    requires
        0 <= q <= ops.len(),
        data.len() == data_len(ops),
        ops_operands(ops, data, q).contains(x),
    ensures
        exists|p: int, j: int| 0 <= p < q && 0 <= j < ops[p].arg_count() && #[trigger] arg_of(ops, data, p, j) == x,
    decreases q,
{
    let prev = ops_operands(ops, data, q - 1);
    lemma_layout(ops, q - 1);
    let words = data.subrange(off(ops, q - 1), off(ops, q - 1) + ops[q - 1].width());
    let args = clause_args(ops[q - 1], words);
    let k = choose|k: int| 0 <= k < ops_operands(ops, data, q).len() && ops_operands(ops, data, q)[k] == x;
    if k < prev.len() {
        assert(prev[k] == x);
        lemma_operand_source(ops, data, q - 1, x);
    } else {
        let j = k - prev.len();
        assert(args[j] == x);
        assert(arg_of(ops, data, q - 1, j) == x);
    }
}

/// Pushing one operand onto a list.
pub proof fn lemma_refs_push(l: Seq<u32>, a: u32)
    ensures
        refs(l.push(a)) == refs(l) + if a == refs(l) { 1nat } else { 0nat },
        fresh_ok(l.push(a)) == (fresh_ok(l) && a <= refs(l)),
{
    assert(l.push(a).drop_last() =~= l);
}

/// The operand list after one more clause, and how far it names slots.
pub proof fn lemma_args_refs(l: Seq<u32>, op: ClauseOp64, out: u32, w1: u32, w2: u32)
    ensures
        op.arg_count() == 0 ==> l + clause_args(op, seq![out, w1, w2]) == l,
        op.arg_count() == 1 ==> l + clause_args(op, seq![out, w1, w2]) == l.push(w1),
        op.arg_count() == 2 ==> l + clause_args(op, seq![out, w1, w2]) == l.push(w1).push(w2),
        refs(l.push(w1)) == refs(l) + if w1 == refs(l) { 1nat } else { 0nat },
        refs(l.push(w1).push(w2)) == refs(l.push(w1)) + if w2 == refs(l.push(w1)) { 1nat } else { 0nat },
{
    assert(l + seq![] =~= l);
    assert(l + seq![w1] =~= l.push(w1));
    assert(l + seq![w1, w2] =~= l.push(w1).push(w2));
    lemma_refs_push(l, w1);
    lemma_refs_push(l.push(w1), w2);
}

/// Operands of a prefix of clauses are a prefix of the operands.
pub proof fn lemma_operands_prefix(ops: Seq<ClauseOp64>, data: Seq<u32>, q: int, m: int)
    requires
        0 <= q <= m <= ops.len(),
    ensures
        fresh_ok(ops_operands(ops, data, m)) ==> fresh_ok(ops_operands(ops, data, q)),
    decreases m - q,
{
    if q < m {
        lemma_operands_prefix(ops, data, q, m - 1);
        let a = ops_operands(ops, data, m - 1);
        let b = ops_operands(ops, data, m);
        let c = b.subrange(a.len() as int, b.len() as int);
        assert(b =~= a + c);
        lemma_fresh_ok_append(a, c);
    }
}

/// `fresh_ok` holds of a prefix of a list where it holds.
pub proof fn lemma_fresh_ok_append(a: Seq<u32>, c: Seq<u32>)
    ensures
        fresh_ok(a + c) ==> fresh_ok(a),
    decreases c.len(),
{
    if c.len() > 0 {
        assert((a + c).drop_last() =~= a + c.drop_last());
        lemma_fresh_ok_append(a, c.drop_last());
    }
}

/// Appending a clause keeps the operands of the earlier clauses and adds
/// those of the new one.
pub proof fn lemma_operands_append(ops: Seq<ClauseOp64>, data: Seq<u32>, x: ClauseOp64, words: Seq<u32>)
    requires
        data.len() == data_len(ops),
        words.len() == x.width(),
    ensures
        forall|q: int| 0 <= q <= ops.len() ==> #[trigger] ops_operands(ops.push(x), data + words, q) == ops_operands(ops, data, q),
        ops_operands(ops.push(x), data + words, ops.len() + 1 as int) == ops_operands(ops, data, ops.len() as int)
            + clause_args(x, words),
{
    assert forall|q: int| 0 <= q <= ops.len() implies #[trigger] ops_operands(ops.push(x), data + words, q) == ops_operands(ops, data, q) by {
        lemma_operands_keep(ops, data, x, words, q);
    }
    lemma_operands_append_last(ops, data, x, words);
}

proof fn lemma_operands_keep(ops: Seq<ClauseOp64>, data: Seq<u32>, x: ClauseOp64, words: Seq<u32>, q: int)
    requires
        data.len() == data_len(ops),
        words.len() == x.width(),
        0 <= q <= ops.len(),
    ensures
        ops_operands(ops.push(x), data + words, q) == ops_operands(ops, data, q),
    decreases q,
{
    lemma_append(ops, data, x, words);
    if q > 0 {
        lemma_operands_keep(ops, data, x, words, q - 1);
        lemma_layout(ops, q - 1);
        assert(ops.push(x).take(q - 1) == ops.take(q - 1));
        assert((data + words).subrange(off(ops, q - 1), off(ops, q - 1) + ops[q - 1].width())
            =~= data.subrange(off(ops, q - 1), off(ops, q - 1) + ops[q - 1].width()));
    }
}

proof fn lemma_operands_append_last(ops: Seq<ClauseOp64>, data: Seq<u32>, x: ClauseOp64, words: Seq<u32>)
    requires
        data.len() == data_len(ops),
        words.len() == x.width(),
    ensures
        ops_operands(ops.push(x), data + words, ops.len() + 1 as int) == ops_operands(ops.push(x), data + words, ops.len() as int)
            + clause_args(x, words),
{
    lemma_append(ops, data, x, words);
    let o2 = ops.push(x);
    let d2 = data + words;
    assert(d2.subrange(off(o2, ops.len() as int), off(o2, ops.len() as int) + x.width()) =~= words);
}

/// A slot operand of a well-formed tape is one of its slots.
pub proof fn lemma_slot_below(t: &SsaTape, i: int, w: u32)
    requires
        t.wf(),
        0 <= i,
        written_after(t.tape@, t.data@, i, w),
    ensures
        w < t.tape@.len(),
{
    let k = choose|k: int| i < k < t.tape@.len() && #[trigger] slot_of(t.tape@, t.data@, k) == w;
    assert(slot_of(t.tape@, t.data@, k) < t.tape@.len());
}

/// Resolving an operand against the identity table: the slot keeps its
/// number, and a newly named slot extends the table by one.
pub proof fn lemma_identity_step(a: Seq<Option<u32>>, next: u32, w: u32, r: u32, a2: Seq<Option<u32>>, next2: u32)
    requires
        forall|x: int| 0 <= x < a.len() ==> #[trigger] a[x] == if x < next { Some(x as u32) } else { None::<u32> },
        (w as int) < a.len(),
        w <= next,
        a2 == a.update(w as int, Some(r)),
        a[w as int] matches Some(v) ==> r == v,
        a[w as int] is None ==> r == next,
        (r == next && next2 == next + 1) || (r < next && next2 == next),
    ensures
        r == w,
        next2 == next + if w == next { 1int } else { 0int },
        forall|x: int| 0 <= x < a2.len() ==> #[trigger] a2[x] == if x < next2 { Some(x as u32) } else { None::<u32> },
{
    assert(a[w as int] == if w < next { Some(w) } else { None::<u32> });
}

impl SsaTape {
    /// The tape is well formed (see `tape_wf`).
    pub open spec fn wf(&self) -> bool {
        tape_wf(self.tape@, self.data@, self.choice_count as nat)
    }

    /// The clause that position `p` of `s` lowers to stands in this tape,
    /// at the place that its execution index gives in root-first order.
    pub open spec fn clause_of(&self, s: &Scheduled, p: int) -> bool {
        let l = s.lowered(p);
        let q = self.tape@.len() - 1 - s.clause_index(p);
        &&& 0 <= q < self.tape@.len()
        &&& self.tape@[q] == l.0
        &&& self.arg(q, 0) == l.1
        &&& l.0.width() == 3 ==> self.arg(q, 1) == l.2
    }

    /// Every operation of `s` but a constant stands in this tape as the
    /// clause it lowers to.
    pub open spec fn lowered_from(&self, s: &Scheduled) -> bool {
        forall|p: int| 0 <= p < s.tape@.len() && !(s.tape@[p].1 is Const) ==> #[trigger] self.clause_of(s, p)
    }

    /// Output slot of clause `q`.
    pub open spec fn out_slot(&self, q: int) -> u32 {
        slot_of(self.tape@, self.data@, q)
    }

    /// Operand word `j` of clause `q`.
    pub open spec fn arg(&self, q: int, j: int) -> u32 {
        arg_of(self.tape@, self.data@, q, j)
    }
    /// The choices are one known choice per choice clause; `Unknown` is an
    /// encoding fault.
    pub open spec fn choices_ok(&self, choices: Seq<Choice>) -> bool {
        &&& choices.len() == self.choice_count
        &&& forall|k: int| 0 <= k < choices.len() ==> choices[k] != Choice::Unknown
    }

    /// Simplifying under these choices keeps the tape as it is.
    pub open spec fn keeps(&self, choices: Seq<Choice>) -> bool {
        &&& canonical(self.tape@, self.data@)
        &&& forall|k: int| 0 <= k < choices.len() ==> choices[k] == Choice::Both
    }

    /// State of the simplification walk before clause `i`, which starts at
    /// data word `j`.
    pub(crate) open spec fn walk_inv(&self, pass: &SimplifyPass, choices: Seq<Choice>, reg_limit: u8, i: int, j: int) -> bool {
        &&& pass.inv(self, i)
        &&& j == off(self.tape@, i)
        &&& self.choices_ok(choices)
        &&& pass.choices@ == choices
        &&& pass.alloc.reg_limit == reg_limit
        &&& pass.ops_out@.len() > 0 || pass.next == 1
        &&& pass.next == refs(ops_operands(pass.ops_out@, pass.data_out@, pass.ops_out@.len() as int))
        &&& self.keeps(choices) ==> {
            &&& pass.ops_out@ == self.tape@.take(i)
            &&& pass.data_out@ == self.data@.take(j)
            &&& pass.next == refs(ops_operands(self.tape@, self.data@, i))
            &&& forall|x: int| 0 <= x < self.tape@.len() ==> #[trigger] pass.active@[x] == if x < pass.next {
                Some(x as u32)
            } else {
                None::<u32>
            }
        }
    }

    /// What the walk knows of a clause kept as it is.
    proof fn lemma_keep_clause(&self, pass: &SimplifyPass, choices: Seq<Choice>, reg_limit: u8, i: int, j: int)
        requires
            self.walk_inv(pass, choices, reg_limit, i, j),
            i < self.tape@.len(),
            self.keeps(choices),
        ensures
            ({
                let op = self.tape@[i];
                let ls = ops_operands(self.tape@, self.data@, i);
                let words = self.data@.subrange(j, j + op.width());
                &&& words[0] == self.out_slot(i)
                &&& pass.active@[self.out_slot(i) as int] == Some(self.out_slot(i))
                &&& ops_operands(self.tape@, self.data@, i + 1) == ls + clause_args(op, words)
                &&& op.arg_count() >= 1 ==> words[1] <= refs(ls)
                &&& op.arg_count() == 2 ==> words[2] <= refs(ls.push(words[1]))
                &&& op == ClauseOp64::CopyReg ==> words[1] < refs(ls)
                &&& self.tape@.take(i + 1) == self.tape@.take(i).push(op)
                &&& self.data@.take(j + op.width()) == self.data@.take(j) + words
                &&& clause_args(op, words) == clause_args(op, seq![words[0], words[1], if op.width() == 3 { words[2] } else { 0u32 }])
            }),
    {
        let op = self.tape@[i];
        let ls = ops_operands(self.tape@, self.data@, i);
        let words = self.data@.subrange(j, j + op.width());
        lemma_layout(self.tape@, i);
        lemma_operands_prefix(self.tape@, self.data@, i + 1, self.tape@.len() as int);
        assert(self.tape@.take(i + 1) =~= self.tape@.take(i).push(op));
        assert(self.data@.take(j + op.width()) =~= self.data@.take(j) + words);
        lemma_refs_push(ls, words[1]);
        if op.width() == 3 {
            lemma_refs_push(ls.push(words[1]), words[2]);
            assert(ls + seq![words[1], words[2]] =~= ls.push(words[1]).push(words[2]));
        }
        assert(ls + seq![words[1]] =~= ls.push(words[1]));
        if i > 0 {
            assert(slot_of(self.tape@, self.data@, i) < refs(ls));
        }
        if op == ClauseOp64::CopyReg {
            assert(arg_of(self.tape@, self.data@, i, 0) < refs(ls));
        }
    }

    /// The words of clause `i`, kept as they are.
    proof fn lemma_keep_words(&self, i: int, j: int, op: ClauseOp64, new_index: u32, w1: u32, w2: u32)
        requires
            self.wf(),
            0 <= i < self.tape@.len(),
            j == off(self.tape@, i),
            op == self.tape@[i],
            new_index == self.out_slot(i),
            w1 == self.data@[j + 1],
            op.width() == 3 ==> w2 == self.data@[j + 2],
        ensures
            ({
                let words = self.data@.subrange(j, j + op.width());
                &&& clause_args(op, words) == clause_args(op, seq![new_index, w1, w2])
                &&& words == if op.width() == 2 { seq![new_index, w1] } else { seq![new_index, w1, w2] }
            }),
    {
        lemma_layout(self.tape@, i);
        let words = self.data@.subrange(j, j + op.width());
        if op.width() == 2 {
            assert(words =~= seq![new_index, w1]);
        } else {
            assert(words =~= seq![new_index, w1, w2]);
        }
    }

    /// Emits clause `i` as `op` writing `new_index`: slot operands are
    /// resolved to new slots, other words are kept.
    #[verifier::rlimit(100)]
    fn walk_emit(
        &self,
        pass: &mut SimplifyPass,
        Ghost(choices): Ghost<Seq<Choice>>,
        Ghost(reg_limit): Ghost<u8>,
        Ghost(i): Ghost<int>,
        Ghost(j): Ghost<int>,
        op: ClauseOp64,
        new_index: u32,
        w1: u32,
        w2: u32,
    )
        requires
            self.walk_inv(old(pass), choices, reg_limit, i, j),
            i < self.tape@.len(),
            old(pass).active@[self.out_slot(i) as int] == Some(new_index),
            op != ClauseOp64::CopyReg,
            rewrites_to(self, choices, i, op),
            op == self.tape@[i] ==> w1 == self.arg(i, 0) && (op.width() == 3 ==> w2 == self.arg(i, 1)),
            (op == ClauseOp64::Input || (op == ClauseOp64::CopyImm && self.tape@[i] == ClauseOp64::CopyImm))
                ==> w1 == self.arg(i, 0),
            (op == ClauseOp64::CopyImm && self.tape@[i] != ClauseOp64::CopyImm) ==> w1 == self.arg(i, 1),
            (op.width() == 3 && op.arg_count() == 1) ==> w2 == self.arg(i, 1),
            op == ClauseOp64::Input ==> w1 < 3,
            op.arg_count() >= 1 ==> written_after(self.tape@, self.data@, i, w1),
            op.arg_count() == 2 ==> written_after(self.tape@, self.data@, i, w2),
            self.keeps(choices) ==> op == self.tape@[i] && w1 == self.data@[j + 1] && (op.width() == 3
                ==> w2 == self.data@[j + 2]),
        ensures
            self.walk_inv(final(pass), choices, reg_limit, i + 1, j + self.tape@[i].width()),
            final(pass).choice_count == old(pass).choice_count + if op.is_choice() { 1int } else { 0int },
    {
        let ghost l = ops_operands(pass.ops_out@, pass.data_out@, pass.ops_out@.len() as int);
        let ghost next0 = pass.next;
        proof {
            lemma_layout(self.tape@, i);
            assert(new_index < pass.next);
            if self.keeps(choices) {
                self.lemma_keep_clause(pass, choices, reg_limit, i, j);
                self.lemma_keep_words(i, j, op, new_index, w1, w2);
                lemma_args_refs(ops_operands(self.tape@, self.data@, i), op, new_index, w1, w2);
            }
        }
        let ghost a0 = pass.active@;
        let ghost cc0 = pass.choice_count;
        let a = if op.arg_count_exec() >= 1 {
            pass.resolve(self, Ghost(i), w1)
        } else {
            w1
        };
        let ghost a1 = pass.active@;
        let ghost next1 = pass.next;
        proof {
            if self.keeps(choices) && op.arg_count() >= 1 {
                lemma_slot_below(self, i, w1);
                lemma_identity_step(a0, next0, w1, a, a1, next1);
            }
        }
        let b = if op.arg_count_exec() == 2 {
            pass.resolve(self, Ghost(i), w2)
        } else {
            w2
        };
        proof {
            lemma_args_refs(l, op, new_index, a, b);
            if self.keeps(choices) {
                if op.arg_count() == 2 {
                    lemma_slot_below(self, i, w2);
                    lemma_identity_step(a1, next1, w2, b, pass.active@, pass.next);
                }
                self.lemma_keep_words(i, j, op, new_index, w1, w2);
                lemma_args_refs(ops_operands(self.tape@, self.data@, i), op, new_index, a, b);
            }
        }
        assert(pass.choice_count == cc0);
        pass.emit(self, Ghost(i), op, new_index, a, b);
        proof {
            if self.keeps(choices) {
                assert(pass.data_out@ =~= self.data@.take(j + op.width()));
            }
        }
    }

    /// Clause `i` copies source slot `src_slot` into `new_index`.
    fn walk_copy(
        &self,
        pass: &mut SimplifyPass,
        Ghost(choices): Ghost<Seq<Choice>>,
        Ghost(reg_limit): Ghost<u8>,
        Ghost(i): Ghost<int>,
        Ghost(j): Ghost<int>,
        new_index: u32,
        src_slot: u32,
    )
        requires
            self.walk_inv(old(pass), choices, reg_limit, i, j),
            i < self.tape@.len(),
            old(pass).active@[self.out_slot(i) as int] == Some(new_index),
            written_after(self.tape@, self.data@, i, src_slot),
            rewrites_to(self, choices, i, ClauseOp64::CopyReg),
            (self.tape@[i] == ClauseOp64::CopyReg || chosen(self, choices, i) == Choice::Left) ==> src_slot
                == self.arg(i, 0),
            (self.tape@[i].is_choice() && chosen(self, choices, i) == Choice::Right) ==> src_slot == self.arg(i, 1),
            self.keeps(choices) ==> self.tape@[i] == ClauseOp64::CopyReg && src_slot == self.data@[j + 1],
        ensures
            self.walk_inv(final(pass), choices, reg_limit, i + 1, j + self.tape@[i].width()),
            final(pass).choice_count == old(pass).choice_count,
    {
        proof {
            lemma_layout(self.tape@, i);
            assert(new_index < pass.next);
            if self.keeps(choices) {
                self.lemma_keep_clause(pass, choices, reg_limit, i, j);
                let words = self.data@.subrange(j, j + 2);
                assert(words[1] == src_slot);
                assert(pass.active@[src_slot as int] == Some(src_slot));
                lemma_args_refs(ops_operands(self.tape@, self.data@, i), ClauseOp64::CopyReg, new_index, src_slot, 0);
                assert(clause_args(ClauseOp64::CopyReg, words) =~= seq![src_slot]);
            }
        }
        pass.copy_or_collapse(self, Ghost(i), new_index, src_slot);
        proof {
            if self.keeps(choices) {
                assert(pass.data_out@ =~= self.data@.take(j + 2));
            }
        }
    }

    /// Simplifies the tape under `choices`, one per choice clause, matched
    /// from the end of the slice to the root-first order of the tape.
    ///
    /// Returns the new tape, which keeps only the clauses that the root
    /// still uses and numbers their slots afresh from 0 at the root, and the
    /// matching register-assigned instructions in reverse execution order.
    /// Under all-`Both` choices a canonical tape, such as any result of this
    /// function, comes back unchanged.
    #[verifier::rlimit(100)]
    pub fn simplify(&self, choices: &[Choice], reg_limit: u8) -> (r: (SsaTape, Vec<AsmOp>))
        requires
            self.wf(),
            self.choices_ok(choices@),
            reg_limit >= 1,
        ensures
            r.0.wf(),
            r.0.out_slot(0) == 0,
            r.0.tape@.len() <= self.tape@.len(),
            forall|q: int, j: int| 0 <= q < r.0.tape@.len() && 0 <= j < r.0.tape@[q].arg_count()
                ==> #[trigger] r.0.arg(q, j) < r.0.tape@.len(),
            r.0.choice_count == choice_ops(r.0.tape@),
            canonical(r.0.tape@, r.0.data@),
            self.keeps(choices@) ==> r.0.tape@ == self.tape@ && r.0.data@ == self.data@ && r.0.choice_count
                == self.choice_count,
            r.0.choice_count <= unresolved_count(choices@),
            simplified_from(self, choices@, r.0.tape@, r.0.data@),
            instr_count(r.1@) == r.0.tape@.len(),
            instr_kinds(r.1@) == r.0.tape@,
            instr_words(r.1@) == clause_words(r.0.tape@, r.0.data@),
            forall|k: int| 0 <= k < r.1@.len() ==> #[trigger] r.1@[k].regs_below(reg_limit as int),
    {
        let n = self.tape.len();
        let data_words = self.data.len();
        proof {
            assert(self.tape@.take(0) =~= Seq::<ClauseOp64>::empty());
            assert(self.out_slot(0) == self.data@[0]);
        }
        let mut active: Vec<Option<u32>> = Vec::new();
        while active.len() < n
            invariant
                active@.len() <= n,
                forall|k: int| 0 <= k < active@.len() ==> active@[k] is None,
            decreases n - active@.len(),
        {
            active.push(None);
        }
        let root = self.data[0];
        active.set(root as usize, Some(0));
        let mut alloc = SsaTapeAllocator::new(reg_limit);
        alloc.get_register(0, false);
        let ghost first_home: Seq<int> = seq![0int];
        let ghost first_done: Seq<bool> = seq![false];
        let mut pass = SimplifyPass {
            active,
            next: 1,
            ops_out: Vec::new(),
            data_out: Vec::new(),
            choice_count: 0,
            alloc,
            home: Ghost(first_home),
            done: Ghost(first_done),
            src_of: Ghost(Seq::<int>::empty()),
            choices: Ghost(choices@),
        };
        proof {
            assert forall|k: int| 1 <= k < n implies pass.active@[#[trigger] self.out_slot(k) as int] is None by {
                assert(self.out_slot(0) != self.out_slot(k));
            }
            lemma_pending_none(self, pass.active@, 1);
            assert(pass.ops_out@.take(0) =~= Seq::<ClauseOp64>::empty());
            assert(ops_operands(pass.ops_out@, pass.data_out@, 0) == Seq::<u32>::empty());
            assert(clause_words(pass.ops_out@, pass.data_out@) =~= Seq::<u32>::empty());
            if self.keeps(choices@) {
                assert(pass.ops_out@ =~= self.tape@.take(0));
                assert(pass.data_out@ =~= self.data@.take(0));
                assert forall|x: int| 0 <= x < n implies #[trigger] pass.active@[x] == if x < pass.next {
                    Some(x as u32)
                } else {
                    None::<u32>
                } by {
                    if x != 0 {
                        assert(pass.active@[x] == active@[x]);
                    }
                }
            }
        }
        let mut i: usize = 0;
        let mut j: usize = 0;
        let mut ci: usize = 0;
        while i < n
            invariant
                self.walk_inv(&pass, choices@, reg_limit, i as int, j as int),
                n == self.tape@.len(),
                data_words == self.data@.len(),
                ci == choice_ops(self.tape@.take(i as int)),
                ci <= choices@.len(),
                pass.choice_count <= unresolved_count(choices@.subrange(choices@.len() - ci, choices@.len() as int)),
            decreases n - i,
        {
            proof {
                lemma_layout(self.tape@, i as int);
            }
            let ghost gi = i as int;
            let ghost gj = j as int;
            let op = self.tape[i];
            assert(j + op.width() <= self.data@.len());
            let index = self.data[j];
            proof {
                assert(self.out_slot(gi) == index);
            }
            if pass.active[index as usize].is_none() {
                proof {
                    pass.lemma_skip(self, gi);
                    if self.keeps(choices@) {
                        self.lemma_keep_clause(&pass, choices@, reg_limit, gi, gj);
                    }
                }
                if op.has_choice() {
                    proof {
                        lemma_both_step(choices@, choices@.len() - ci);
                    }
                    ci = ci + 1;
                }
            } else {
                let new_index = pass.active[index as usize].unwrap();
                let w1 = self.data[j + 1];
                let w2 = if op.data_width() == 3 { self.data[j + 2] } else { 0 };
                proof {
                    assert(self.arg(gi, 0) == self.data@[j + 1]);
                    if op.width() == 3 {
                        assert(self.arg(gi, 1) == self.data@[j + 2]);
                    }
                }
                match op {
                    ClauseOp64::CopyReg => {
                        self.walk_copy(&mut pass, Ghost(choices@), Ghost(reg_limit), Ghost(gi), Ghost(gj), new_index, w1);
                    },
                    ClauseOp64::MinRegImm | ClauseOp64::MaxRegImm | ClauseOp64::MinRegReg
                    | ClauseOp64::MaxRegReg => {
                        let c = choices[choices.len() - 1 - ci];
                        proof {
                            lemma_both_step(choices@, choices@.len() - ci);
                            assert(chosen(self, choices@, gi) == c);
                        }
                        ci = ci + 1;
                        match c {
                            Choice::Left => {
                                self.walk_copy(&mut pass, Ghost(choices@), Ghost(reg_limit), Ghost(gi), Ghost(gj), new_index, w1);
                            },
                            Choice::Right => {
                                if op.arg_count_exec() == 2 {
                                    self.walk_copy(&mut pass, Ghost(choices@), Ghost(reg_limit), Ghost(gi), Ghost(gj), new_index, w2);
                                } else {
                                    self.walk_emit(&mut pass, Ghost(choices@), Ghost(reg_limit), Ghost(gi), Ghost(gj), ClauseOp64::CopyImm, new_index, w2, 0);
                                }
                            },
                            // `Both`; the precondition rules out `Unknown`
                            _ => {
                                self.walk_emit(&mut pass, Ghost(choices@), Ghost(reg_limit), Ghost(gi), Ghost(gj), op, new_index, w1, w2);
                            },
                        }
                    },
                    _ => {
                        self.walk_emit(&mut pass, Ghost(choices@), Ghost(reg_limit), Ghost(gi), Ghost(gj), op, new_index, w1, w2);
                    },
                }
            }
            j = j + op.data_width();
            i = i + 1;
        }
        proof {
            if self.keeps(choices@) {
                assert(self.tape@.take(n as int) =~= self.tape@);
                assert(self.data@.take(j as int) =~= self.data@);
            }
            assert(self.tape@.take(n as int) =~= self.tape@);
            assert(choices@.subrange(0, choices@.len() as int) =~= choices@);
        }
        let ghost m = pass.src_of@;
        let ghost rho = pass.active@;
        let r = pass.finish(self);
        proof {
            assert(relates(self, choices@, r.0.tape@, r.0.data@, m, rho));
        }
        r
    }
    /// Lowers a scheduled expression into a tape in root-first order.
    ///
    /// Each operation but a constant becomes one clause whose output slot is
    /// its index in execution order; constants become immediates of the
    /// clauses that read them.
    #[verifier::rlimit(100)]
    pub fn new(s: &Scheduled) -> (r: SsaTape)
        requires
            s.wf(),
        ensures
            r.wf(),
            r.tape@.len() == non_const_count(s.tape@),
            r.choice_count == choice_count_of(s.tape@),
            forall|q: int| 0 <= q < r.tape@.len() ==> #[trigger] r.out_slot(q) == r.tape@.len() - 1 - q,
            r.lowered_from(s),
    {
        let mut builder = SsaTapeBuilder::new(s);
        builder.run();
        proof {
            assert(s.tape@.take(s.tape@.len() as int) =~= s.tape@);
            assert(s.tape@.take(s.tape@.len() as int - 1) =~= s.tape@.drop_last());
            assert(builder.clauses@.take(builder.clauses@.len() as int) =~= builder.clauses@);
        }
        let n = builder.clauses.len();
        let ghost cl = builder.clauses@;
        let mut tape: Vec<ClauseOp64> = Vec::new();
        let mut data: Vec<u32> = Vec::new();
        let mut p: usize = 0;
        while p < n
            invariant
                builder.inv(),
                cl == builder.clauses@,
                n == cl.len(),
                1 <= n <= MAX_TAPE_LEN,
                p <= n,
                tape@.len() == p,
                data@.len() == data_len(tape@),
                choice_ops(tape@) + clause_choices(cl.take(n - p)) == clause_choices(cl),
                forall|q: int| 0 <= q < p ==> tape@[q] == #[trigger] cl[n - 1 - q].0,
                forall|q: int| 0 <= q < p ==> #[trigger] slot_of(tape@, data@, q) == n - 1 - q,
                forall|q: int| 0 <= q < p ==> #[trigger] arg_of(tape@, data@, q, 0) == cl[n - 1 - q].2,
                forall|q: int| 0 <= q < p ==> tape@[q].width() == 3 ==> #[trigger] arg_of(tape@, data@, q, 1) == cl[n - 1 - q].3,
            decreases n - p,
        {
            let (op, out, w1, w2) = builder.clauses[n - 1 - p];
            let ghost o = tape@;
            let ghost d = data@;
            let ghost words = if op.width() == 2 { seq![out, w1] } else { seq![out, w1, w2] };
            proof {
                lemma_append(o, d, op, words);
                crate::op::lemma_push_counts(o, op);
                lemma_clause_step(cl, n - 1 - p);
            }
            tape.push(op);
            data.push(out);
            data.push(w1);
            if op.data_width() == 3 {
                data.push(w2);
            }
            proof {
                assert(data@ == d + words);
                assert(cl.take(n - p) == cl.take((n - 1 - p) + 1));
            }
            p = p + 1;
        }
        proof {
            let o = tape@;
            let d = data@;
            assert(cl.take(0) =~= Seq::<crate::builder::Clause>::empty());
            assert forall|q: int, j: int| 0 <= q < n && 0 <= j < o[q].arg_count() implies written_after(
                o, d, q, #[trigger] arg_of(o, d, q, j)) by {
                assert(clause_ok(cl[n - 1 - q], n - 1 - q));
                let a = arg_of(o, d, q, j) as int;
                assert(slot_of(o, d, n - 1 - a) == a);
            }
            assert forall|q: int| 0 <= q < n && o[q] == ClauseOp64::Input implies #[trigger] arg_of(o, d, q, 0) < 3 by {
                assert(clause_ok(cl[n - 1 - q], n - 1 - q));
            }
        }
        let r = SsaTape { tape, data, choice_count: builder.choice_count };
        proof {
            assert forall|p: int| 0 <= p < s.tape@.len() && !(s.tape@[p].1 is Const) implies #[trigger] r.clause_of(s, p) by {
                crate::scheduled::lemma_sched_mono(s.tape@, p, s.tape@.len() as int);
                let t = s.clause_index(p) as int;
                assert(builder.sched.lowered(p) == s.lowered(p));
                assert(cl[t] == (s.lowered(p).0, t as u32, s.lowered(p).1, s.lowered(p).2));
                assert(n - 1 - (n - 1 - t) == t);
            }
        }
        r
    }
}

} // verus!
