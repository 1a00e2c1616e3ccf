//! Opcode model: the SSA-level clause opcodes, the register-level opcodes,
//! and the per-`min`/`max` choice tag.
use vstd::prelude::*;

verus! {

/// A single choice made at a `min` / `max` node during a prior evaluation.
///
/// `Unknown` marks a buffer entry that no evaluation has written yet;
/// simplification does not accept it.
#[derive(Copy, Clone, Debug, PartialEq, Eq, Structural)]
pub enum Choice {
    Left,
    Right,
    Both,
    Unknown,
}

/// Something that can be shortened under a choice vector.
pub trait Simplify: Sized {
    /// The value is well formed.
    spec fn valid(&self) -> bool;

    /// `choices` is a choice vector that this value can be simplified under.
    spec fn accepts(&self, choices: Seq<Choice>) -> bool;

    fn simplify(&self, choices: &[Choice]) -> (r: Self)
        requires
            self.valid(),
            self.accepts(choices@),
        ensures
            r.valid(),
    ;
}

/// Opcodes of the single-assignment tape.
#[derive(Copy, Clone, Debug, PartialEq, Eq, Structural)]
pub enum ClauseOp64 {
    /// Reads one of the inputs (X, Y, Z)
    Input,
    /// Copy an immediate to a slot
    CopyImm,
    /// Negates a slot
    NegReg,
    /// Takes the absolute value of a slot
    AbsReg,
    /// Takes the reciprocal of a slot
    RecipReg,
    /// Takes the square root of a slot
    SqrtReg,
    /// Squares a slot
    SquareReg,
    /// Copies the given slot
    CopyReg,
    /// Adds a slot and an immediate
    AddRegImm,
    /// Multiplies a slot and an immediate
    MulRegImm,
    /// Subtracts a slot from an immediate
    SubImmReg,
    /// Subtracts an immediate from a slot
    SubRegImm,
    /// Adds two slots
    AddRegReg,
    /// Multiplies two slots
    MulRegReg,
    /// Subtracts two slots
    SubRegReg,
    /// Minimum of a slot and an immediate
    MinRegImm,
    /// Maximum of a slot and an immediate
    MaxRegImm,
    /// Minimum of two slots
    MinRegReg,
    /// Maximum of two slots
    MaxRegReg,
}


/// Register-form opcodes of the asm tape.
///
/// Register operands are `u8` indices below the tape's register limit;
/// immediates hold the bit pattern of an `f32`; `Load` and `Store` move a
/// register to or from a memory slot.
#[derive(Copy, Clone, Debug, PartialEq, Eq, Structural)]
pub enum AsmOp {
    Input(u8, u8),
    CopyImm(u8, u32),
    NegReg(u8, u8),
    AbsReg(u8, u8),
    RecipReg(u8, u8),
    SqrtReg(u8, u8),
    SquareReg(u8, u8),
    CopyReg(u8, u8),
    AddRegImm(u8, u8, u32),
    MulRegImm(u8, u8, u32),
    SubImmReg(u8, u8, u32),
    SubRegImm(u8, u8, u32),
    MinRegImm(u8, u8, u32),
    MaxRegImm(u8, u8, u32),
    AddRegReg(u8, u8, u8),
    MulRegReg(u8, u8, u8),
    SubRegReg(u8, u8, u8),
    MinRegReg(u8, u8, u8),
    MaxRegReg(u8, u8, u8),
    Load(u8, u32),
    Store(u8, u32),
}

impl ClauseOp64 {
    /// Number of slot operands read by this opcode.
    pub open spec fn arg_count(self) -> nat {
        match self {
            ClauseOp64::Input | ClauseOp64::CopyImm => 0,
            ClauseOp64::AddRegReg | ClauseOp64::MulRegReg | ClauseOp64::SubRegReg
            | ClauseOp64::MinRegReg | ClauseOp64::MaxRegReg => 2,
            _ => 1,
        }
    }

    /// Number of `u32` words this opcode occupies in a tape's data stream.
    pub open spec fn width(self) -> nat {
        match self {
            ClauseOp64::Input | ClauseOp64::CopyImm | ClauseOp64::NegReg | ClauseOp64::AbsReg
            | ClauseOp64::RecipReg | ClauseOp64::SqrtReg | ClauseOp64::SquareReg
            | ClauseOp64::CopyReg => 2,
            _ => 3,
        }
    }

    /// Whether this opcode is a `min` / `max`, which consumes one choice.
    pub open spec fn is_choice(self) -> bool {
        matches!(self, ClauseOp64::MinRegImm | ClauseOp64::MaxRegImm | ClauseOp64::MinRegReg | ClauseOp64::MaxRegReg)
    }

    /// Whether this opcode consumes a choice.
    pub fn has_choice(&self) -> (r: bool)
        ensures
            r == self.is_choice(),
    {
        matches!(self, ClauseOp64::MinRegImm | ClauseOp64::MaxRegImm | ClauseOp64::MinRegReg | ClauseOp64::MaxRegReg)
    }

    /// Number of slot operands read by this opcode.
    pub fn arg_count_exec(&self) -> (r: usize)
        ensures
            r == self.arg_count(),
    {
        match self {
            ClauseOp64::Input | ClauseOp64::CopyImm => 0,
            ClauseOp64::AddRegReg | ClauseOp64::MulRegReg | ClauseOp64::SubRegReg
            | ClauseOp64::MinRegReg | ClauseOp64::MaxRegReg => 2,
            _ => 1,
        }
    }

    /// Words in the data stream for this opcode.
    pub fn data_width(&self) -> (r: usize)
        ensures
            r == self.width(),
    {
        match self {
            ClauseOp64::Input | ClauseOp64::CopyImm | ClauseOp64::NegReg | ClauseOp64::AbsReg
            | ClauseOp64::RecipReg | ClauseOp64::SqrtReg | ClauseOp64::SquareReg
            | ClauseOp64::CopyReg => 2,
            _ => 3,
        }
    }
}

impl AsmOp {
    /// Whether this is a memory transfer rather than a computation.
    pub open spec fn is_memory(self) -> bool {
        matches!(self, AsmOp::Load(..) | AsmOp::Store(..))
    }

    /// Every register operand of this instruction is below `limit`.
    pub open spec fn regs_below(self, limit: int) -> bool {
        match self {
            AsmOp::Input(o, _) | AsmOp::CopyImm(o, _) | AsmOp::Load(o, _) | AsmOp::Store(o, _) => o < limit,
            AsmOp::NegReg(o, a) | AsmOp::AbsReg(o, a) | AsmOp::RecipReg(o, a) | AsmOp::SqrtReg(o, a)
            | AsmOp::SquareReg(o, a) | AsmOp::CopyReg(o, a) => o < limit && a < limit,
            AsmOp::AddRegImm(o, a, _) | AsmOp::MulRegImm(o, a, _) | AsmOp::SubImmReg(o, a, _)
            | AsmOp::SubRegImm(o, a, _) | AsmOp::MinRegImm(o, a, _) | AsmOp::MaxRegImm(o, a, _) => o
                < limit && a < limit,
            AsmOp::AddRegReg(o, a, b) | AsmOp::MulRegReg(o, a, b) | AsmOp::SubRegReg(o, a, b)
            | AsmOp::MinRegReg(o, a, b) | AsmOp::MaxRegReg(o, a, b) => o < limit && a < limit && b
                < limit,
        }
    }
}

/// Clause opcode that a computing instruction carries out (`Input` for a
/// memory transfer, which carries out none).
pub open spec fn kind_of(a: AsmOp) -> ClauseOp64 {
    match a {
        AsmOp::Input(..) | AsmOp::Load(..) | AsmOp::Store(..) => ClauseOp64::Input,
        AsmOp::CopyImm(..) => ClauseOp64::CopyImm,
        AsmOp::NegReg(..) => ClauseOp64::NegReg,
        AsmOp::AbsReg(..) => ClauseOp64::AbsReg,
        AsmOp::RecipReg(..) => ClauseOp64::RecipReg,
        AsmOp::SqrtReg(..) => ClauseOp64::SqrtReg,
        AsmOp::SquareReg(..) => ClauseOp64::SquareReg,
        AsmOp::CopyReg(..) => ClauseOp64::CopyReg,
        AsmOp::AddRegImm(..) => ClauseOp64::AddRegImm,
        AsmOp::MulRegImm(..) => ClauseOp64::MulRegImm,
        AsmOp::SubImmReg(..) => ClauseOp64::SubImmReg,
        AsmOp::SubRegImm(..) => ClauseOp64::SubRegImm,
        AsmOp::MinRegImm(..) => ClauseOp64::MinRegImm,
        AsmOp::MaxRegImm(..) => ClauseOp64::MaxRegImm,
        AsmOp::AddRegReg(..) => ClauseOp64::AddRegReg,
        AsmOp::MulRegReg(..) => ClauseOp64::MulRegReg,
        AsmOp::SubRegReg(..) => ClauseOp64::SubRegReg,
        AsmOp::MinRegReg(..) => ClauseOp64::MinRegReg,
        AsmOp::MaxRegReg(..) => ClauseOp64::MaxRegReg,
    }
}

/// Opcodes of the computing instructions of an asm stream, in order.
pub open spec fn instr_kinds(s: Seq<AsmOp>) -> Seq<ClauseOp64>
    decreases s.len(),
{
    if s.len() == 0 {
        seq![]
    } else if s.last().is_memory() {
        instr_kinds(s.drop_last())
    } else {
        instr_kinds(s.drop_last()).push(kind_of(s.last()))
    }
}

/// Register form of a one-operand clause `op`.
pub open spec fn unary_instr(op: ClauseOp64, o: u8, a: u8) -> AsmOp {
    match op {
        ClauseOp64::NegReg => AsmOp::NegReg(o, a),
        ClauseOp64::AbsReg => AsmOp::AbsReg(o, a),
        ClauseOp64::RecipReg => AsmOp::RecipReg(o, a),
        ClauseOp64::SqrtReg => AsmOp::SqrtReg(o, a),
        ClauseOp64::SquareReg => AsmOp::SquareReg(o, a),
        _ => AsmOp::CopyReg(o, a),
    }
}

/// Register form of a two-slot clause `op`.
pub open spec fn reg_reg_instr(op: ClauseOp64, o: u8, a: u8, b: u8) -> AsmOp {
    match op {
        ClauseOp64::AddRegReg => AsmOp::AddRegReg(o, a, b),
        ClauseOp64::SubRegReg => AsmOp::SubRegReg(o, a, b),
        ClauseOp64::MulRegReg => AsmOp::MulRegReg(o, a, b),
        ClauseOp64::MinRegReg => AsmOp::MinRegReg(o, a, b),
        _ => AsmOp::MaxRegReg(o, a, b),
    }
}

/// Register form of a slot-and-immediate clause `op`.
pub open spec fn reg_imm_instr(op: ClauseOp64, o: u8, a: u8, imm: u32) -> AsmOp {
    match op {
        ClauseOp64::AddRegImm => AsmOp::AddRegImm(o, a, imm),
        ClauseOp64::SubRegImm => AsmOp::SubRegImm(o, a, imm),
        ClauseOp64::SubImmReg => AsmOp::SubImmReg(o, a, imm),
        ClauseOp64::MulRegImm => AsmOp::MulRegImm(o, a, imm),
        ClauseOp64::MinRegImm => AsmOp::MinRegImm(o, a, imm),
        _ => AsmOp::MaxRegImm(o, a, imm),
    }
}

/// The word of an instruction that is not a register: the axis of `Input`,
/// the immediate of `CopyImm` and of the register-immediate forms, 0 for the
/// rest.
pub open spec fn asm_word(a: AsmOp) -> u32 {
    match a {
        AsmOp::Input(_, i) => i as u32,
        AsmOp::CopyImm(_, imm) => imm,
        AsmOp::AddRegImm(_, _, imm) | AsmOp::MulRegImm(_, _, imm) | AsmOp::SubImmReg(_, _, imm)
        | AsmOp::SubRegImm(_, _, imm) | AsmOp::MinRegImm(_, _, imm) | AsmOp::MaxRegImm(_, _, imm) => imm,
        _ => 0,
    }
}

/// Non-register words of the computing instructions of an asm stream, in
/// order.
pub open spec fn instr_words(s: Seq<AsmOp>) -> Seq<u32>
    decreases s.len(),
{
    if s.len() == 0 {
        seq![]
    } else if s.last().is_memory() {
        instr_words(s.drop_last())
    } else {
        instr_words(s.drop_last()).push(asm_word(s.last()))
    }
}

/// Number of computing (non-memory) instructions in an asm stream.
pub open spec fn instr_count(s: Seq<AsmOp>) -> nat
    decreases s.len(),
{
    if s.len() == 0 {
        0
    } else {
        instr_count(s.drop_last()) + if s.last().is_memory() { 0nat } else { 1nat }
    }
}

/// Number of memory transfers (`Load` / `Store`) in an asm stream.
pub open spec fn transfer_count(s: Seq<AsmOp>) -> nat
    decreases s.len(),
{
    if s.len() == 0 {
        0
    } else {
        transfer_count(s.drop_last()) + if s.last().is_memory() { 1nat } else { 0nat }
    }
}

/// Every instruction of an asm stream is either a computation or a memory
/// transfer.
pub proof fn lemma_asm_split(s: Seq<AsmOp>)
    ensures
        instr_count(s) + transfer_count(s) == s.len(),
    decreases s.len(),
{
    if s.len() > 0 {
        lemma_asm_split(s.drop_last());
    }
}

/// Number of entries of a choice vector that resolve nothing (`Both`).
pub open spec fn unresolved_count(c: Seq<Choice>) -> nat
    decreases c.len(),
{
    if c.len() == 0 {
        0
    } else {
        (if c[0] == Choice::Both { 1nat } else { 0nat }) + unresolved_count(c.subrange(1, c.len() as int))
    }
}

/// A choice vector has no more unresolved entries than entries.
pub proof fn lemma_both_bound(c: Seq<Choice>)
    ensures
        unresolved_count(c) <= c.len(),
    decreases c.len(),
{
    if c.len() > 0 {
        lemma_both_bound(c.subrange(1, c.len() as int));
    }
}

/// Widening a suffix of a choice vector by one entry adds that entry.
pub proof fn lemma_both_step(c: Seq<Choice>, lo: int)
    requires
        0 < lo <= c.len(),
    ensures
        unresolved_count(c.subrange(lo - 1, c.len() as int)) == unresolved_count(c.subrange(lo, c.len() as int))
            + if c[lo - 1] == Choice::Both { 1nat } else { 0nat },
{
    assert(c.subrange(lo - 1, c.len() as int).subrange(1, c.len() - lo + 1) =~= c.subrange(lo, c.len() as int));
}

/// Number of choice opcodes in a sequence of opcodes.
pub open spec fn choice_ops(ops: Seq<ClauseOp64>) -> nat
    decreases ops.len(),
{
    if ops.len() == 0 {
        0
    } else {
        choice_ops(ops.drop_last()) + if ops.last().is_choice() { 1nat } else { 0nat }
    }
}

/// There are no more choice opcodes than opcodes.
pub proof fn lemma_choice_ops_bound(ops: Seq<ClauseOp64>)
    ensures
        choice_ops(ops) <= ops.len(),
    decreases ops.len(),
{
    if ops.len() > 0 {
        lemma_choice_ops_bound(ops.drop_last());
    }
}

/// Length of the data stream that a sequence of opcodes occupies.
pub open spec fn data_len(ops: Seq<ClauseOp64>) -> nat
    decreases ops.len(),
{
    if ops.len() == 0 {
        0
    } else {
        data_len(ops.drop_last()) + ops.last().width()
    }
}

/// Counts over a prefix grow with the prefix.
pub proof fn lemma_prefix_mono(ops: Seq<ClauseOp64>, i: int, m: int)
    requires
        0 <= i <= m <= ops.len(),
    ensures
        choice_ops(ops.take(i)) <= choice_ops(ops.take(m)),
        data_len(ops.take(i)) <= data_len(ops.take(m)),
    decreases m - i,
{
    if i < m {
        lemma_prefix_step(ops, m - 1);
        lemma_prefix_mono(ops, i, m - 1);
    }
}

/// Extending a prefix by one opcode adds that opcode's counts.
pub proof fn lemma_prefix_step(ops: Seq<ClauseOp64>, i: int)
    requires
        0 <= i < ops.len(),
    ensures
        choice_ops(ops.take(i + 1)) == choice_ops(ops.take(i)) + if ops[i].is_choice() { 1nat } else { 0nat },
        data_len(ops.take(i + 1)) == data_len(ops.take(i)) + ops[i].width(),
{
    assert(ops.take(i + 1).drop_last() =~= ops.take(i));
}

/// A prefix of a sequence is unchanged by pushing onto the sequence.
pub proof fn lemma_push_counts(ops: Seq<ClauseOp64>, x: ClauseOp64)
    ensures
        choice_ops(ops.push(x)) == choice_ops(ops) + if x.is_choice() { 1nat } else { 0nat },
        data_len(ops.push(x)) == data_len(ops) + x.width(),
        forall|k: int| 0 <= k <= ops.len() ==> #[trigger] ops.push(x).take(k) == ops.take(k),
{
    assert(ops.push(x).drop_last() =~= ops);
    assert forall|k: int| 0 <= k <= ops.len() implies #[trigger] ops.push(x).take(k) == ops.take(k) by {
        assert(ops.push(x).take(k) =~= ops.take(k));
    }
}

/// Pushing onto an asm stream adds the instruction to the matching count.
pub proof fn lemma_asm_push(s: Seq<AsmOp>, x: AsmOp)
    ensures
        instr_count(s.push(x)) == instr_count(s) + if x.is_memory() { 0nat } else { 1nat },
        instr_kinds(s.push(x)) == if x.is_memory() { instr_kinds(s) } else { instr_kinds(s).push(kind_of(x)) },
        instr_words(s.push(x)) == if x.is_memory() { instr_words(s) } else { instr_words(s).push(asm_word(x)) },
        transfer_count(s.push(x)) == transfer_count(s) + if x.is_memory() { 1nat } else { 0nat },
{
    assert(s.push(x).drop_last() =~= s);
}

} // verus!
