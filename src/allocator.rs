//! Bounded register allocator that emits the asm tape in reverse execution
//! order, spilling to an unbounded memory arena when registers run out.
use vstd::prelude::*;

use crate::op::{
    instr_count, instr_kinds, instr_words, lemma_asm_push, reg_imm_instr, reg_reg_instr, unary_instr, AsmOp, ClauseOp64,
};

verus! {

/// Marker for a node without a slot, or a register without a node.
pub const UNASSIGNED: u32 = 0xffff_ffff;

/// Upper bound on the allocator's clock, which keeps every counter in range.
pub const TIME_LIMIT: usize = 0xf000_0000;

pub(crate) struct SsaTapeAllocator {
    /// Map from a node of the SSA tape to a register (below `reg_limit`) or a
    /// memory slot (at or above it); `UNASSIGNED` if it has neither.
    pub(crate) allocations: Vec<u32>,
    /// Map from a register to the node that holds it, or `UNASSIGNED`.
    pub(crate) registers: Vec<u32>,
    /// Last access time of each register
    pub(crate) register_lru: Vec<usize>,
    pub(crate) time: usize,
    /// Registers available to the tape; beyond this, values live in memory.
    pub(crate) reg_limit: u8,
    /// Released registers, most recent at the back
    pub(crate) spare_registers: Vec<u8>,
    /// Released memory slots, most recent at the back
    pub(crate) spare_memory: Vec<u32>,
    /// Number of distinct registers and memory slots ever handed out
    pub(crate) total_slots: u32,
    /// Output instructions, in reverse execution order
    pub(crate) out: Vec<AsmOp>,
}

/// `out` holds `instr` at or after position `from`, followed only by memory
/// transfers.
pub(crate) open spec fn ends_with_instr(out: Seq<AsmOp>, from: int, instr: AsmOp) -> bool {
    exists|p: int| from <= p < out.len() && out[p] == instr && forall|q: int| p < q < out.len() ==> #[trigger] out[q].is_memory()
}

impl SsaTapeAllocator {
    pub(crate) open spec fn inv(&self) -> bool {
        &&& self.inv_core()
        &&& self.total_slots as int <= self.time as int
    }

    /// Current slot of node `n`, or `UNASSIGNED`.
    pub(crate) open spec fn alloc_of(&self, n: u32) -> u32 {
        if (n as int) < self.allocations@.len() {
            self.allocations@[n as int]
        } else {
            UNASSIGNED
        }
    }

    /// Getting a register for `n` evicts the least recently used register:
    /// `n` is not in a register, and no spare or fresh register is left.
    pub(crate) open spec fn evicts(&self, n: u32) -> bool {
        &&& self.alloc_of(n) >= self.reg_limit
        &&& self.spare_registers@.len() == 0
        &&& self.total_slots >= self.reg_limit
    }

    /// The memory slot that `get_memory` hands out next.
    pub(crate) open spec fn next_memory(&self) -> u32 {
        if self.spare_memory@.len() > 0 {
            self.spare_memory@.last()
        } else {
            self.total_slots
        }
    }

    /// The invariant, but for the bound on handed-out slots.
    pub(crate) open spec fn inv_core(&self) -> bool {
        &&& self.reg_limit >= 1
        &&& self.registers@.len() == self.reg_limit as int
        &&& self.register_lru@.len() == self.reg_limit as int
        &&& forall|k: int| 0 <= k < self.spare_registers@.len()
            ==> #[trigger] self.spare_registers@[k] < self.reg_limit && self.spare_registers@[k] < self.total_slots
        &&& forall|k: int| 0 <= k < self.spare_memory@.len() ==> #[trigger] self.spare_memory@[k] >= self.reg_limit
            && self.spare_memory@[k] < UNASSIGNED
        &&& forall|x: int| 0 <= x < self.allocations@.len() && #[trigger] self.allocations@[x] < self.reg_limit
            ==> self.allocations@[x] < self.total_slots && self.registers@[self.allocations@[x] as int] == x as u32
        &&& forall|k: int| 0 <= k < self.spare_registers@.len()
            ==> self.registers@[#[trigger] self.spare_registers@[k] as int] == UNASSIGNED
        &&& self.spare_registers@.no_duplicates()
        &&& self.allocations@.len() <= UNASSIGNED
        &&& forall|k: int| 0 <= k < self.reg_limit ==> #[trigger] self.register_lru@[k] < self.time || self.register_lru@[k] == 0
        &&& self.time <= TIME_LIMIT
        &&& forall|r: int| 0 <= r < self.reg_limit && #[trigger] self.registers@[r] != UNASSIGNED
            ==> (self.registers@[r] as int) < self.allocations@.len()
            && self.allocations@[self.registers@[r] as int] == r as u32
        &&& forall|r: int| 0 <= r < self.reg_limit && r >= self.total_slots ==> #[trigger] self.registers@[r] == UNASSIGNED
        &&& forall|r: int| 0 <= r < self.reg_limit && r < self.total_slots && #[trigger] self.registers@[r] == UNASSIGNED
            ==> self.spare_registers@.contains(r as u8)
        &&& forall|k: int| 0 <= k < self.out@.len()
            ==> #[trigger] self.out@[k].regs_below(self.reg_limit as int)
    }

    pub(crate) fn new(reg_limit: u8) -> (r: Self)
        requires
            reg_limit >= 1,
        ensures
            r.inv(),
            r.reg_limit == reg_limit,
            r.time == 0,
            r.out@.len() == 0,
            r.allocations@.len() == 0,
            r.registers@ == Seq::new(reg_limit as nat, |k: int| UNASSIGNED),
            r.register_lru@ == Seq::new(reg_limit as nat, |k: int| 0usize),
            r.spare_registers@.len() == 0,
            r.spare_memory@.len() == 0,
            r.total_slots == 0,
    {
        let mut registers: Vec<u32> = Vec::new();
        let mut register_lru: Vec<usize> = Vec::new();
        while registers.len() < reg_limit as usize
            invariant
                registers@.len() == register_lru@.len(),
                registers@.len() <= reg_limit,
                forall|k: int| 0 <= k < registers@.len() ==> registers@[k] == UNASSIGNED,
                forall|k: int| 0 <= k < register_lru@.len() ==> register_lru@[k] == 0usize,
            decreases reg_limit - registers@.len(),
        {
            registers.push(UNASSIGNED);
            register_lru.push(0);
        }
        proof {
            assert(registers@ =~= Seq::new(reg_limit as nat, |k: int| UNASSIGNED));
            assert(register_lru@ =~= Seq::new(reg_limit as nat, |k: int| 0usize));
        }
        Self {
            allocations: Vec::new(),
            registers,
            register_lru,
            time: 0,
            reg_limit,
            spare_registers: Vec::new(),
            spare_memory: Vec::new(),
            total_slots: 0,
            out: Vec::new(),
        }
    }

    /// Returns an available memory slot; memory is treated as unlimited.
    pub(crate) fn get_memory(&mut self) -> (r: u32)
        requires
            old(self).inv_core(),
            old(self).total_slots < UNASSIGNED,
            old(self).total_slots >= old(self).reg_limit,
        ensures
            final(self).inv_core(),
            final(self).allocations@ == old(self).allocations@,
            final(self).registers@ == old(self).registers@,
            final(self).spare_registers@ == old(self).spare_registers@,
            final(self).register_lru@ == old(self).register_lru@,
            final(self).time == old(self).time,
            final(self).reg_limit == old(self).reg_limit,
            final(self).out@ == old(self).out@,
            final(self).total_slots <= old(self).total_slots + 1,
            final(self).total_slots >= old(self).total_slots,
            r >= final(self).reg_limit,
            r < UNASSIGNED,
            old(self).spare_memory@.len() > 0 ==> r == old(self).spare_memory@.last() && final(self).spare_memory@
                == old(self).spare_memory@.drop_last() && final(self).total_slots == old(self).total_slots,
            old(self).spare_memory@.len() == 0 ==> r == old(self).total_slots && final(self).total_slots
                == old(self).total_slots + 1 && final(self).spare_memory@ == old(self).spare_memory@,
    {
        if let Some(p) = self.spare_memory.pop() {
            p
        } else {
            let out = self.total_slots;
            self.total_slots = self.total_slots + 1;
            out
        }
    }

    /// Finds the least recently used register, to be evicted.
    pub(crate) fn oldest_reg(&self) -> (r: u8)
        requires
            self.inv(),
        ensures
            r < self.reg_limit,
            forall|k: int| 0 <= k < self.register_lru@.len()
                ==> self.register_lru@[r as int] <= #[trigger] self.register_lru@[k],
            forall|k: int| 0 <= k < r ==> self.register_lru@[r as int] < #[trigger] self.register_lru@[k],
    {
        let mut best: usize = 0;
        let mut i: usize = 1;
        while i < self.register_lru.len()
            invariant
                self.inv(),
                1 <= i <= self.register_lru@.len(),
                best < i,
                forall|k: int| 0 <= k < i ==> self.register_lru@[best as int] <= #[trigger] self.register_lru@[k],
                forall|k: int| 0 <= k < best ==> self.register_lru@[best as int] < #[trigger] self.register_lru@[k],
            decreases self.register_lru@.len() - i,
        {
            if self.register_lru[i] < self.register_lru[best] {
                best = i;
            }
            i = i + 1;
        }
        best as u8
    }

    /// Returns the slot of node `n`, or `UNASSIGNED`, growing the table to
    /// cover `n`.
    pub(crate) fn get_allocation(&mut self, n: u32) -> (r: u32)
        requires
            old(self).inv(),
            n < UNASSIGNED,
        ensures
            final(self).inv(),
            final(self).time == old(self).time,
            final(self).reg_limit == old(self).reg_limit,
            final(self).total_slots == old(self).total_slots,
            final(self).out@ == old(self).out@,
            (n as int) < final(self).allocations@.len(),
            r == final(self).allocations@[n as int],
            final(self).registers@ == old(self).registers@,
            final(self).spare_registers@ == old(self).spare_registers@,
            forall|k: int| 0 <= k < old(self).allocations@.len() ==> final(self).allocations@[k] == old(self).allocations@[k],
            r == old(self).alloc_of(n),
            final(self).allocations@.len() >= old(self).allocations@.len(),
            forall|x: u32| #[trigger] final(self).alloc_of(x) == old(self).alloc_of(x),
            forall|k: int| old(self).allocations@.len() <= k < final(self).allocations@.len() ==> final(self).allocations@[k]
                == UNASSIGNED,
            final(self).register_lru@ == old(self).register_lru@,
            final(self).spare_memory@ == old(self).spare_memory@,
    {
        while self.allocations.len() <= n as usize
            invariant
                self.inv(),
                n < UNASSIGNED,
                self.time == old(self).time,
                self.reg_limit == old(self).reg_limit,
                self.total_slots == old(self).total_slots,
                self.out@ == old(self).out@,
                self.registers@ == old(self).registers@,
                self.spare_registers@ == old(self).spare_registers@,
                old(self).allocations@.len() <= self.allocations@.len(),
                forall|k: int| 0 <= k < old(self).allocations@.len() ==> self.allocations@[k] == old(self).allocations@[k],
                forall|k: int| old(self).allocations@.len() <= k < self.allocations@.len() ==> self.allocations@[k] == UNASSIGNED,
                self.allocations@.len() <= n as int + 1 || self.allocations@.len() == old(self).allocations@.len(),
                self.register_lru@ == old(self).register_lru@,
                self.spare_memory@ == old(self).spare_memory@,
            decreases n as int + 1 - self.allocations@.len(),
        {
            let ghost a0 = self.allocations@;
            self.allocations.push(UNASSIGNED);
            proof {
                assert forall|x: int| 0 <= x < self.allocations@.len() && #[trigger] self.allocations@[x] < self.reg_limit
                    implies self.allocations@[x] < self.total_slots && self.registers@[self.allocations@[x] as int]
                    == x as u32 by {
                    assert(x < a0.len());
                    assert(a0[x] == self.allocations@[x]);
                }
                assert forall|r: int| 0 <= r < self.reg_limit && #[trigger] self.registers@[r] != UNASSIGNED
                    implies (self.registers@[r] as int) < self.allocations@.len()
                    && self.allocations@[self.registers@[r] as int] == r as u32 by {
                    assert(a0[self.registers@[r] as int] == r as u32);
                }
            }
        }
        self.allocations[n as usize]
    }

    /// Returns a register holding node `n`, spilling the least recently used
    /// register to memory if none is free.
    ///
    /// Because the output is built in reverse, a spill is written as a `Load`
    /// (a store when executed) and a reload as a `Store`.
    pub(crate) fn get_register(&mut self, n: u32, defer: bool) -> (r: u8)
        requires
            old(self).inv(),
            n < UNASSIGNED,
            old(self).time < TIME_LIMIT,
        ensures
            final(self).inv(),
            r < final(self).reg_limit,
            final(self).reg_limit == old(self).reg_limit,
            final(self).time == old(self).time + 1,
            instr_count(final(self).out@) == instr_count(old(self).out@),
            instr_kinds(final(self).out@) == instr_kinds(old(self).out@),
            instr_words(final(self).out@) == instr_words(old(self).out@),
            (n as int) < final(self).allocations@.len(),
            final(self).registers@[r as int] == n,
            final(self).register_lru@[r as int] == old(self).time,
            final(self).allocations@[n as int] == r as u32,
            final(self).total_slots >= old(self).total_slots,
            forall|x: u32| x != n && old(self).alloc_of(x) != UNASSIGNED ==> #[trigger] final(self).alloc_of(x)
                != UNASSIGNED,
            forall|x: u32| x != n && old(self).alloc_of(x) >= old(self).reg_limit ==> #[trigger] final(self).alloc_of(x)
                == old(self).alloc_of(x),
            forall|x: u8| #[trigger] old(self).spare_registers@.contains(x) && x != r ==> final(self).spare_registers@.contains(x),
            old(self).alloc_of(n) < old(self).reg_limit ==> final(self).spare_registers@ == old(self).spare_registers@
                && final(self).spare_memory@ == old(self).spare_memory@ && final(self).total_slots == old(self).total_slots,
            old(self).evicts(n) ==> final(self).allocations@[old(self).registers@[r as int] as int] == old(self).next_memory(),
            old(self).alloc_of(n) >= old(self).reg_limit && old(self).alloc_of(n) != UNASSIGNED && !defer
                ==> final(self).spare_memory@.len() > 0 && final(self).spare_memory@.last() == old(self).alloc_of(n),
            forall|k: int| 0 <= k < old(self).reg_limit && k != r ==> final(self).registers@[k] == old(self).registers@[k]
                && final(self).register_lru@[k] == old(self).register_lru@[k],
            old(self).alloc_of(n) < old(self).reg_limit ==> r == old(self).alloc_of(n) && final(self).out@ == old(
                self,
            ).out@,
            old(self).alloc_of(n) >= old(self).reg_limit && old(self).spare_registers@.len() > 0 ==> r == old(
                self,
            ).spare_registers@.last(),
            old(self).alloc_of(n) >= old(self).reg_limit && old(self).spare_registers@.len() == 0
                && old(self).total_slots < old(self).reg_limit ==> r == old(self).total_slots,
            old(self).evicts(n) ==> (forall|k: int| 0 <= k < old(self).reg_limit ==> old(self).register_lru@[r as int]
                <= #[trigger] old(self).register_lru@[k]) && (forall|k: int| 0 <= k < r ==> old(self).register_lru@[r as int]
                < #[trigger] old(self).register_lru@[k]),
            old(self).alloc_of(n) >= old(self).reg_limit && !old(self).evicts(n) && old(self).alloc_of(n) == UNASSIGNED
                ==> final(self).out@ == old(self).out@,
            old(self).alloc_of(n) >= old(self).reg_limit && !old(self).evicts(n) && old(self).alloc_of(n) != UNASSIGNED
                ==> final(self).out@ == if defer {
                old(self).out@
            } else {
                old(self).out@.push(AsmOp::Store(r, old(self).alloc_of(n)))
            },
            old(self).evicts(n) && old(self).alloc_of(n) == UNASSIGNED ==> final(self).out@ == old(self).out@.push(
                AsmOp::Load(r, old(self).next_memory()),
            ),
            old(self).evicts(n) && old(self).alloc_of(n) != UNASSIGNED ==> final(self).out@ == if defer {
                old(self).out@.push(AsmOp::Load(r, old(self).next_memory()))
            } else {
                old(self).out@.push(AsmOp::Load(r, old(self).next_memory())).push(AsmOp::Store(r, old(self).alloc_of(n)))
            },
    {
        let slot = self.get_allocation(n);
        let ghost regs0 = self.registers@;
        let ghost allocs0 = self.allocations@;
        let ghost spare0 = self.spare_registers@;
        let ghost total0 = self.total_slots;
        let ghost limit = self.reg_limit as int;
        let ghost mut prev: int = -1;
        let reg = if slot >= self.reg_limit as u32 {
            let spare = self.spare_registers.pop();
            let reg = match spare {
                Some(reg) => {
                    proof {
                        assert(spare0 =~= self.spare_registers@.push(reg));
                        assert(spare0[spare0.len() - 1] == reg);
                    }
                    reg
                },
                None => {
                    if self.total_slots < self.reg_limit as u32 {
                        let reg = self.total_slots as u8;
                        self.total_slots = self.total_slots + 1;
                        reg
                    } else {
                        let reg = self.oldest_reg();
                        let mem = self.get_memory();
                        let prev_node = self.registers[reg as usize];
                        proof {
                            if prev_node == UNASSIGNED {
                                assert(self.spare_registers@.contains(reg));
                            }
                        }
                        self.allocations.set(prev_node as usize, mem);
                        proof {
                            prev = prev_node as int;
                        }
                        proof {
                            lemma_asm_push(self.out@, AsmOp::Load(reg, mem));
                        }
                        self.out.push(AsmOp::Load(reg, mem));
                        reg
                    }
                },
            };
            if slot != UNASSIGNED && !defer {
                self.spare_memory.push(slot);
                proof {
                    lemma_asm_push(self.out@, AsmOp::Store(reg, slot));
                }
                self.out.push(AsmOp::Store(reg, slot));
            }
            reg
        } else {
            slot as u8
        };
        proof {
            if slot < limit {
                assert(self.registers@ == regs0);
            }
            assert(self.spare_registers@ == spare0 || spare0 == self.spare_registers@.push(reg));
            assert(prev == -1 || (regs0[reg as int] == prev && allocs0[prev] == reg as u32));
            assert(forall|k: int| 0 <= k < allocs0.len() && k != prev ==> self.allocations@[k] == allocs0[k]);
            assert(self.allocations@.len() == allocs0.len());
            assert(self.registers@ == regs0);
            assert(self.total_slots == total0 || (self.total_slots == total0 + 1 && (reg == total0 || total0 >= limit)));
            assert(reg < self.total_slots);
        }
        let ghost allocs_mid = self.allocations@;
        assert(allocs_mid.len() == allocs0.len());
        self.registers.set(reg as usize, n);
        self.allocations.set(n as usize, reg as u32);
        self.register_lru.set(reg as usize, self.time);
        self.time = self.time + 1;
        proof {
            assert forall|x: u32| x != n && old(self).alloc_of(x) != UNASSIGNED implies #[trigger] self.alloc_of(x)
                != UNASSIGNED by {
                assert((x as int) < old(self).allocations@.len());
                assert(allocs0[x as int] == old(self).allocations@[x as int]);
                assert(self.allocations@[x as int] == allocs_mid[x as int]);
                if x as int != prev {
                    assert(allocs_mid[x as int] == allocs0[x as int]);
                }
            }
            assert forall|x: u32| x != n && old(self).alloc_of(x) >= old(self).reg_limit implies #[trigger] self.alloc_of(x)
                == old(self).alloc_of(x) by {
                if (x as int) < allocs0.len() {
                    if (x as int) < old(self).allocations@.len() {
                        assert(allocs0[x as int] == old(self).allocations@[x as int]);
                    }
                    if x as int == prev {
                        assert(allocs0[prev] == reg as u32);
                    }
                    assert(self.allocations@[x as int] == allocs_mid[x as int]);
                    assert(allocs_mid[x as int] == allocs0[x as int]);
                }
            }
        }
        proof {
            let limit = self.reg_limit as int;
            assert(regs0[reg as int] == n || regs0[reg as int] == UNASSIGNED || regs0[reg as int] == prev as u32);
            assert forall|x: int| 0 <= x < self.allocations@.len() && #[trigger] self.allocations@[x] < limit
                implies self.allocations@[x] < self.total_slots && self.registers@[self.allocations@[x] as int]
                == x as u32 by {
                if x != n as int {
                    assert(x != prev);
                    assert(x < allocs0.len());
                    assert(self.allocations@[x] == allocs0[x]);
                    assert(regs0[allocs0[x] as int] == x as u32);
                    assert(allocs0[x] != reg as u32);
                }
            }
        }
        reg
    }

    /// After the instruction that reads it, reloads operand register `reg`
    /// from memory slot `slot` if the operand lived there. The output is built
    /// in reverse, so the transfer runs before that instruction.
    pub(crate) fn reload_after(&mut self, reg: u8, slot: u32)
        requires
            old(self).inv(),
            reg < old(self).reg_limit,
        ensures
            final(self).inv(),
            final(self).reg_limit == old(self).reg_limit,
            final(self).time == old(self).time,
            final(self).registers@ == old(self).registers@,
            final(self).allocations@ == old(self).allocations@,
            final(self).spare_registers@ == old(self).spare_registers@,
            instr_count(final(self).out@) == instr_count(old(self).out@),
            instr_kinds(final(self).out@) == instr_kinds(old(self).out@),
            instr_words(final(self).out@) == instr_words(old(self).out@),
            slot >= old(self).reg_limit && slot != UNASSIGNED ==> final(self).out@ == old(self).out@.push(
                AsmOp::Store(reg, slot),
            ),
            !(slot >= old(self).reg_limit && slot != UNASSIGNED) ==> final(self).out@ == old(self).out@,
    {
        if slot >= self.reg_limit as u32 && slot != UNASSIGNED {
            self.spare_memory.push(slot);
            proof {
                lemma_asm_push(self.out@, AsmOp::Store(reg, slot));
            }
            self.out.push(AsmOp::Store(reg, slot));
        }
    }

    /// Releases a register back to the pool of spares.
    pub(crate) fn release(&mut self, reg: u8)
        requires
            old(self).inv(),
            reg < old(self).reg_limit,
            old(self).registers@[reg as int] != UNASSIGNED,
        ensures
            final(self).inv(),
            final(self).reg_limit == old(self).reg_limit,
            final(self).time == old(self).time,
            final(self).total_slots == old(self).total_slots,
            final(self).out@ == old(self).out@,
            final(self).allocations@.len() == old(self).allocations@.len(),
            final(self).registers@ == old(self).registers@.update(reg as int, UNASSIGNED),
            final(self).spare_registers@ == old(self).spare_registers@.push(reg),
            final(self).allocations@ == old(self).allocations@.update(old(self).registers@[reg as int] as int, UNASSIGNED),
            final(self).spare_memory@ == old(self).spare_memory@,
            final(self).register_lru@ == old(self).register_lru@,
    {
        let ghost regs0 = self.registers@;
        let ghost allocs0 = self.allocations@;
        let ghost spare0 = self.spare_registers@;
        let node = self.registers[reg as usize];
        self.registers.set(reg as usize, UNASSIGNED);
        self.spare_registers.push(reg);
        self.allocations.set(node as usize, UNASSIGNED);
        proof {
            let limit = self.reg_limit as int;
            assert(reg < self.total_slots);
            assert forall|r: int| 0 <= r < limit && #[trigger] self.registers@[r] != UNASSIGNED
                implies (self.registers@[r] as int) < self.allocations@.len()
                && self.allocations@[self.registers@[r] as int] == r as u32 by {
                assert(r != reg);
                assert(regs0[r] != UNASSIGNED);
                if regs0[r] == node {
                    assert(allocs0[node as int] == r as u32);
                    assert(allocs0[node as int] == reg as u32);
                }
            }
            assert forall|x: int| 0 <= x < self.allocations@.len() && #[trigger] self.allocations@[x] < limit
                implies self.allocations@[x] < self.total_slots && self.registers@[self.allocations@[x] as int] == x as u32 by {
                assert(x != node as int);
                assert(allocs0[x] == self.allocations@[x]);
                assert(old(self).allocations@[x] < limit);
                assert(regs0[allocs0[x] as int] == x as u32);
                assert(allocs0[x] != reg as u32);
            }
            assert forall|k: int| 0 <= k < self.spare_registers@.len()
                implies self.registers@[#[trigger] self.spare_registers@[k] as int] == UNASSIGNED by {
                if k < spare0.len() {
                    assert(regs0[spare0[k] as int] == UNASSIGNED);
                }
            }
            assert(!spare0.contains(reg)) by {
                if spare0.contains(reg) {
                    let k = choose|k: int| 0 <= k < spare0.len() && spare0[k] == reg;
                    assert(regs0[spare0[k] as int] == UNASSIGNED);
                }
            }
            assert(self.spare_registers@.no_duplicates()) by {
                assert forall|a: int, b: int| 0 <= a < b < self.spare_registers@.len()
                    implies self.spare_registers@[a] != self.spare_registers@[b] by {
                    if b == spare0.len() {
                        assert(spare0[a] == self.spare_registers@[a]);
                    }
                }
            }
            assert forall|r: int| 0 <= r < limit && r < self.total_slots && #[trigger] self.registers@[r] == UNASSIGNED
                implies self.spare_registers@.contains(r as u8) by {
                if r == reg {
                    assert(self.spare_registers@[spare0.len() as int] == reg);
                } else {
                    assert(regs0[r] == UNASSIGNED);
                    assert(spare0.contains(r as u8));
                    let k = choose|k: int| 0 <= k < spare0.len() && spare0[k] == r as u8;
                    assert(self.spare_registers@[k] == r as u8);
                }
            }
        }
    }

    /// Emits a one-operand instruction (a unary opcode or `CopyReg`).
    pub(crate) fn op_reg(&mut self, out: u32, arg: u32, op: ClauseOp64)
        requires
            old(self).alloc_of(out) != UNASSIGNED,
            out != arg,
            old(self).inv(),
            out < UNASSIGNED,
            arg < UNASSIGNED,
            op.arg_count() == 1 && op.width() == 2,
            old(self).time + 2 <= TIME_LIMIT,
        ensures
            final(self).inv(),
            final(self).reg_limit == old(self).reg_limit,
            final(self).time == old(self).time + 2,
            instr_count(final(self).out@) == instr_count(old(self).out@) + 1,
            instr_kinds(final(self).out@) == instr_kinds(old(self).out@).push(op),
            instr_words(final(self).out@) == instr_words(old(self).out@).push(0u32),
            exists|ro: u8, ra: u8| ends_with_instr(final(self).out@, old(self).out@.len() as int, #[trigger] unary_instr(op, ro, ra))
                && (ro != ra ==> final(self).registers@[ro as int] == UNASSIGNED && final(self).spare_registers@.contains(ro))
                && final(self).registers@[ra as int] == arg && (old(self).alloc_of(out) < old(self).reg_limit ==> ro == old(self).alloc_of(out)),
            final(self).alloc_of(out) == UNASSIGNED,
            forall|x: u32| x != out && old(self).alloc_of(x) != UNASSIGNED ==> #[trigger] final(self).alloc_of(x)
                != UNASSIGNED,
            final(self).alloc_of(arg) != UNASSIGNED,
    {
        let ghost op0 = op;
        let ro = self.get_register(out, false);
        let ghost s1 = *self;
        self.release(ro);
        proof {
            assert(self.alloc_of(out) == UNASSIGNED);
            assert forall|x: u32| x != out && old(self).alloc_of(x) != UNASSIGNED implies #[trigger] self.alloc_of(x)
                != UNASSIGNED by {
                assert(s1.alloc_of(x) != UNASSIGNED);
            }
        }
        let ghost s2 = *self;
        let sa = self.get_allocation(arg);
        let ghost pre_ra = *self;
        let ra = self.get_register(arg, true);
        let ghost post_ra = *self;
        let op = match op {
            ClauseOp64::NegReg => AsmOp::NegReg(ro, ra),
            ClauseOp64::AbsReg => AsmOp::AbsReg(ro, ra),
            ClauseOp64::RecipReg => AsmOp::RecipReg(ro, ra),
            ClauseOp64::SqrtReg => AsmOp::SqrtReg(ro, ra),
            ClauseOp64::SquareReg => AsmOp::SquareReg(ro, ra),
            _ => AsmOp::CopyReg(ro, ra),
        };
        proof {
            lemma_asm_push(self.out@, op);
        }
        self.out.push(op);
        let ghost at = self.out@.len();
        self.reload_after(ra, sa);
        proof {
            assert(self.out@[at - 1] == unary_instr(op0, ro, ra));
            assert(ends_with_instr(self.out@, old(self).out@.len() as int, unary_instr(op0, ro, ra)));
        }
        proof {
            assert forall|x: u32| x != out && old(self).alloc_of(x) != UNASSIGNED implies #[trigger] self.alloc_of(x)
                != UNASSIGNED by {
                assert(s2.alloc_of(x) != UNASSIGNED);
                assert(pre_ra.alloc_of(x) != UNASSIGNED);
                assert(post_ra.alloc_of(x) != UNASSIGNED);
            }
            assert(self.alloc_of(out) == UNASSIGNED) by {
                assert(s2.alloc_of(out) == UNASSIGNED);
                assert(pre_ra.alloc_of(out) == UNASSIGNED);
                assert(post_ra.alloc_of(out) == UNASSIGNED);
            }
            assert(self.alloc_of(arg) != UNASSIGNED) by {
                assert(post_ra.alloc_of(arg) != UNASSIGNED);
            }
        }
    }

    /// Emits a two-operand instruction.
    pub(crate) fn op_reg_reg(&mut self, out: u32, lhs: u32, rhs: u32, op: ClauseOp64)
        requires
            old(self).alloc_of(out) != UNASSIGNED,
            out != lhs,
            out != rhs,
            old(self).inv(),
            out < UNASSIGNED,
            lhs < UNASSIGNED,
            rhs < UNASSIGNED,
            op.arg_count() == 2,
            old(self).time + 3 <= TIME_LIMIT,
        ensures
            final(self).inv(),
            final(self).reg_limit == old(self).reg_limit,
            final(self).time == old(self).time + 3,
            instr_count(final(self).out@) == instr_count(old(self).out@) + 1,
            instr_kinds(final(self).out@) == instr_kinds(old(self).out@).push(op),
            instr_words(final(self).out@) == instr_words(old(self).out@).push(0u32),
            exists|ro: u8, rl: u8, rr: u8| ends_with_instr(final(self).out@, old(self).out@.len() as int, #[trigger] reg_reg_instr(op, ro, rl, rr))
                && (ro != rl && ro != rr ==> final(self).registers@[ro as int] == UNASSIGNED && final(self).spare_registers@.contains(ro))
                && final(self).registers@[rr as int] == rhs && (final(self).reg_limit >= 2 || lhs == rhs
                ==> final(self).registers@[rl as int] == lhs) && (old(self).alloc_of(out) < old(self).reg_limit ==> ro == old(self).alloc_of(out)),
            final(self).alloc_of(out) == UNASSIGNED,
            forall|x: u32| x != out && old(self).alloc_of(x) != UNASSIGNED ==> #[trigger] final(self).alloc_of(x)
                != UNASSIGNED,
            final(self).alloc_of(lhs) != UNASSIGNED,
            final(self).alloc_of(rhs) != UNASSIGNED,
    {
        let ghost op0 = op;
        let ro = self.get_register(out, false);
        let ghost s1 = *self;
        self.release(ro);
        proof {
            assert(self.alloc_of(out) == UNASSIGNED);
            assert forall|x: u32| x != out && old(self).alloc_of(x) != UNASSIGNED implies #[trigger] self.alloc_of(x)
                != UNASSIGNED by {
                assert(s1.alloc_of(x) != UNASSIGNED);
            }
        }
        let ghost s2 = *self;
        let ghost t = self.time;
        let sl = self.get_allocation(lhs);
        let ghost pre_rl = *self;
        let rl = self.get_register(lhs, true);
        let ghost post_rl = *self;
        let sr = self.get_allocation(rhs);
        let ghost mid = *self;
        let ghost pre_rr = *self;
        let rr = self.get_register(rhs, true);
        let ghost post_rr = *self;
        proof {
            if self.reg_limit >= 2 && rr == rl {
                if mid.alloc_of(rhs) < mid.reg_limit {
                    if rhs != lhs {
                        assert(mid.allocations@[rhs as int] < mid.reg_limit);
                        assert(mid.registers@[rr as int] == rhs);
                    }
                } else if mid.spare_registers@.len() > 0 {
                    assert(mid.registers@[mid.spare_registers@[mid.spare_registers@.len() - 1] as int] == UNASSIGNED);
                } else if mid.total_slots < mid.reg_limit {
                    assert(mid.registers@[mid.total_slots as int] == UNASSIGNED);
                } else {
                    let k: int = if rl == 0 { 1 } else { 0 };
                    assert(mid.register_lru@[k] < t || mid.register_lru@[k] == 0);
                    assert(mid.register_lru@[rl as int] == t);
                    assert(mid.register_lru@[rr as int] <= mid.register_lru@[k]);
                }
            }
        }
        let op = match op {
            ClauseOp64::AddRegReg => AsmOp::AddRegReg(ro, rl, rr),
            ClauseOp64::SubRegReg => AsmOp::SubRegReg(ro, rl, rr),
            ClauseOp64::MulRegReg => AsmOp::MulRegReg(ro, rl, rr),
            ClauseOp64::MinRegReg => AsmOp::MinRegReg(ro, rl, rr),
            _ => AsmOp::MaxRegReg(ro, rl, rr),
        };
        proof {
            lemma_asm_push(self.out@, op);
        }
        self.out.push(op);
        let ghost at = self.out@.len();
        self.reload_after(rl, sl);
        self.reload_after(rr, sr);
        proof {
            assert(self.out@[at - 1] == reg_reg_instr(op0, ro, rl, rr));
            assert(ends_with_instr(self.out@, old(self).out@.len() as int, reg_reg_instr(op0, ro, rl, rr)));
        }
        proof {
            assert forall|x: u32| x != out && old(self).alloc_of(x) != UNASSIGNED implies #[trigger] self.alloc_of(x)
                != UNASSIGNED by {
                assert(s2.alloc_of(x) != UNASSIGNED);
                assert(pre_rl.alloc_of(x) != UNASSIGNED);
                assert(post_rl.alloc_of(x) != UNASSIGNED);
                assert(pre_rr.alloc_of(x) != UNASSIGNED);
                assert(post_rr.alloc_of(x) != UNASSIGNED);
            }
            assert(self.alloc_of(out) == UNASSIGNED) by {
                assert(s2.alloc_of(out) == UNASSIGNED);
                assert(pre_rl.alloc_of(out) == UNASSIGNED);
                assert(post_rl.alloc_of(out) == UNASSIGNED);
                assert(pre_rr.alloc_of(out) == UNASSIGNED);
                assert(post_rr.alloc_of(out) == UNASSIGNED);
            }
            assert(self.alloc_of(lhs) != UNASSIGNED) by {
                assert(post_rl.alloc_of(lhs) != UNASSIGNED);
                assert(pre_rr.alloc_of(lhs) != UNASSIGNED);
                assert(post_rr.alloc_of(lhs) != UNASSIGNED);
            }
            assert(self.alloc_of(rhs) != UNASSIGNED) by {
                assert(post_rr.alloc_of(rhs) != UNASSIGNED);
            }
        }
    }

    /// Emits an instruction on a register and an immediate.
    pub(crate) fn op_reg_imm(&mut self, out: u32, arg: u32, imm: u32, op: ClauseOp64)
        requires
            old(self).alloc_of(out) != UNASSIGNED,
            out != arg,
            old(self).inv(),
            out < UNASSIGNED,
            arg < UNASSIGNED,
            op.arg_count() == 1 && op.width() == 3,
            old(self).time + 2 <= TIME_LIMIT,
        ensures
            final(self).inv(),
            final(self).reg_limit == old(self).reg_limit,
            final(self).time == old(self).time + 2,
            instr_count(final(self).out@) == instr_count(old(self).out@) + 1,
            instr_kinds(final(self).out@) == instr_kinds(old(self).out@).push(op),
            instr_words(final(self).out@) == instr_words(old(self).out@).push(imm),
            exists|ro: u8, ra: u8| ends_with_instr(final(self).out@, old(self).out@.len() as int, #[trigger] reg_imm_instr(op, ro, ra, imm))
                && (ro != ra ==> final(self).registers@[ro as int] == UNASSIGNED && final(self).spare_registers@.contains(ro))
                && final(self).registers@[ra as int] == arg && (old(self).alloc_of(out) < old(self).reg_limit ==> ro == old(self).alloc_of(out)),
            final(self).alloc_of(out) == UNASSIGNED,
            forall|x: u32| x != out && old(self).alloc_of(x) != UNASSIGNED ==> #[trigger] final(self).alloc_of(x)
                != UNASSIGNED,
            final(self).alloc_of(arg) != UNASSIGNED,
    {
        let ghost op0 = op;
        let ro = self.get_register(out, false);
        let ghost s1 = *self;
        self.release(ro);
        proof {
            assert(self.alloc_of(out) == UNASSIGNED);
            assert forall|x: u32| x != out && old(self).alloc_of(x) != UNASSIGNED implies #[trigger] self.alloc_of(x)
                != UNASSIGNED by {
                assert(s1.alloc_of(x) != UNASSIGNED);
            }
        }
        let ghost s2 = *self;
        let sa = self.get_allocation(arg);
        let ghost pre_ra = *self;
        let ra = self.get_register(arg, true);
        let ghost post_ra = *self;
        let op = match op {
            ClauseOp64::AddRegImm => AsmOp::AddRegImm(ro, ra, imm),
            ClauseOp64::SubRegImm => AsmOp::SubRegImm(ro, ra, imm),
            ClauseOp64::SubImmReg => AsmOp::SubImmReg(ro, ra, imm),
            ClauseOp64::MulRegImm => AsmOp::MulRegImm(ro, ra, imm),
            ClauseOp64::MinRegImm => AsmOp::MinRegImm(ro, ra, imm),
            _ => AsmOp::MaxRegImm(ro, ra, imm),
        };
        proof {
            lemma_asm_push(self.out@, op);
        }
        self.out.push(op);
        let ghost at = self.out@.len();
        self.reload_after(ra, sa);
        proof {
            assert(self.out@[at - 1] == reg_imm_instr(op0, ro, ra, imm));
            assert(ends_with_instr(self.out@, old(self).out@.len() as int, reg_imm_instr(op0, ro, ra, imm)));
        }
        proof {
            assert forall|x: u32| x != out && old(self).alloc_of(x) != UNASSIGNED implies #[trigger] self.alloc_of(x)
                != UNASSIGNED by {
                assert(s2.alloc_of(x) != UNASSIGNED);
                assert(pre_ra.alloc_of(x) != UNASSIGNED);
                assert(post_ra.alloc_of(x) != UNASSIGNED);
            }
            assert(self.alloc_of(out) == UNASSIGNED) by {
                assert(s2.alloc_of(out) == UNASSIGNED);
                assert(pre_ra.alloc_of(out) == UNASSIGNED);
                assert(post_ra.alloc_of(out) == UNASSIGNED);
            }
            assert(self.alloc_of(arg) != UNASSIGNED) by {
                assert(post_ra.alloc_of(arg) != UNASSIGNED);
            }
        }
    }

    /// Emits a load of an immediate.
    pub(crate) fn op_copy_imm(&mut self, out: u32, imm: u32)
        requires
            old(self).alloc_of(out) != UNASSIGNED,
            old(self).inv(),
            out < UNASSIGNED,
            old(self).time + 1 <= TIME_LIMIT,
        ensures
            final(self).inv(),
            final(self).reg_limit == old(self).reg_limit,
            final(self).time == old(self).time + 1,
            instr_count(final(self).out@) == instr_count(old(self).out@) + 1,
            instr_kinds(final(self).out@) == instr_kinds(old(self).out@).push(ClauseOp64::CopyImm),
            instr_words(final(self).out@) == instr_words(old(self).out@).push(imm),
            final(self).out@.last() matches AsmOp::CopyImm(ro, w) && w == imm && (old(self).alloc_of(out)
                < old(self).reg_limit ==> ro == old(self).alloc_of(out)),
            final(self).alloc_of(out) == UNASSIGNED,
            forall|x: u32| x != out && old(self).alloc_of(x) != UNASSIGNED ==> #[trigger] final(self).alloc_of(x)
                != UNASSIGNED,
    {
        let ro = self.get_register(out, false);
        let ghost s1 = *self;
        self.release(ro);
        proof {
            assert(self.alloc_of(out) == UNASSIGNED);
            assert forall|x: u32| x != out && old(self).alloc_of(x) != UNASSIGNED implies #[trigger] self.alloc_of(x)
                != UNASSIGNED by {
                assert(s1.alloc_of(x) != UNASSIGNED);
            }
        }
        let ghost s2 = *self;
        let op = AsmOp::CopyImm(ro, imm);
        proof {
            lemma_asm_push(self.out@, op);
        }
        self.out.push(op);
        proof {
            assert forall|x: u32| x != out && old(self).alloc_of(x) != UNASSIGNED implies #[trigger] self.alloc_of(x)
                != UNASSIGNED by {
                assert(s2.alloc_of(x) != UNASSIGNED);
            }
            assert(self.alloc_of(out) == UNASSIGNED) by {
                assert(s2.alloc_of(out) == UNASSIGNED);
            }
        }
    }

    /// Emits a read of input axis `i`.
    pub(crate) fn op_input(&mut self, out: u32, i: u8)
        requires
            old(self).alloc_of(out) != UNASSIGNED,
            old(self).inv(),
            out < UNASSIGNED,
            old(self).time + 1 <= TIME_LIMIT,
        ensures
            final(self).inv(),
            final(self).reg_limit == old(self).reg_limit,
            final(self).time == old(self).time + 1,
            instr_count(final(self).out@) == instr_count(old(self).out@) + 1,
            instr_kinds(final(self).out@) == instr_kinds(old(self).out@).push(ClauseOp64::Input),
            instr_words(final(self).out@) == instr_words(old(self).out@).push(i as u32),
            final(self).out@.last() matches AsmOp::Input(ro, w) && w == i && (old(self).alloc_of(out)
                < old(self).reg_limit ==> ro == old(self).alloc_of(out)),
            final(self).alloc_of(out) == UNASSIGNED,
            forall|x: u32| x != out && old(self).alloc_of(x) != UNASSIGNED ==> #[trigger] final(self).alloc_of(x)
                != UNASSIGNED,
    {
        let ro = self.get_register(out, false);
        let ghost s1 = *self;
        self.release(ro);
        proof {
            assert(self.alloc_of(out) == UNASSIGNED);
            assert forall|x: u32| x != out && old(self).alloc_of(x) != UNASSIGNED implies #[trigger] self.alloc_of(x)
                != UNASSIGNED by {
                assert(s1.alloc_of(x) != UNASSIGNED);
            }
        }
        let ghost s2 = *self;
        let op = AsmOp::Input(ro, i);
        proof {
            lemma_asm_push(self.out@, op);
        }
        self.out.push(op);
        proof {
            assert forall|x: u32| x != out && old(self).alloc_of(x) != UNASSIGNED implies #[trigger] self.alloc_of(x)
                != UNASSIGNED by {
                assert(s2.alloc_of(x) != UNASSIGNED);
            }
            assert(self.alloc_of(out) == UNASSIGNED) by {
                assert(s2.alloc_of(out) == UNASSIGNED);
            }
        }
    }
}

} // verus!
