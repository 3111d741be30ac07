//! The executor: a register machine that runs an instruction list over a
//! dense, zero-initialized register file, driven by a program counter.
//!
//! The machine's meaning is given by the small-step function [`step`]; the
//! executor's contract says that the register file it leaves behind is the
//! one some chain of steps reaches from the initial configuration, ending
//! past the end of the instruction list.

use crate::types::{instr_wf, operand_wf, Either, Instruction, Register};
use vstd::prelude::*;
use vstd::wrapping::i64_specs;

verus! {

/// A configuration of the machine: the register file and the program
/// counter.  The counter is mathematical here; leaving `[0, len)` in either
/// direction stops the run.
pub ghost struct Cfg {
    pub regs: Seq<i64>,
    pub pc: int,
}

/// The value an operand denotes under the given register file.
pub open spec fn eval_operand(regs: Seq<i64>, e: Either) -> i64 {
    match e {
        Either::Register(r) => regs[r as int],
        Either::Constant(c) => c,
    }
}

/// Execution has ended when the counter no longer indexes an instruction.
pub open spec fn terminal(instrs: Seq<Instruction>, c: Cfg) -> bool {
    !(0 <= c.pc < instrs.len())
}

/// The effect of one non-jump instruction on the register file; increments
/// and decrements wrap around at the i64 boundaries.
pub open spec fn apply_instr(regs: Seq<i64>, i: Instruction) -> Seq<i64> {
    match i {
        Instruction::Mov(x, y) => regs.update(x as int, eval_operand(regs, y)),
        Instruction::Inc(x) => regs.update(x as int, i64_specs::wrapping_add(regs[x as int], 1)),
        Instruction::Dec(x) => regs.update(x as int, i64_specs::wrapping_sub(regs[x as int], 1)),
        Instruction::Jnz(_, _) => regs,
    }
}

/// One step of the machine.  A finished configuration is a fixed point.  A
/// jump with a zero condition falls through; with a nonzero condition the
/// offset is compared against the current counter and the jump is taken
/// only when the counter, read as a signed quantity, is not less than the
/// offset — the same-step boundary check the executor applies before
/// repositioning the counter to `pc + offset`.
pub open spec fn step(instrs: Seq<Instruction>, c: Cfg) -> Cfg {
    if terminal(instrs, c) {
        c
    } else {
        match instrs[c.pc] {
            Instruction::Jnz(x, y) => {
                let cond = eval_operand(c.regs, x);
                let steps = eval_operand(c.regs, y);
                if cond == 0 || c.pc < steps {
                    Cfg { regs: c.regs, pc: c.pc + 1 }
                } else {
                    Cfg { regs: c.regs, pc: c.pc + steps }
                }
            },
            _ => Cfg { regs: apply_instr(c.regs, instrs[c.pc]), pc: c.pc + 1 },
        }
    }
}

/// The configuration reached after `n` steps.
pub open spec fn steps_n(instrs: Seq<Instruction>, c: Cfg, n: nat) -> Cfg
    decreases n,
{
    if n == 0 {
        c
    } else {
        steps_n(instrs, step(instrs, c), (n - 1) as nat)
    }
}

/// A register file of `n` registers, all zero.
pub open spec fn zero_regs(n: nat) -> Seq<i64> {
    Seq::new(n, |i: int| 0i64)
}

/// The machine started on `init` eventually runs its counter past the end.
pub open spec fn halts(instrs: Seq<Instruction>, init: Seq<i64>) -> bool {
    exists|n: nat| terminal(instrs, #[trigger] steps_n(instrs, Cfg { regs: init, pc: 0 }, n))
}

/// Some chain of steps leads from a fresh counter over `init` to a finished
/// configuration whose register file is `fin`.
pub open spec fn runs_to(instrs: Seq<Instruction>, init: Seq<i64>, fin: Seq<i64>) -> bool {
    exists|n: nat|
        terminal(instrs, #[trigger] steps_n(instrs, Cfg { regs: init, pc: 0 }, n)) && steps_n(
            instrs,
            Cfg { regs: init, pc: 0 },
            n,
        ).regs == fin
}

/// Once past the end, the machine stays put.
pub proof fn lemma_terminal_fixed(instrs: Seq<Instruction>, c: Cfg, n: nat)
    requires
        terminal(instrs, c),
    ensures
        steps_n(instrs, c, n) == c,
    decreases n,
{
    if n > 0 {
        lemma_terminal_fixed(instrs, c, (n - 1) as nat);
    }
}

/// Chains of steps compose.
pub proof fn lemma_steps_n_add(instrs: Seq<Instruction>, c: Cfg, m: nat, n: nat)
    ensures
        steps_n(instrs, c, m + n) == steps_n(instrs, steps_n(instrs, c, m), n),
    decreases m,
{
    if m > 0 {
        lemma_steps_n_add(instrs, step(instrs, c), (m - 1) as nat, n);
        assert(steps_n(instrs, c, m + n) == steps_n(instrs, step(instrs, c), (m - 1) as nat + n));
    }
}

/// One more step after `n` steps is a step of the reached configuration.
pub proof fn lemma_steps_n_snoc(instrs: Seq<Instruction>, c: Cfg, n: nat)
    ensures
        steps_n(instrs, c, n + 1) == step(instrs, steps_n(instrs, c, n)),
{
    lemma_steps_n_add(instrs, c, n, 1);
    let sc = steps_n(instrs, c, n);
    assert(steps_n(instrs, sc, 1) == steps_n(instrs, step(instrs, sc), 0));
}

/// A run stops in at most one configuration: whenever two step counts both
/// land past the end, they land in the same place.
pub proof fn lemma_terminal_unique(instrs: Seq<Instruction>, c: Cfg, m: nat, n: nat)
    requires
        terminal(instrs, steps_n(instrs, c, m)),
        terminal(instrs, steps_n(instrs, c, n)),
    ensures
        steps_n(instrs, c, m) == steps_n(instrs, c, n),
{
    if m <= n {
        lemma_steps_n_add(instrs, c, m, (n - m) as nat);
        lemma_terminal_fixed(instrs, steps_n(instrs, c, m), (n - m) as nat);
    } else {
        lemma_steps_n_add(instrs, c, n, (m - n) as nat);
        lemma_terminal_fixed(instrs, steps_n(instrs, c, n), (m - n) as nat);
    }
}

/// The register file a finished run leaves behind is determined by the
/// program and the initial file.
pub proof fn lemma_runs_to_unique(
    instrs: Seq<Instruction>,
    init: Seq<i64>,
    f1: Seq<i64>,
    f2: Seq<i64>,
)
    requires
        runs_to(instrs, init, f1),
        runs_to(instrs, init, f2),
    ensures
        f1 == f2,
{
    let c0 = Cfg { regs: init, pc: 0 };
    let n1 = choose|n: nat|
        terminal(instrs, #[trigger] steps_n(instrs, c0, n)) && steps_n(instrs, c0, n).regs == f1;
    let n2 = choose|n: nat|
        terminal(instrs, #[trigger] steps_n(instrs, c0, n)) && steps_n(instrs, c0, n).regs == f2;
    lemma_terminal_unique(instrs, c0, n1, n2);
}

/// No conditional jump anywhere in the program.
pub open spec fn straight_line(instrs: Seq<Instruction>) -> bool {
    forall|k: int| 0 <= k < instrs.len() ==> !((#[trigger] instrs[k]) is Jnz)
}

/// The left-to-right fold of a program over a register file, each
/// instruction applied once in order.
pub open spec fn fold_run(instrs: Seq<Instruction>, regs: Seq<i64>) -> Seq<i64>
    decreases instrs.len(),
{
    if instrs.len() == 0 {
        regs
    } else {
        fold_run(instrs.skip(1), apply_instr(regs, instrs[0]))
    }
}

proof fn lemma_straight_line_aux(instrs: Seq<Instruction>, regs: Seq<i64>, k: nat)
    requires
        straight_line(instrs),
        k <= instrs.len(),
    ensures
        steps_n(instrs, Cfg { regs, pc: k as int }, (instrs.len() - k) as nat) == (Cfg {
            regs: fold_run(instrs.skip(k as int), regs),
            pc: instrs.len() as int,
        }),
    decreases instrs.len() - k,
{
    if k == instrs.len() {
        assert(instrs.skip(k as int) =~= Seq::<Instruction>::empty());
    } else {
        let c = Cfg { regs, pc: k as int };
        let regs2 = apply_instr(regs, instrs[k as int]);
        assert(!(instrs[k as int] is Jnz));
        assert(step(instrs, c) == (Cfg { regs: regs2, pc: k as int + 1 }));
        lemma_straight_line_aux(instrs, regs2, k + 1);
        assert(instrs.skip(k as int).skip(1) =~= instrs.skip(k as int + 1));
        assert(instrs.skip(k as int)[0] == instrs[k as int]);
        assert(fold_run(instrs.skip(k as int), regs) == fold_run(
            instrs.skip(k as int + 1),
            regs2,
        ));
    }
}

/// A straight-line program always halts: one pass walks the counter off
/// the end.
pub proof fn lemma_straight_line_halts(instrs: Seq<Instruction>, init: Seq<i64>)
    requires
        straight_line(instrs),
    ensures
        halts(instrs, init),
{
    lemma_straight_line_aux(instrs, init, 0);
    assert(terminal(
        instrs,
        steps_n(instrs, Cfg { regs: init, pc: 0 }, instrs.len()),
    ));
}

/// A straight-line program runs to completion in one left-to-right pass:
/// the final value of every register is the sequential fold of the
/// program's `mov`/`inc`/`dec` operations over the initial file.
pub proof fn lemma_straight_line_run(instrs: Seq<Instruction>, init: Seq<i64>, fin: Seq<i64>)
    requires
        straight_line(instrs),
        runs_to(instrs, init, fin),
    ensures
        fin == fold_run(instrs, init),
{
    let c0 = Cfg { regs: init, pc: 0 };
    lemma_straight_line_aux(instrs, init, 0);
    assert(instrs.skip(0) =~= instrs);
    if instrs.len() == 0 {
        let n = choose|n: nat|
            terminal(instrs, #[trigger] steps_n(instrs, c0, n)) && steps_n(instrs, c0, n).regs
                == fin;
        lemma_terminal_fixed(instrs, c0, n);
    } else {
        let n = choose|n: nat|
            terminal(instrs, #[trigger] steps_n(instrs, c0, n)) && steps_n(instrs, c0, n).regs
                == fin;
        lemma_terminal_unique(instrs, c0, n, instrs.len() as nat);
    }
}

/// The destination register an instruction writes, if any.
pub open spec fn dest(i: Instruction) -> Option<Register> {
    match i {
        Instruction::Mov(x, _) => Some(x),
        Instruction::Inc(x) => Some(x),
        Instruction::Dec(x) => Some(x),
        Instruction::Jnz(_, _) => None,
    }
}

/// The instructions of `instrs` that write register `r`, in order.
pub open spec fn history_of(instrs: Seq<Instruction>, r: Register) -> Seq<Instruction>
    decreases instrs.len(),
{
    if instrs.len() == 0 {
        Seq::empty()
    } else if dest(instrs[0]) == Some(r) {
        seq![instrs[0]] + history_of(instrs.skip(1), r)
    } else {
        history_of(instrs.skip(1), r)
    }
}

/// The value of a single register after folding only its own operations:
/// a constant `mov` resets it, `inc` and `dec` adjust it.
pub open spec fn fold_register(instrs: Seq<Instruction>, v: i64) -> i64
    decreases instrs.len(),
{
    if instrs.len() == 0 {
        v
    } else {
        let v2 = match instrs[0] {
            Instruction::Mov(_, Either::Constant(c)) => c,
            Instruction::Inc(_) => i64_specs::wrapping_add(v, 1),
            Instruction::Dec(_) => i64_specs::wrapping_sub(v, 1),
            _ => v,
        };
        fold_register(instrs.skip(1), v2)
    }
}

/// In a straight-line program where every `mov` into `r` copies a constant,
/// the final value of `r` is the fold of `r`'s own operations alone —
/// independent of what the other registers go through.
pub proof fn lemma_register_independent(instrs: Seq<Instruction>, regs: Seq<i64>, r: Register)
    requires
        straight_line(instrs),
        (r as int) < regs.len(),
        forall|k: int| 0 <= k < instrs.len() ==> instr_wf(#[trigger] instrs[k], regs.len()),
        forall|k: int| 0 <= k < instrs.len() ==> (match #[trigger] instrs[k] {
            Instruction::Mov(x, y) => x == r ==> y is Constant,
            _ => true,
        }),
    ensures
        fold_run(instrs, regs)[r as int] == fold_register(history_of(instrs, r), regs[r as int]),
    decreases instrs.len(),
{
    if instrs.len() > 0 {
        let h = instrs[0];
        let regs2 = apply_instr(regs, h);
        assert(!(h is Jnz));
        assert(instr_wf(h, regs.len()));
        assert(regs2.len() == regs.len());
        assert(forall|k: int|
            0 <= k < instrs.skip(1).len() ==> #[trigger] instrs.skip(1)[k] == instrs[k + 1]);
        assert(straight_line(instrs.skip(1)));
        lemma_register_independent(instrs.skip(1), regs2, r);
        if dest(h) == Some(r) {
            let hist = history_of(instrs, r);
            assert(hist == seq![h] + history_of(instrs.skip(1), r));
            assert(hist[0] == h);
            assert(hist.skip(1) =~= history_of(instrs.skip(1), r));
            match h {
                Instruction::Mov(x, y) => {
                    assert(y is Constant);
                    assert(regs2[r as int] == eval_operand(regs, y));
                },
                _ => {},
            }
        } else {
            assert(regs2[r as int] == regs[r as int]);
        }
    }
}

/// The register machine.  Registers are addressed by dense handles, so the
/// file is a flat array; names never appear here.
pub struct Interpreter {
    state: Vec<i64>,
    curr_instruction: usize,
}

impl Interpreter {
    /// The register file.
    pub closed spec fn regs(self) -> Seq<i64> {
        self.state@
    }

    /// A fresh machine with `num_registers` registers, all zero.
    pub fn new(num_registers: usize) -> (r: Self)
        ensures
            r.regs() == zero_regs(num_registers as nat),
    {
        let mut state: Vec<i64> = Vec::new();
        let mut i: usize = 0;
        while i < num_registers
            invariant
                i <= num_registers,
                state@.len() == i,
                forall|j: int| 0 <= j < i ==> state@[j] == 0i64,
            decreases num_registers - i,
        {
            state.push(0);
            i += 1;
        }
        proof {
            assert(state@ =~= zero_regs(num_registers as nat));
        }
        Self { state, curr_instruction: 0 }
    }

    /// Run the instruction list to completion: the counter starts at zero
    /// and the loop ends once the counter leaves the list.  The caller
    /// vouches that the run reaches the end — a program that keeps jumping
    /// backward has no final state to report.  The register file left
    /// behind is the one the chain of machine steps reaches.
    pub fn execute(&mut self, instructions: &Vec<Instruction>)
        requires
            forall|k: int|
                0 <= k < instructions@.len() ==> instr_wf(
                    #[trigger] instructions@[k],
                    old(self).regs().len(),
                ),
            instructions@.len() <= i64::MAX,
            halts(instructions@, old(self).regs()),
        ensures
            final(self).regs().len() == old(self).regs().len(),
            runs_to(instructions@, old(self).regs(), final(self).regs()),
    {
        self.curr_instruction = 0;
        let ghost instrs = instructions@;
        let ghost init = Cfg { regs: self.state@, pc: 0 };
        let ghost fuel = choose|n: nat| terminal(instrs, #[trigger] steps_n(instrs, init, n));
        let ghost mut cfg = init;
        let ghost mut n: nat = 0;
        while self.curr_instruction < instructions.len()
            invariant
                instructions@ == instrs,
                instrs.len() <= i64::MAX,
                forall|k: int|
                    0 <= k < instrs.len() ==> instr_wf(#[trigger] instrs[k], init.regs.len()),
                self.state@.len() == init.regs.len(),
                terminal(instrs, steps_n(instrs, init, fuel)),
                cfg == steps_n(instrs, init, n),
                cfg.regs == self.state@,
                0 <= cfg.pc < instrs.len() ==> self.curr_instruction == cfg.pc,
                terminal(instrs, cfg) ==> self.curr_instruction >= instrs.len(),
            decreases fuel - n,
        {
            proof {
                // The run has not stopped, so the halting step is still ahead.
                if n >= fuel {
                    lemma_steps_n_add(instrs, init, fuel, (n - fuel) as nat);
                    lemma_terminal_fixed(instrs, steps_n(instrs, init, fuel), (n - fuel) as nat);
                    assert(terminal(instrs, cfg));
                    assert(false);
                }
                lemma_steps_n_snoc(instrs, init, n);
            }
            let instruction = instructions[self.curr_instruction];
            let mut stop_next = false;
            match instruction {
                Instruction::Mov(x, y) => self.mov(&x, &y),
                Instruction::Inc(x) => self.inc(&x),
                Instruction::Dec(x) => self.dec(&x),
                Instruction::Jnz(x, y) => {
                    stop_next = self.jnz(&x, &y);
                },
            }
            proof {
                cfg = step(instrs, cfg);
                n = n + 1;
            }
            if !stop_next {
                self.curr_instruction = self.curr_instruction + 1;
            }
        }
        proof {
            if !terminal(instrs, cfg) {
                assert(self.curr_instruction == cfg.pc);
                assert(false);
            }
            assert(terminal(instrs, #[trigger] steps_n(instrs, init, n)) && steps_n(
                instrs,
                init,
                n,
            ).regs == self.regs());
        }
    }

    /// Read-only access to the register file.
    pub fn get_state(&self) -> (r: &Vec<i64>)
        ensures
            r@ == self.regs(),
    {
        &self.state
    }

    /// Copy the operand's value into register `x`.
    fn mov(&mut self, x: &Register, y: &Either)
        requires
            (*x as nat) < old(self).state@.len(),
            operand_wf(*y, old(self).state@.len()),
        ensures
            final(self).state@ == old(self).state@.update(
                *x as int,
                eval_operand(old(self).state@, *y),
            ),
            final(self).curr_instruction == old(self).curr_instruction,
    {
        let value = match y {
            Either::Register(reg) => self.state[*reg],
            Either::Constant(con) => *con,
        };
        self.state.set(*x, value);
    }

    /// Increase register `x` by one, wrapping at the i64 boundary.
    fn inc(&mut self, x: &Register)
        requires
            (*x as nat) < old(self).state@.len(),
        ensures
            final(self).state@ == old(self).state@.update(
                *x as int,
                i64_specs::wrapping_add(old(self).state@[*x as int], 1),
            ),
            final(self).curr_instruction == old(self).curr_instruction,
    {
        let v = self.state[*x];
        self.state.set(*x, v.wrapping_add(1));
    }

    /// Decrease register `x` by one, wrapping at the i64 boundary.
    fn dec(&mut self, x: &Register)
        requires
            (*x as nat) < old(self).state@.len(),
        ensures
            final(self).state@ == old(self).state@.update(
                *x as int,
                i64_specs::wrapping_sub(old(self).state@[*x as int], 1),
            ),
            final(self).curr_instruction == old(self).curr_instruction,
    {
        let v = self.state[*x];
        self.state.set(*x, v.wrapping_sub(1));
    }

    /// Decide a conditional jump.  Returns true exactly when the jump was
    /// taken and the counter repositioned; the caller then skips its usual
    /// advance.  A destination outside `[0, i64::MAX]`, or one no `usize`
    /// can hold, is parked at `usize::MAX`, past any instruction list.
    fn jnz(&mut self, x: &Either, y: &Either) -> (jumped: bool)
        requires
            operand_wf(*x, old(self).state@.len()),
            operand_wf(*y, old(self).state@.len()),
            old(self).curr_instruction <= i64::MAX,
        ensures
            final(self).state@ == old(self).state@,
            ({
                let cond = eval_operand(old(self).state@, *x);
                let steps = eval_operand(old(self).state@, *y);
                let pc = old(self).curr_instruction as int;
                let d = pc + steps;
                if cond == 0 || pc < steps {
                    !jumped && final(self).curr_instruction == old(self).curr_instruction
                } else {
                    jumped && (0 <= d <= i64::MAX && d <= usize::MAX
                        ==> final(self).curr_instruction == d) && (!(0 <= d <= i64::MAX && d
                        <= usize::MAX) ==> final(self).curr_instruction == usize::MAX)
                }
            }),
    {
        let cond = match *x {
            Either::Constant(con) => con,
            Either::Register(reg) => self.state[reg],
        };
        if cond == 0 {
            return false;
        }
        let steps = match *y {
            Either::Register(reg) => self.state[reg],
            Either::Constant(con) => con,
        };
        let c = self.curr_instruction as i64;
        if c < steps {
            return false;
        }
        match c.checked_add(steps) {
            Some(d) => {
                if d >= 0 {
                    let du = d as u64;
                    if du <= usize::MAX as u64 {
                        self.curr_instruction = du as usize;
                    } else {
                        self.curr_instruction = usize::MAX;
                    }
                } else {
                    self.curr_instruction = usize::MAX;
                }
            },
            None => {
                self.curr_instruction = usize::MAX;
            },
        }
        true
    }
}

} // verus!
