//! The translator: it consumes a program's source lines in order, assigns
//! each newly seen register name a dense zero-based handle, resolves
//! operands to register-or-constant, and emits the instruction sequence
//! together with the name table.
//!
//! Malformed lines are skipped and counted; a conditional jump whose
//! condition is the constant zero is elided outright; reading a register
//! that no `mov` has declared is fatal and aborts the translation.

use crate::scan::{spec_parse_i64, split_tokens, str_eq, tokenize};
use crate::types::{
    instr_wf, lemma_instr_wf_mono, lemma_lookup, lemma_lookup_push, lemma_names_len_bound,
    spec_lookup, spec_resolve, Either, Instruction, MyFromStr, Register, Registers,
};
use vstd::prelude::*;

verus! {

/// The fatal condition: a register was read in a place that requires it to
/// exist, but no `mov` ever declared it.
#[derive(Clone, Copy, Debug, PartialEq, Eq, Structural)]
pub enum ParseError {
    UnknownRegister,
}

/// A translation state: the name table built so far, the instructions
/// emitted so far, and the number of lines rejected so far.
pub ghost struct TState {
    pub names: Seq<Seq<char>>,
    pub instrs: Seq<Instruction>,
    pub errors: nat,
}

/// The state a translation starts from.
pub open spec fn empty_tstate() -> TState {
    TState { names: Seq::empty(), instrs: Seq::empty(), errors: 0 }
}

/// Distinct register names, and every emitted handle within the table.
pub open spec fn tstate_wf(st: TState) -> bool {
    &&& forall|i: int, j: int| 0 <= i < j < st.names.len() ==> st.names[i] != st.names[j]
    &&& forall|k: int|
        0 <= k < st.instrs.len() ==> instr_wf(#[trigger] st.instrs[k], st.names.len())
}

pub open spec fn mov_tok() -> Seq<char> {
    seq!['m', 'o', 'v']
}

pub open spec fn inc_tok() -> Seq<char> {
    seq!['i', 'n', 'c']
}

pub open spec fn dec_tok() -> Seq<char> {
    seq!['d', 'e', 'c']
}

pub open spec fn jnz_tok() -> Seq<char> {
    seq!['j', 'n', 'z']
}

/// What one source line contributes to the translation.
pub ghost enum LineEffect {
    /// A well-formed line: the name table after it (a `mov` may have
    /// declared its destination) and the emitted instruction.
    Emit { names: Seq<Seq<char>>, instr: Instruction },
    /// A dead conditional jump, dropped without a trace.
    Elide,
    /// A malformed line: skipped and counted.
    Reject,
    /// An unknown register where one is required: translation aborts.
    Fatal,
}

/// The effect of `mov x y`: `x` is declared on first appearance, then `y`
/// is resolved against the table that already includes `x`.
pub open spec fn mov_effect(names: Seq<Seq<char>>, x: Seq<char>, y: Seq<char>) -> LineEffect {
    let names2 = if spec_lookup(names, x) is Some {
        names
    } else {
        names.push(x)
    };
    match spec_resolve(names2, y) {
        Some(src) => LineEffect::Emit {
            names: names2,
            instr: Instruction::Mov(spec_lookup(names2, x)->Some_0, src),
        },
        None => LineEffect::Fatal,
    }
}

/// The effect of `jnz x y`: a constant-zero condition elides the line —
/// before `y` is even looked at — since it can never branch.
pub open spec fn jnz_effect(names: Seq<Seq<char>>, x: Seq<char>, y: Seq<char>) -> LineEffect {
    match spec_resolve(names, x) {
        Some(cond) => if cond == Either::Constant(0i64) {
            LineEffect::Elide
        } else {
            match spec_resolve(names, y) {
                Some(off) => LineEffect::Emit {
                    names,
                    instr: Instruction::Jnz(cond, off),
                },
                None => LineEffect::Fatal,
            }
        },
        None => LineEffect::Fatal,
    }
}

/// Dispatch one line by its first token and token count.
pub open spec fn line_effect(names: Seq<Seq<char>>, line: Seq<char>) -> LineEffect {
    let toks = tokenize(line);
    if toks.len() == 3 && toks[0] == mov_tok() {
        mov_effect(names, toks[1], toks[2])
    } else if toks.len() == 2 && toks[0] == inc_tok() {
        match spec_lookup(names, toks[1]) {
            Some(r) => LineEffect::Emit { names, instr: Instruction::Inc(r) },
            None => LineEffect::Fatal,
        }
    } else if toks.len() == 2 && toks[0] == dec_tok() {
        match spec_lookup(names, toks[1]) {
            Some(r) => LineEffect::Emit { names, instr: Instruction::Dec(r) },
            None => LineEffect::Fatal,
        }
    } else if toks.len() == 3 && toks[0] == jnz_tok() {
        jnz_effect(names, toks[1], toks[2])
    } else {
        LineEffect::Reject
    }
}

/// A line no dispatch arm accepts: wrong mnemonic or wrong token count.
/// Malformedness depends only on the line itself, never on the name table.
pub open spec fn malformed_line(line: Seq<char>) -> bool {
    let toks = tokenize(line);
    !(toks.len() == 3 && toks[0] == mov_tok()) && !(toks.len() == 2 && toks[0] == inc_tok()) && !(
    toks.len() == 2 && toks[0] == dec_tok()) && !(toks.len() == 3 && toks[0] == jnz_tok())
}

/// An emitted line can only grow the name table, and only by its own
/// second token (a `mov` destination seen for the first time).
pub proof fn lemma_line_effect_names(names: Seq<Seq<char>>, line: Seq<char>)
    ensures
        match line_effect(names, line) {
            LineEffect::Emit { names: names2, instr } => names2 == names || names2 == names.push(
                tokenize(line)[1],
            ),
            _ => true,
        },
{
}

/// Translate `lines` starting from `st`, line by line, left to right:
/// emitted instructions are appended, malformed lines are counted, dead
/// jumps vanish, and an unknown register aborts the whole translation.
pub open spec fn translate_from(st: TState, lines: Seq<Seq<char>>) -> Option<TState>
    decreases lines.len(),
{
    if lines.len() == 0 {
        Some(st)
    } else {
        match line_effect(st.names, lines[0]) {
            LineEffect::Emit { names, instr } => translate_from(
                TState { names, instrs: st.instrs.push(instr), errors: st.errors },
                lines.skip(1),
            ),
            LineEffect::Elide => translate_from(st, lines.skip(1)),
            LineEffect::Reject => translate_from(
                TState { names: st.names, instrs: st.instrs, errors: st.errors + 1 },
                lines.skip(1),
            ),
            LineEffect::Fatal => None,
        }
    }
}

/// The whole translation of a program, from nothing.
pub open spec fn translate(lines: Seq<Seq<char>>) -> Option<TState> {
    translate_from(empty_tstate(), lines)
}


/// Does `line` declare register `name` as the destination of a `mov`?
pub open spec fn mov_declares(line: Seq<char>, name: Seq<char>) -> bool {
    tokenize(line).len() == 3 && tokenize(line)[0] == mov_tok() && tokenize(line)[1] == name
}

/// Translating a concatenation is translating the pieces in turn.
pub proof fn lemma_translate_from_concat(st: TState, a: Seq<Seq<char>>, b: Seq<Seq<char>>)
    ensures
        translate_from(st, a + b) == (match translate_from(st, a) {
            Some(mid) => translate_from(mid, b),
            None => None::<TState>,
        }),
    decreases a.len(),
{
    if a.len() == 0 {
        assert(a + b =~= b);
        assert(a =~= Seq::<Seq<char>>::empty());
    } else {
        assert((a + b).len() > 0);
        assert((a + b)[0] == a[0]);
        assert((a + b).skip(1) =~= a.skip(1) + b);
        match line_effect(st.names, a[0]) {
            LineEffect::Emit { names, instr } => {
                lemma_translate_from_concat(
                    TState { names, instrs: st.instrs.push(instr), errors: st.errors },
                    a.skip(1),
                    b,
                );
            },
            LineEffect::Elide => {
                lemma_translate_from_concat(st, a.skip(1), b);
            },
            LineEffect::Reject => {
                lemma_translate_from_concat(
                    TState { names: st.names, instrs: st.instrs, errors: st.errors + 1 },
                    a.skip(1),
                    b,
                );
            },
            LineEffect::Fatal => {},
        }
    }
}

/// A conditional jump whose condition is a constant zero never reaches the
/// instruction sequence: the program with the line and the program without
/// it translate to the very same state — same instructions, same name
/// table, same error count — so the final register mapping cannot differ.
pub proof fn lemma_dead_jump_elided(
    st: TState,
    before: Seq<Seq<char>>,
    line: Seq<char>,
    after: Seq<Seq<char>>,
)
    requires
        tokenize(line).len() == 3,
        tokenize(line)[0] == jnz_tok(),
        spec_parse_i64(tokenize(line)[1]) == Some(0i64),
    ensures
        translate_from(st, before + seq![line] + after) == translate_from(st, before + after),
{
    lemma_translate_from_concat(st, before, seq![line] + after);
    lemma_translate_from_concat(st, before, after);
    assert(before + seq![line] + after =~= before + (seq![line] + after));
    match translate_from(st, before) {
        Some(mid) => {
            assert(mov_tok() != jnz_tok());
            assert(inc_tok() != jnz_tok());
            assert(dec_tok() != jnz_tok());
            assert(spec_resolve(mid.names, tokenize(line)[1]) == Some(Either::Constant(0i64)));
            assert(line_effect(mid.names, line) is Elide);
            assert((seq![line] + after)[0] == line);
            assert((seq![line] + after).skip(1) =~= after);
            assert(translate_from(mid, seq![line] + after) == translate_from(mid, after));
        },
        None => {},
    }
}

/// Trailing malformed lines change nothing but the error count: the name
/// table and the instruction sequence — and hence the final register
/// mapping — stay identical.
pub proof fn lemma_trailing_malformed(st: TState, lines: Seq<Seq<char>>, junk: Seq<Seq<char>>)
    requires
        forall|j: int| 0 <= j < junk.len() ==> malformed_line(#[trigger] junk[j]),
    ensures
        translate_from(st, lines + junk) == (match translate_from(st, lines) {
            Some(fin) => Some(
                TState { names: fin.names, instrs: fin.instrs, errors: fin.errors + junk.len() },
            ),
            None => None::<TState>,
        }),
{
    lemma_translate_from_concat(st, lines, junk);
    match translate_from(st, lines) {
        Some(fin) => {
            lemma_malformed_only_counts(fin, junk);
        },
        None => {},
    }
}

proof fn lemma_malformed_only_counts(st: TState, junk: Seq<Seq<char>>)
    requires
        forall|j: int| 0 <= j < junk.len() ==> malformed_line(#[trigger] junk[j]),
    ensures
        translate_from(st, junk) == Some(
            TState { names: st.names, instrs: st.instrs, errors: st.errors + junk.len() },
        ),
    decreases junk.len(),
{
    if junk.len() == 0 {
        assert(st == (TState { names: st.names, instrs: st.instrs, errors: st.errors + 0 }));
    } else {
        assert(malformed_line(junk[0]));
        assert(line_effect(st.names, junk[0]) is Reject);
        let st2 = TState { names: st.names, instrs: st.instrs, errors: st.errors + 1 };
        assert(forall|j: int|
            0 <= j < junk.skip(1).len() ==> #[trigger] junk.skip(1)[j] == junk[j + 1]);
        lemma_malformed_only_counts(st2, junk.skip(1));
    }
}

/// Nothing but a `mov` destination ever enters the name table.
proof fn lemma_names_from_mov(st: TState, lines: Seq<Seq<char>>)
    requires
        translate_from(st, lines) is Some,
    ensures
        ({
            let fin = translate_from(st, lines)->Some_0;
            forall|i: int|
                0 <= i < fin.names.len() ==> st.names.contains(#[trigger] fin.names[i]) || exists|
                    j: int,
                |
                    0 <= j < lines.len() && mov_declares(lines[j], fin.names[i])
        }),
    decreases lines.len(),
{
    if lines.len() == 0 {
        let fin = translate_from(st, lines)->Some_0;
        assert(forall|i: int|
            0 <= i < fin.names.len() ==> st.names.contains(#[trigger] fin.names[i]));
    } else {
        let fin = translate_from(st, lines)->Some_0;
        let eff = line_effect(st.names, lines[0]);
        assert(forall|j: int|
            0 <= j < lines.skip(1).len() ==> #[trigger] lines.skip(1)[j] == lines[j + 1]);
        match eff {
            LineEffect::Emit { names, instr } => {
                let st2 = TState { names, instrs: st.instrs.push(instr), errors: st.errors };
                lemma_names_from_mov(st2, lines.skip(1));
                lemma_line_effect_names(st.names, lines[0]);
                assert forall|i: int|
                    0 <= i < fin.names.len() implies st.names.contains(#[trigger] fin.names[i])
                    || exists|j: int| 0 <= j < lines.len() && mov_declares(lines[j], fin.names[i]) by {
                    assert(st2.names.contains(fin.names[i]) || exists|j: int|
                        0 <= j < lines.skip(1).len() && mov_declares(
                            lines.skip(1)[j],
                            fin.names[i],
                        ));
                    if st2.names.contains(fin.names[i]) {
                        let k = choose|k: int|
                            0 <= k < st2.names.len() && st2.names[k] == fin.names[i];
                        if names == st.names {
                            assert(st.names[k] == fin.names[i]);
                            assert(st.names.contains(fin.names[i]));
                        } else {
                            assert(names == st.names.push(tokenize(lines[0])[1]));
                            if k < st.names.len() {
                                assert(st.names[k] == fin.names[i]);
                                assert(st.names.contains(fin.names[i]));
                            } else {
                                assert(fin.names[i] == tokenize(lines[0])[1]);
                                assert(tokenize(lines[0]).len() == 3 && tokenize(lines[0])[0]
                                    == mov_tok());
                                assert(mov_declares(lines[0], fin.names[i]));
                            }
                        }
                    } else {
                        let j = choose|j: int|
                            0 <= j < lines.skip(1).len() && mov_declares(
                                lines.skip(1)[j],
                                fin.names[i],
                            );
                        assert(mov_declares(lines[j + 1], fin.names[i]));
                    }
                }
            },
            LineEffect::Elide => {
                lemma_names_from_mov(st, lines.skip(1));
                assert forall|i: int|
                    0 <= i < fin.names.len() implies st.names.contains(#[trigger] fin.names[i])
                    || exists|j: int| 0 <= j < lines.len() && mov_declares(lines[j], fin.names[i]) by {
                    if !st.names.contains(fin.names[i]) {
                        let j = choose|j: int|
                            0 <= j < lines.skip(1).len() && mov_declares(
                                lines.skip(1)[j],
                                fin.names[i],
                            );
                        assert(mov_declares(lines[j + 1], fin.names[i]));
                    }
                }
            },
            LineEffect::Reject => {
                let st2 = TState { names: st.names, instrs: st.instrs, errors: st.errors + 1 };
                lemma_names_from_mov(st2, lines.skip(1));
                assert forall|i: int|
                    0 <= i < fin.names.len() implies st.names.contains(#[trigger] fin.names[i])
                    || exists|j: int| 0 <= j < lines.len() && mov_declares(lines[j], fin.names[i]) by {
                    if !st.names.contains(fin.names[i]) {
                        let j = choose|j: int|
                            0 <= j < lines.skip(1).len() && mov_declares(
                                lines.skip(1)[j],
                                fin.names[i],
                            );
                        assert(mov_declares(lines[j + 1], fin.names[i]));
                    }
                }
            },
            LineEffect::Fatal => {
                assert(false);
            },
        }
    }
}

/// A register that is only ever touched by `inc` or `dec` — never the
/// destination of any `mov` — is unknown when that line is reached, and
/// the whole translation fails rather than inventing a register at zero.
pub proof fn lemma_unknown_register_fatal(lines: Seq<Seq<char>>, k: int, name: Seq<char>)
    requires
        0 <= k < lines.len(),
        tokenize(lines[k]).len() == 2,
        tokenize(lines[k])[0] == inc_tok() || tokenize(lines[k])[0] == dec_tok(),
        tokenize(lines[k])[1] == name,
        forall|j: int| 0 <= j < lines.len() ==> !mov_declares(#[trigger] lines[j], name),
    ensures
        translate(lines) is None,
{
    let pre = lines.take(k);
    let rest = lines.skip(k);
    assert(lines =~= pre + rest);
    lemma_translate_from_concat(empty_tstate(), pre, rest);
    match translate_from(empty_tstate(), pre) {
        None => {},
        Some(mid) => {
            lemma_names_from_mov(empty_tstate(), pre);
            assert forall|i: int| 0 <= i < mid.names.len() implies mid.names[i] != name by {
                assert(!empty_tstate().names.contains(mid.names[i]));
                if mid.names[i] == name {
                    let j = choose|j: int|
                        0 <= j < pre.len() && mov_declares(pre[j], mid.names[i]);
                    assert(pre[j] == lines[j]);
                    assert(mov_declares(lines[j], name));
                }
            }
            crate::types::lemma_lookup_none(mid.names, name);
            assert(rest[0] == lines[k]);
            assert(mov_tok() != inc_tok() && mov_tok() != dec_tok());
            assert(jnz_tok() != inc_tok() && jnz_tok() != dec_tok());
            assert(inc_tok() != dec_tok());
            assert(line_effect(mid.names, rest[0]) is Fatal);
            assert(rest.len() > 0);
            assert(translate_from(mid, rest) is None);
        },
    }
}

/// Translation is a function of the program text alone: handles are
/// assigned deterministically in first-appearance order, so translating
/// the same program twice yields structurally identical instruction
/// sequences, name tables and error counts.
pub proof fn lemma_translate_deterministic(
    lines: Seq<Seq<char>>,
    r1: Option<TState>,
    r2: Option<TState>,
)
    requires
        r1 == translate(lines),
        r2 == translate(lines),
    ensures
        r1 == r2,
{
}

/// The outcome of one dispatched line.
enum LineOutcome {
    Emit(Instruction),
    Elide,
    Reject,
}

/// The translator.  Registers are indexed densely in first-appearance
/// order, so the name table is a vector: the name at position `i` owns
/// handle `i`.
pub struct Parser {
    registers: Registers,
    instructions: Vec<Instruction>,
}

impl Parser {
    /// The name table, in handle order.
    pub closed spec fn names(self) -> Seq<Seq<char>> {
        self.registers.deep_view()
    }

    /// The emitted instruction sequence.
    pub closed spec fn instrs(self) -> Seq<Instruction> {
        self.instructions@
    }

    /// The parser's translation state, with no errors charged yet.
    pub open spec fn st(self) -> TState {
        TState { names: self.names(), instrs: self.instrs(), errors: 0 }
    }

    /// Names stay distinct and every emitted handle stays in the table.
    pub open spec fn wf(self) -> bool {
        tstate_wf(self.st())
    }

    /// A parser with an empty name table and no instructions.
    pub fn new() -> (r: Self)
        ensures
            r.st() == empty_tstate(),
            r.wf(),
    {
        let r = Self { registers: Vec::new(), instructions: Vec::new() };
        proof {
            assert(r.names() =~= Seq::<Seq<char>>::empty());
            assert(r.instrs() =~= Seq::<Instruction>::empty());
        }
        r
    }

    /// Like [`Parser::new`], with memory preallocated for `cnt`
    /// instructions.
    pub fn with_instructions(cnt: usize) -> (r: Self)
        ensures
            r.st() == empty_tstate(),
            r.wf(),
    {
        let r = Self { registers: Vec::new(), instructions: Vec::with_capacity(cnt) };
        proof {
            assert(r.names() =~= Seq::<Seq<char>>::empty());
            assert(r.instrs() =~= Seq::<Instruction>::empty());
        }
        r
    }

    /// The emitted instruction list.
    pub fn get_instructions(&self) -> (r: &Vec<Instruction>)
        ensures
            r@ == self.instrs(),
    {
        &self.instructions
    }

    /// The name table: the name at position `i` owns handle `i`.
    pub fn get_registers(&self) -> (r: &Registers)
        ensures
            r.deep_view() == self.names(),
    {
        &self.registers
    }

    /// Translate a whole program and return the number of malformed lines,
    /// or abort with the fatal unknown-register error.
    pub fn parse(&mut self, program: Vec<&str>) -> (r: Result<usize, ParseError>)
        requires
            old(self).wf(),
        ensures
            final(self).wf(),
            ({
                match translate_from(old(self).st(), program.deep_view()) {
                    Some(st) => r == Ok::<usize, ParseError>(st.errors as usize)
                        && final(self).names() == st.names && final(self).instrs() == st.instrs,
                    None => r == Err::<usize, ParseError>(ParseError::UnknownRegister),
                }
            }),
    {
        let ghost lines = program.deep_view();
        let ghost st0 = self.st();
        let mut errorneous: usize = 0;
        let n = program.len();
        let mut idx: usize = 0;
        proof {
            assert(lines.skip(0) =~= lines);
        }
        while idx < n
            invariant
                idx <= n,
                n == program@.len(),
                lines == program.deep_view(),
                st0 == old(self).st(),
                self.wf(),
                errorneous <= idx,
                translate_from(st0, lines) == translate_from(
                    TState {
                        names: self.names(),
                        instrs: self.instrs(),
                        errors: errorneous as nat,
                    },
                    lines.skip(idx as int),
                ),
            decreases n - idx,
        {
            let ghost cur = TState {
                names: self.names(),
                instrs: self.instrs(),
                errors: errorneous as nat,
            };
            let line = program[idx];
            proof {
                assert(lines[idx as int] == program@[idx as int]@);
                assert(lines.skip(idx as int)[0] == lines[idx as int]);
                assert(lines.skip(idx as int).skip(1) =~= lines.skip(idx as int + 1));
            }
            match self.parse_line(line) {
                Ok(LineOutcome::Emit(instruction)) => {
                    let ghost eff = line_effect(cur.names, lines[idx as int]);
                    let ghost st_head = TState { names: cur.names, instrs: cur.instrs, errors: 0nat };
                    let ghost names_mid = self.names();
                    let ghost st_mid = TState { names: names_mid, instrs: self.instrs(), errors: 0nat };
                    proof {
                        assert(self.wf());
                        assert(self.st() == st_mid);
                        assert(tstate_wf(st_mid));
                    }
                    self.instructions.push(instruction);
                    proof {
                        assert(self.names() == names_mid);
                        assert forall|i: int, j: int|
                            0 <= i < j < self.names().len() implies self.names()[i]
                            != self.names()[j] by {
                            assert(st_mid.names[i] != st_mid.names[j]);
                        }
                        assert(eff == (LineEffect::Emit {
                            names: self.names(),
                            instr: instruction,
                        }));
                        assert(tstate_wf(st_head));
                        lemma_line_effect_names(cur.names, lines[idx as int]);
                        assert(cur.names.len() <= self.names().len());
                        assert(self.instrs() =~= cur.instrs.push(instruction));
                        assert forall|k: int| 0 <= k < self.instrs().len() implies instr_wf(
                            #[trigger] self.instrs()[k],
                            self.names().len(),
                        ) by {
                            if k < cur.instrs.len() {
                                assert(instr_wf(st_head.instrs[k], st_head.names.len()));
                                lemma_instr_wf_mono(
                                    cur.instrs[k],
                                    cur.names.len(),
                                    self.names().len(),
                                );
                            }
                        }
                        assert(self.wf());
                    }
                },
                Ok(LineOutcome::Elide) => {
                    proof {
                        assert(line_effect(cur.names, lines[idx as int]) is Elide);
                        assert(self.wf());
                    }
                },
                Ok(LineOutcome::Reject) => {
                    proof {
                        assert(line_effect(cur.names, lines[idx as int]) is Reject);
                        assert(self.wf());
                    }
                    errorneous = errorneous + 1;
                },
                Err(e) => {
                    proof {
                        assert(line_effect(cur.names, lines[idx as int]) is Fatal);
                        assert(translate_from(cur, lines.skip(idx as int)) is None);
                    }
                    return Err(e);
                },
            }
            idx += 1;
        }
        proof {
            assert(lines.skip(n as int) =~= Seq::<Seq<char>>::empty());
            assert(translate_from(st0, lines) == Some(
                TState { names: self.names(), instrs: self.instrs(), errors: errorneous as nat },
            ));
        }
        Ok(errorneous)
    }

    /// Translate `mov x y`: the destination `x` is declared on first
    /// appearance; the source `y` must resolve against the table that
    /// already includes `x`.  An unresolvable source is fatal, though the
    /// destination's registration survives.
    fn parse_mov(&mut self, x: &str, y: &str) -> (r: Result<Instruction, ParseError>)
        requires
            old(self).wf(),
        ensures
            final(self).wf(),
            final(self).instrs() == old(self).instrs(),
            ({
                match mov_effect(old(self).names(), x@, y@) {
                    LineEffect::Emit { names, instr } => r == Ok::<Instruction, ParseError>(instr)
                        && final(self).names() == names && instr_wf(instr, names.len()),
                    LineEffect::Fatal => r == Err::<Instruction, ParseError>(
                        ParseError::UnknownRegister,
                    ),
                    _ => false,
                }
            }),
    {
        let ghost names0 = self.registers.deep_view();
        proof {
            lemma_names_len_bound(&self.registers);
        }
        let register: Register = match <Register as MyFromStr>::from_str(x, &self.registers) {
            Some(key) => key,
            None => {
                let reg = self.registers.len();
                proof {
                    lemma_lookup(names0, x@);
                }
                self.registers.push(x.to_owned());
                proof {
                    lemma_names_len_bound(&self.registers);
                    assert(self.registers.deep_view() =~= names0.push(x@));
                    assert(names0.len() < usize::MAX);
                    lemma_lookup_push(names0, x@, x@);
                    assert forall|i: int, j: int|
                        0 <= i < j < self.names().len() implies self.names()[i]
                        != self.names()[j] by {
                        assert(old(self).st().names == names0);
                        if j < names0.len() {
                            assert(self.names()[i] == names0[i]);
                            assert(self.names()[j] == names0[j]);
                            assert(names0[i] != names0[j]);
                        } else {
                            assert(self.names()[j] == x@);
                            assert(self.names()[i] == names0[i]);
                            assert(names0[i] != x@);
                        }
                    }
                }
                reg
            },
        };
        let ghost names2 = self.registers.deep_view();
        proof {
            lemma_names_len_bound(&self.registers);
            lemma_lookup(names2, x@);
            assert(spec_lookup(names2, x@) == Some(register));
            assert(self.instrs() == old(self).instrs());
            assert forall|k: int| 0 <= k < self.instrs().len() implies instr_wf(
                #[trigger] self.instrs()[k],
                self.names().len(),
            ) by {
                assert(instr_wf(old(self).st().instrs[k], old(self).st().names.len()));
                lemma_instr_wf_mono(self.instrs()[k], names0.len(), names2.len());
            }
            assert(self.wf());
        }
        match <Either as MyFromStr>::from_str(y, &self.registers) {
            Some(src) => {
                proof {
                    lemma_lookup(names2, y@);
                    assert(crate::types::operand_wf(src, names2.len()));
                }
                Ok(Instruction::Mov(register, src))
            },
            None => Err(ParseError::UnknownRegister),
        }
    }

    /// Translate `inc x`: `x` must already denote a known register.
    fn parse_inc(&self, x: &str) -> (r: Result<Instruction, ParseError>)
        ensures
            ({
                match spec_lookup(self.names(), x@) {
                    Some(reg) => r == Ok::<Instruction, ParseError>(Instruction::Inc(reg)),
                    None => r == Err::<Instruction, ParseError>(ParseError::UnknownRegister),
                }
            }),
    {
        match <Register as MyFromStr>::from_str(x, &self.registers) {
            Some(reg) => Ok(Instruction::Inc(reg)),
            None => Err(ParseError::UnknownRegister),
        }
    }

    /// Translate `dec x`: `x` must already denote a known register.
    fn parse_dec(&self, x: &str) -> (r: Result<Instruction, ParseError>)
        ensures
            ({
                match spec_lookup(self.names(), x@) {
                    Some(reg) => r == Ok::<Instruction, ParseError>(Instruction::Dec(reg)),
                    None => r == Err::<Instruction, ParseError>(ParseError::UnknownRegister),
                }
            }),
    {
        match <Register as MyFromStr>::from_str(x, &self.registers) {
            Some(reg) => Ok(Instruction::Dec(reg)),
            None => Err(ParseError::UnknownRegister),
        }
    }

    /// Translate `jnz x y`.  A constant-zero condition can never branch, so
    /// the line is elided — `y` is not even resolved then.
    fn parse_jnz(&self, x: &str, y: &str) -> (r: Result<Option<Instruction>, ParseError>)
        ensures
            ({
                match jnz_effect(self.names(), x@, y@) {
                    LineEffect::Emit { names, instr } => r == Ok::<
                        Option<Instruction>,
                        ParseError,
                    >(Some(instr)) && names == self.names(),
                    LineEffect::Elide => r == Ok::<Option<Instruction>, ParseError>(None),
                    LineEffect::Fatal => r == Err::<Option<Instruction>, ParseError>(
                        ParseError::UnknownRegister,
                    ),
                    _ => false,
                }
            }),
    {
        let cond = match <Either as MyFromStr>::from_str(x, &self.registers) {
            Some(c) => c,
            None => {
                return Err(ParseError::UnknownRegister);
            },
        };
        if cond == Either::Constant(0) {
            return Ok(None);
        }
        match <Either as MyFromStr>::from_str(y, &self.registers) {
            Some(off) => Ok(Some(Instruction::Jnz(cond, off))),
            None => Err(ParseError::UnknownRegister),
        }
    }

    /// Dispatch one source line by its first token and token count.
    fn parse_line(&mut self, line: &str) -> (r: Result<LineOutcome, ParseError>)
        requires
            old(self).wf(),
        ensures
            final(self).wf(),
            final(self).instrs() == old(self).instrs(),
            ({
                match line_effect(old(self).names(), line@) {
                    LineEffect::Emit { names, instr } => r == Ok::<LineOutcome, ParseError>(
                        LineOutcome::Emit(instr),
                    ) && final(self).names() == names && instr_wf(instr, names.len()),
                    LineEffect::Elide => r == Ok::<LineOutcome, ParseError>(LineOutcome::Elide)
                        && final(self).names() == old(self).names(),
                    LineEffect::Reject => r == Ok::<LineOutcome, ParseError>(LineOutcome::Reject)
                        && final(self).names() == old(self).names(),
                    LineEffect::Fatal => r == Err::<LineOutcome, ParseError>(
                        ParseError::UnknownRegister,
                    ),
                }
            }),
    {
        let tokens = split_tokens(line);
        let ghost toks = tokenize(line@);
        proof {
            reveal_strlit("mov");
            reveal_strlit("inc");
            reveal_strlit("dec");
            reveal_strlit("jnz");
            assert("mov"@ =~= mov_tok());
            assert("inc"@ =~= inc_tok());
            assert("dec"@ =~= dec_tok());
            assert("jnz"@ =~= jnz_tok());
            assert(tokens@.len() == toks.len());
        }
        let len = tokens.len();
        if len >= 1 {
            proof {
                assert(tokens@[0]@ == toks[0]);
            }
        }
        if len == 3 && str_eq(tokens[0], "mov") {
            proof {
                assert(tokens@[1]@ == toks[1]);
                assert(tokens@[2]@ == toks[2]);
            }
            match self.parse_mov(tokens[1], tokens[2]) {
                Ok(instruction) => Ok(LineOutcome::Emit(instruction)),
                Err(e) => Err(e),
            }
        } else if len == 2 && str_eq(tokens[0], "inc") {
            proof {
                assert(tokens@[1]@ == toks[1]);
            }
            match self.parse_inc(tokens[1]) {
                Ok(instruction) => {
                    proof {
                        lemma_names_len_bound(&self.registers);
                        lemma_lookup(self.names(), toks[1]);
                        assert(instr_wf(instruction, self.names().len()));
                    }
                    Ok(LineOutcome::Emit(instruction))
                },
                Err(e) => Err(e),
            }
        } else if len == 2 && str_eq(tokens[0], "dec") {
            proof {
                assert(tokens@[1]@ == toks[1]);
            }
            match self.parse_dec(tokens[1]) {
                Ok(instruction) => {
                    proof {
                        lemma_names_len_bound(&self.registers);
                        lemma_lookup(self.names(), toks[1]);
                        assert(instr_wf(instruction, self.names().len()));
                    }
                    Ok(LineOutcome::Emit(instruction))
                },
                Err(e) => Err(e),
            }
        } else if len == 3 && str_eq(tokens[0], "jnz") {
            proof {
                assert(tokens@[1]@ == toks[1]);
                assert(tokens@[2]@ == toks[2]);
            }
            match self.parse_jnz(tokens[1], tokens[2]) {
                Ok(Some(instruction)) => {
                    proof {
                        lemma_names_len_bound(&self.registers);
                        lemma_lookup(self.names(), toks[1]);
                        lemma_lookup(self.names(), toks[2]);
                        assert(instr_wf(instruction, self.names().len()));
                    }
                    Ok(LineOutcome::Emit(instruction))
                },
                Ok(None) => Ok(LineOutcome::Elide),
                Err(e) => Err(e),
            }
        } else {
            proof {
                assert(malformed_line(line@));
            }
            Ok(LineOutcome::Reject)
        }
    }
}

} // verus!
