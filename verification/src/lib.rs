//! A minimal register-machine assembly language.
//!
//! Programs are sequences of text lines over four mnemonics: `mov x y`
//! copies a constant or another register into register `x`, `inc x` and
//! `dec x` adjust a register by one, and `jnz x y` jumps `y` instructions
//! away when `x` is not zero.  The [`parser::Parser`] translates lines into
//! a compact instruction list, assigning each register name a dense handle
//! on first use; the [`interpreter::Interpreter`] runs the instruction list
//! over a zero-initialized register file.

use vstd::prelude::*;

pub mod interpreter;
pub mod parser;
pub mod scan;
pub mod types;

use interpreter::{halts, runs_to, zero_regs, Interpreter};
use parser::{translate, ParseError, Parser};
use types::instr_wf;

verus! {

/// Translate a program, run it, and map every register name the program
/// declared to its final value, in first-appearance order.
///
/// A fatal unknown-register reference surfaces as the error; malformed
/// lines are merely skipped.  The caller vouches that the translated
/// program halts (a program that keeps jumping backward has no final state
/// to report) and that it is of a size the machine can count.
pub fn simple_assembler(program: Vec<&str>) -> (r: Result<Vec<(String, i64)>, ParseError>)
    requires
        ({
            match translate(program.deep_view()) {
                Some(st) => halts(st.instrs, zero_regs(st.names.len())) && st.instrs.len()
                    <= i64::MAX,
                None => true,
            }
        }),
    ensures
        ({
            match translate(program.deep_view()) {
                None => r == Err::<Vec<(String, i64)>, ParseError>(ParseError::UnknownRegister),
                Some(st) => r is Ok && ({
                    let pairs = r->Ok_0@;
                    &&& pairs.len() == st.names.len()
                    &&& (forall|i: int|
                        0 <= i < pairs.len() ==> (#[trigger] pairs[i]).0@ == st.names[i])
                    &&& runs_to(
                        st.instrs,
                        zero_regs(st.names.len()),
                        Seq::new(pairs.len(), |i: int| pairs[i].1),
                    )
                }),
            }
        }),
{
    let ghost lines = program.deep_view();
    let mut parser = Parser::with_instructions(program.len());
    let parse_result = parser.parse(program);
    match parse_result {
        Err(e) => {
            return Err(e);
        },
        Ok(_skipped) => {},
    }
    let ghost st = translate(lines)->Some_0;
    let registers = parser.get_registers();
    let num_registers = registers.len();
    proof {
        assert(registers.deep_view().len() == registers@.len());
    }
    let mut executor = Interpreter::new(num_registers);
    proof {
        assert forall|k: int| 0 <= k < parser.instrs().len() implies instr_wf(
            #[trigger] parser.instrs()[k],
            parser.names().len(),
        ) by {
            assert(instr_wf(parser.st().instrs[k], parser.st().names.len()));
        }
    }
    executor.execute(parser.get_instructions());
    let ghost fin = executor.regs();
    let mut result: Vec<(String, i64)> = Vec::new();
    let state = executor.get_state();
    let mut i: usize = 0;
    while i < num_registers
        invariant
            i <= num_registers,
            num_registers == st.names.len(),
            registers.deep_view() == st.names,
            state@ == fin,
            fin.len() == num_registers,
            result@.len() == i,
            forall|j: int| 0 <= j < i ==> (#[trigger] result@[j]).0@ == st.names[j],
            forall|j: int| 0 <= j < i ==> (#[trigger] result@[j]).1 == fin[j],
        decreases num_registers - i,
    {
        let name = registers[i].clone();
        let value = state[i];
        proof {
            assert(registers.deep_view()[i as int] == registers@[i as int]@);
        }
        result.push((name, value));
        i += 1;
    }
    proof {
        assert(Seq::new(result@.len(), |j: int| result@[j].1) =~= fin);
    }
    Ok(result)
}

} // verus!
