//! The shared vocabulary of the assembler: register handles, operands,
//! instructions, and resolution of source tokens against the name table.

use crate::scan::spec_parse_i64;
use vstd::prelude::*;

verus! {

/// A register handle: a dense, zero-based index assigned in strict
/// first-appearance order during translation.
pub type Register = usize;

/// The name table.  The name stored at position `i` owns handle `i`, so the
/// table doubles as the mapping from register name to handle.
pub type Registers = Vec<String>;

/// The value a register holds.
pub type Constant = i64;

/// An operand: either a reference to a register's current value or a signed
/// integer literal.  Equality is structural, so a constant `0` is never
/// equal to any register operand.
#[derive(Clone, Copy, Debug, PartialEq, Eq, Structural)]
pub enum Either {
    Register(Register),
    Constant(Constant),
}

/// One machine instruction.
///
/// * `Mov(x, y)` copies `y` (a constant or the content of a register) into
///   register `x`.
/// * `Inc(x)` increases the content of register `x` by one.
/// * `Dec(x)` decreases the content of register `x` by one.
/// * `Jnz(x, y)` jumps to an instruction `y` steps away (positive forward,
///   negative backward), but only if `x` is not zero.
#[derive(Clone, Copy, Debug, PartialEq, Eq, Structural)]
pub enum Instruction {
    Mov(Register, Either),
    Inc(Register),
    Dec(Register),
    Jnz(Either, Either),
}

/// Every register handle an operand mentions lies below `nregs`.
pub open spec fn operand_wf(e: Either, nregs: nat) -> bool {
    match e {
        Either::Register(r) => (r as nat) < nregs,
        Either::Constant(_) => true,
    }
}

/// Every register handle an instruction mentions lies below `nregs`.
pub open spec fn instr_wf(i: Instruction, nregs: nat) -> bool {
    match i {
        Instruction::Mov(x, y) => (x as nat) < nregs && operand_wf(y, nregs),
        Instruction::Inc(x) => (x as nat) < nregs,
        Instruction::Dec(x) => (x as nat) < nregs,
        Instruction::Jnz(x, y) => operand_wf(x, nregs) && operand_wf(y, nregs),
    }
}

/// The handle of `name` in the name table: the first position that holds it,
/// or `None` when the name is unknown.
pub open spec fn spec_lookup(names: Seq<Seq<char>>, name: Seq<char>) -> Option<Register>
    decreases names.len(),
{
    if names.len() == 0 {
        None
    } else if names[0] == name {
        Some(0usize)
    } else {
        match spec_lookup(names.skip(1), name) {
            Some(i) => Some((i + 1) as usize),
            None => None,
        }
    }
}

/// What a successful or failed lookup says about the table: a found handle
/// is the first position holding the name, and a miss means no position
/// holds it.
pub proof fn lemma_lookup(names: Seq<Seq<char>>, name: Seq<char>)
    requires
        names.len() <= usize::MAX,
    ensures
        match spec_lookup(names, name) {
            Some(i) => (i as int) < names.len() && names[i as int] == name && (forall|j: int|
                0 <= j < i ==> names[j] != name),
            None => forall|j: int| 0 <= j < names.len() ==> names[j] != name,
        },
    decreases names.len(),
{
    if names.len() == 0 {
    } else if names[0] == name {
    } else {
        lemma_lookup(names.skip(1), name);
        match spec_lookup(names.skip(1), name) {
            Some(i) => {
                assert((i as int) < names.skip(1).len());
                assert(names.skip(1)[i as int] == name);
                assert(names[i + 1] == names.skip(1)[i as int]);
                assert(spec_lookup(names, name) == Some((i + 1) as usize));
                assert(((i + 1) as usize) as int == i + 1);
                assert forall|j: int| 0 <= j < i + 1 implies names[j] != name by {
                    if j > 0 {
                        assert(names.skip(1)[j - 1] == names[j]);
                        assert(names.skip(1)[j - 1] != name);
                    }
                }
            },
            None => {
                assert forall|j: int| 0 <= j < names.len() implies names[j] != name by {
                    if j > 0 {
                        assert(names.skip(1)[j - 1] == names[j]);
                    }
                }
            },
        }
    }
}

/// Appending a fresh name leaves earlier handles unchanged and gives the new
/// name the next handle.
pub proof fn lemma_lookup_push(names: Seq<Seq<char>>, pushed: Seq<char>, name: Seq<char>)
    requires
        names.len() < usize::MAX,
    ensures
        spec_lookup(names.push(pushed), name) == (if spec_lookup(names, name) is Some {
            spec_lookup(names, name)
        } else if pushed == name {
            Some(names.len() as usize)
        } else {
            None::<Register>
        }),
    decreases names.len(),
{
    let whole = names.push(pushed);
    if names.len() == 0 {
        assert(whole[0] == pushed);
        assert(whole.skip(1) =~= Seq::<Seq<char>>::empty());
        if pushed == name {
            assert(spec_lookup(whole, name) == Some(0usize));
        } else {
            assert(spec_lookup(whole.skip(1), name) is None);
            assert(spec_lookup(whole, name) is None);
        }
    } else {
        lemma_lookup_push(names.skip(1), pushed, name);
        lemma_lookup(names.skip(1), name);
        assert(whole[0] == names[0]);
        assert(whole.skip(1) =~= names.skip(1).push(pushed));
        if names[0] == name {
            assert(spec_lookup(whole, name) == Some(0usize));
            assert(spec_lookup(names, name) == Some(0usize));
        } else {
            match spec_lookup(names.skip(1), name) {
                Some(i) => {
                    assert((i as int) < names.skip(1).len());
                    assert(spec_lookup(whole.skip(1), name) == Some(i));
                    assert(spec_lookup(whole, name) == Some((i + 1) as usize));
                    assert(spec_lookup(names, name) == Some((i + 1) as usize));
                },
                None => {
                    assert(spec_lookup(names, name) is None);
                    if pushed == name {
                        assert(spec_lookup(whole.skip(1), name) == Some(
                            names.skip(1).len() as usize,
                        ));
                        assert((names.skip(1).len() as usize) as int == names.len() - 1);
                        assert(spec_lookup(whole, name) == Some(
                            (names.len() - 1 + 1) as usize,
                        ));
                        assert(((names.len() - 1 + 1) as usize) as int == names.len());
                    } else {
                        assert(spec_lookup(whole.skip(1), name) is None);
                        assert(spec_lookup(whole, name) is None);
                    }
                },
            }
        }
    }
}

/// A name that no table entry holds is not found.
pub proof fn lemma_lookup_none(names: Seq<Seq<char>>, name: Seq<char>)
    requires
        forall|j: int| 0 <= j < names.len() ==> names[j] != name,
    ensures
        spec_lookup(names, name) is None,
    decreases names.len(),
{
    if names.len() > 0 {
        assert(forall|j: int|
            0 <= j < names.skip(1).len() ==> #[trigger] names.skip(1)[j] == names[j + 1]);
        lemma_lookup_none(names.skip(1), name);
    }
}

/// Widening the table never invalidates an instruction.
pub proof fn lemma_instr_wf_mono(i: Instruction, n1: nat, n2: nat)
    requires
        instr_wf(i, n1),
        n1 <= n2,
    ensures
        instr_wf(i, n2),
{
}

/// A name table held in a vector is no longer than `usize::MAX`.
pub proof fn lemma_names_len_bound(registers: &Registers)
    ensures
        registers.deep_view().len() <= usize::MAX,
{
    assert(registers.len() == registers@.len());
    assert(registers.deep_view().len() == registers@.len());
}

/// What a source token denotes: an integer literal becomes a constant, any
/// other token must name a known register.  `None` is the fatal
/// unknown-register condition.
pub open spec fn spec_resolve(names: Seq<Seq<char>>, tok: Seq<char>) -> Option<Either> {
    match spec_parse_i64(tok) {
        Some(c) => Some(Either::Constant(c)),
        None => match spec_lookup(names, tok) {
            Some(r) => Some(Either::Register(r)),
            None => None,
        },
    }
}

/// Resolution of a source token against the name table.  `None` reports the
/// unknown-register condition instead of guessing a handle.
pub trait MyFromStr: Sized {
    /// What the token resolves to, at the specification level.
    spec fn spec_from_str(from: Seq<char>, names: Seq<Seq<char>>) -> Option<Self>;

    /// Resolve `from` against the table.
    fn from_str(from: &str, registers: &Registers) -> (r: Option<Self>)
        ensures
            r == Self::spec_from_str(from@, registers.deep_view()),
    ;
}

/// Find the handle of the register named `from`, scanning for the first
/// matching table entry.
fn lookup_register(from: &str, registers: &Registers) -> (r: Option<Register>)
    ensures
        r == spec_lookup(registers.deep_view(), from@),
{
    let ghost names = registers.deep_view();
    let n = registers.len();
    proof {
        assert(names.len() == registers@.len());
        lemma_lookup(names, from@);
    }
    let mut i: usize = 0;
    while i < n
        invariant
            i <= n,
            n == names.len(),
            names == registers.deep_view(),
            forall|j: int| 0 <= j < i ==> names[j] != from@,
            match spec_lookup(names, from@) {
                Some(k) => (k as int) < names.len() && names[k as int] == from@ && (forall|j: int|
                    0 <= j < k ==> names[j] != from@),
                None => forall|j: int| 0 <= j < names.len() ==> names[j] != from@,
            },
        decreases n - i,
    {
        if crate::scan::str_eq(registers[i].as_str(), from) {
            proof {
                assert(names[i as int] == registers@[i as int]@);
                if spec_lookup(names, from@) is None {
                    assert(names[i as int] != from@);
                    assert(false);
                }
                let k = spec_lookup(names, from@)->Some_0;
                if (k as int) < i as int {
                    assert(names[k as int] != from@);
                } else if (k as int) > i as int {
                    assert(names[i as int] != from@);
                }
            }
            return Some(i);
        }
        proof {
            assert(names[i as int] == registers@[i as int]@);
        }
        i += 1;
    }
    proof {
        if spec_lookup(names, from@) is Some {
            let k = spec_lookup(names, from@)->Some_0;
            assert(names[k as int] != from@);
        }
    }
    None
}

impl MyFromStr for Register {
    open spec fn spec_from_str(from: Seq<char>, names: Seq<Seq<char>>) -> Option<Register> {
        spec_lookup(names, from)
    }

    fn from_str(from: &str, registers: &Registers) -> (r: Option<Register>) {
        lookup_register(from, registers)
    }
}

impl MyFromStr for Either {
    open spec fn spec_from_str(from: Seq<char>, names: Seq<Seq<char>>) -> Option<Either> {
        spec_resolve(names, from)
    }

    fn from_str(from: &str, registers: &Registers) -> (r: Option<Either>) {
        match crate::scan::parse_i64(from) {
            Some(val) => Some(Either::Constant(val)),
            None => match lookup_register(from, registers) {
                Some(reg) => Some(Either::Register(reg)),
                None => None,
            },
        }
    }
}

} // verus!
