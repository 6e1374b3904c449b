//! The mathematical model of execution: an abstract machine state, a
//! single-instruction step function, and its finite iteration. The
//! executable machine is specified against this model.

use vstd::prelude::*;
use crate::instruction::Instruction;

verus! {

/// The fatal error kinds. All are detected during execution; parsing and
/// optimization are total.
#[derive(Debug, Clone, Copy, PartialEq, Eq, Structural)]
pub enum ExecError {
    /// The data pointer was driven below the origin of the tape.
    PointerUnderflow,
    /// A forward bracket scan ran off the end of the program.
    UnmatchedJumpIfZero,
    /// A backward bracket scan ran off the start of the program.
    UnmatchedJumpIfNonZero,
}

/// An abstract machine state: instruction pointer, data pointer, the tape,
/// the position of the next unread input byte, and the output produced so
/// far.
#[verifier::ext_equal]
pub ghost struct MState {
    pub ip: nat,
    pub dp: nat,
    pub tape: Seq<u8>,
    pub pos: nat,
    pub out: Seq<u8>,
}

/// The state a fresh machine starts in: everything at zero, on a tape of
/// one zero cell.
pub open spec fn init_state() -> MState {
    MState { ip: 0, dp: 0, tape: seq![0u8], pos: 0, out: Seq::empty() }
}

/// Unsigned byte addition with wraparound.
pub open spec fn wrap_add(v: u8, n: u8) -> u8 {
    ((v + n) % 256) as u8
}

/// Unsigned byte subtraction with wraparound.
pub open spec fn wrap_sub(v: u8, n: u8) -> u8 {
    ((v + 256 - n) % 256) as u8
}

/// The tape after the data pointer has moved to `dp`: unchanged if `dp` is
/// already on it, else extended with zero cells up to and including `dp`.
pub open spec fn grow_tape(tape: Seq<u8>, dp: nat) -> Seq<u8> {
    if dp < tape.len() {
        tape
    } else {
        tape + Seq::new((dp + 1 - tape.len()) as nat, |i: int| 0u8)
    }
}

/// The position of the `JumpIfNonZero` matching an earlier `JumpIfZero`:
/// scan from position `j` at the given nesting depth, deepening on
/// `JumpIfZero` and surfacing on `JumpIfNonZero`, until the depth would
/// reach zero. `None` if the scan runs off the end of the program.
pub open spec fn match_fwd(code: Seq<Instruction>, j: nat, depth: nat) -> Option<nat>
    decreases code.len() - j,
{
    if j >= code.len() {
        None
    } else if code[j as int] is JumpIfNonZero && depth == 1 {
        Some(j)
    } else {
        let d = if code[j as int] is JumpIfZero {
            depth + 1
        } else if code[j as int] is JumpIfNonZero {
            (depth - 1) as nat
        } else {
            depth
        };
        match_fwd(code, j + 1, d)
    }
}

/// The position of the `JumpIfZero` matching a later `JumpIfNonZero`:
/// scan downward from position `j` (exclusive), symmetrically to
/// `match_fwd`. `None` if the scan runs off the start of the program.
pub open spec fn match_bwd(code: Seq<Instruction>, j: nat, depth: nat) -> Option<nat>
    decreases j,
{
    if j == 0 {
        None
    } else {
        let k = (j - 1) as nat;
        if code[k as int] is JumpIfZero && depth == 1 {
            Some(k)
        } else {
            let d = if code[k as int] is JumpIfZero {
                (depth - 1) as nat
            } else if code[k as int] is JumpIfNonZero {
                depth + 1
            } else {
                depth
            };
            match_bwd(code, k, d)
        }
    }
}

/// One fetch-dispatch-advance cycle from a non-halted state: the next state,
/// or the fatal error the instruction raises. Every instruction, including
/// a jump that lands on its matching bracket, leaves the instruction
/// pointer one past the instruction it executed or landed on.
pub open spec fn step(code: Seq<Instruction>, input: Seq<u8>, s: MState) -> Result<
    MState,
    ExecError,
>
    recommends
        s.ip < code.len(),
        s.dp < s.tape.len(),
{
    let cell = s.tape[s.dp as int];
    match code[s.ip as int] {
        Instruction::MoveForward => Ok(
            MState { ip: s.ip + 1, dp: s.dp + 1, tape: grow_tape(s.tape, s.dp + 1), ..s },
        ),
        Instruction::MoveBackward => if s.dp < 1 {
            Err(ExecError::PointerUnderflow)
        } else {
            Ok(MState { ip: s.ip + 1, dp: (s.dp - 1) as nat, ..s })
        },
        Instruction::Increment => Ok(
            MState { ip: s.ip + 1, tape: s.tape.update(s.dp as int, wrap_add(cell, 1)), ..s },
        ),
        Instruction::Decrement => Ok(
            MState { ip: s.ip + 1, tape: s.tape.update(s.dp as int, wrap_sub(cell, 1)), ..s },
        ),
        Instruction::Output => Ok(MState { ip: s.ip + 1, out: s.out.push(cell), ..s }),
        Instruction::Input => if s.pos < input.len() {
            Ok(
                MState {
                    ip: s.ip + 1,
                    tape: s.tape.update(s.dp as int, input[s.pos as int]),
                    pos: s.pos + 1,
                    ..s
                },
            )
        } else {
            Ok(MState { ip: s.ip + 1, ..s })
        },
        Instruction::JumpIfZero => if cell != 0 {
            Ok(MState { ip: s.ip + 1, ..s })
        } else {
            match match_fwd(code, s.ip + 1, 1) {
                Some(j) => Ok(MState { ip: j + 1, ..s }),
                None => Err(ExecError::UnmatchedJumpIfZero),
            }
        },
        Instruction::JumpIfNonZero => if cell == 0 {
            Ok(MState { ip: s.ip + 1, ..s })
        } else {
            match match_bwd(code, s.ip, 1) {
                Some(j) => Ok(MState { ip: j + 1, ..s }),
                None => Err(ExecError::UnmatchedJumpIfNonZero),
            }
        },
        Instruction::MoveForwardBy(n) => Ok(
            MState { ip: s.ip + 1, dp: s.dp + n as nat, tape: grow_tape(s.tape, s.dp + n as nat), ..s },
        ),
        Instruction::MoveBackwardBy(n) => if s.dp < n {
            Err(ExecError::PointerUnderflow)
        } else {
            Ok(MState { ip: s.ip + 1, dp: (s.dp - n) as nat, ..s })
        },
        Instruction::IncrementBy(n) => Ok(
            MState { ip: s.ip + 1, tape: s.tape.update(s.dp as int, wrap_add(cell, n)), ..s },
        ),
        Instruction::DecrementBy(n) => Ok(
            MState { ip: s.ip + 1, tape: s.tape.update(s.dp as int, wrap_sub(cell, n)), ..s },
        ),
    }
}

/// At most `n` steps from `s`: stop early on a halted state, short-circuit
/// on the first error.
pub open spec fn steps(code: Seq<Instruction>, input: Seq<u8>, s: MState, n: nat) -> Result<
    MState,
    ExecError,
>
    decreases n,
{
    if n == 0 || s.ip >= code.len() {
        Ok(s)
    } else {
        match step(code, input, s) {
            Ok(s2) => steps(code, input, s2, (n - 1) as nat),
            Err(e) => Err(e),
        }
    }
}

/// After `n` steps from the initial state the machine has halted normally
/// with output `out`.
pub open spec fn halts_with(code: Seq<Instruction>, input: Seq<u8>, n: nat, out: Seq<u8>) -> bool {
    match steps(code, input, init_state(), n) {
        Ok(t) => t.ip >= code.len() && t.out == out,
        Err(_) => false,
    }
}

/// Within `n` steps from the initial state execution fails fatally with
/// error `e`.
pub open spec fn fails_with(code: Seq<Instruction>, input: Seq<u8>, n: nat, e: ExecError) -> bool {
    steps(code, input, init_state(), n) == Err::<MState, ExecError>(e)
}

/// Executing `code` against `input` from a fresh machine eventually halts
/// normally with output `out`.
pub open spec fn halts_ever(code: Seq<Instruction>, input: Seq<u8>, out: Seq<u8>) -> bool {
    exists|n: nat| halts_with(code, input, n, out)
}

/// Executing `code` against `input` from a fresh machine eventually fails
/// fatally with error `e`.
pub open spec fn fails_ever(code: Seq<Instruction>, input: Seq<u8>, e: ExecError) -> bool {
    exists|n: nat| fails_with(code, input, n, e)
}

/// Executing `code` against `input` from a fresh machine ends as `r` says:
/// normal termination with exactly the given output, or the given fatal
/// error.
pub open spec fn executes_to(
    code: Seq<Instruction>,
    input: Seq<u8>,
    r: Result<Seq<u8>, ExecError>,
) -> bool {
    match r {
        Ok(out) => halts_ever(code, input, out),
        Err(e) => fails_ever(code, input, e),
    }
}

/// Within at most `max` steps from `s0` the machine reaches state `t`
/// without an error.
pub open spec fn reaches_within(
    code: Seq<Instruction>,
    input: Seq<u8>,
    s0: MState,
    t: MState,
    max: nat,
) -> bool {
    exists|n: nat| n <= max && steps(code, input, s0, n) == Ok::<MState, ExecError>(t)
}

/// Within at most `max` steps from `s0` execution fails fatally with `e`.
pub open spec fn fails_within(
    code: Seq<Instruction>,
    input: Seq<u8>,
    s0: MState,
    e: ExecError,
    max: nat,
) -> bool {
    exists|n: nat| n <= max && steps(code, input, s0, n) == Err::<MState, ExecError>(e)
}

/// A state reached from the initial state and already past the program's
/// end witnesses normal termination with its output.
pub proof fn lemma_reaches_halted(code: Seq<Instruction>, input: Seq<u8>, t: MState, max: nat)
    requires
        reaches_within(code, input, init_state(), t, max),
        t.ip >= code.len(),
    ensures
        executes_to(code, input, Ok(t.out)),
{
    let n = choose|n: nat|
        n <= max && steps(code, input, init_state(), n) == Ok::<MState, ExecError>(t);
    assert(halts_with(code, input, n, t.out));
    assert(halts_ever(code, input, t.out));
}

/// A fatal error reached from the initial state witnesses failing
/// execution.
pub proof fn lemma_fails_witnessed(code: Seq<Instruction>, input: Seq<u8>, e: ExecError, max: nat)
    requires
        fails_within(code, input, init_state(), e, max),
    ensures
        executes_to(code, input, Err(e)),
{
    let n = choose|n: nat|
        n <= max && steps(code, input, init_state(), n) == Err::<MState, ExecError>(e);
    assert(fails_with(code, input, n, e));
    assert(fails_ever(code, input, e));
}


/// A normally halted state absorbs: once reached, running longer changes
/// nothing.
proof fn lemma_halted_absorbs(
    code: Seq<Instruction>,
    input: Seq<u8>,
    s: MState,
    t: MState,
    n: nat,
    m: nat,
)
    requires
        steps(code, input, s, n) == Ok::<MState, ExecError>(t),
        t.ip >= code.len(),
        n <= m,
    ensures
        steps(code, input, s, m) == Ok::<MState, ExecError>(t),
    decreases n,
{
    if n == 0 || s.ip >= code.len() {
    } else {
        match step(code, input, s) {
            Ok(s2) => {
                lemma_halted_absorbs(code, input, s2, t, (n - 1) as nat, (m - 1) as nat);
            },
            Err(_) => {},
        }
    }
}

/// A fatal error absorbs: once raised, running longer raises it still.
proof fn lemma_error_absorbs(
    code: Seq<Instruction>,
    input: Seq<u8>,
    s: MState,
    e: ExecError,
    n: nat,
    m: nat,
)
    requires
        steps(code, input, s, n) == Err::<MState, ExecError>(e),
        n <= m,
    ensures
        steps(code, input, s, m) == Err::<MState, ExecError>(e),
    decreases n,
{
    if n == 0 || s.ip >= code.len() {
    } else {
        match step(code, input, s) {
            Ok(s2) => {
                lemma_error_absorbs(code, input, s2, e, (n - 1) as nat, (m - 1) as nat);
            },
            Err(_) => {},
        }
    }
}

/// Execution is deterministic: a program on an input has at most one
/// outcome, so a contract phrased over `executes_to` pins the result.
pub proof fn lemma_executes_to_unique(
    code: Seq<Instruction>,
    input: Seq<u8>,
    r1: Result<Seq<u8>, ExecError>,
    r2: Result<Seq<u8>, ExecError>,
)
    requires
        executes_to(code, input, r1),
        executes_to(code, input, r2),
    ensures
        r1 == r2,
{
    let s0 = init_state();
    let n1: nat = match r1 {
        Ok(out) => choose|n: nat| halts_with(code, input, n, out),
        Err(e) => choose|n: nat| fails_with(code, input, n, e),
    };
    let n2: nat = match r2 {
        Ok(out) => choose|n: nat| halts_with(code, input, n, out),
        Err(e) => choose|n: nat| fails_with(code, input, n, e),
    };
    let m = if n1 <= n2 {
        n2
    } else {
        n1
    };
    match r1 {
        Ok(out1) => {
            assert(halts_with(code, input, n1, out1));
            match steps(code, input, s0, n1) {
                Ok(t1) => {
                    lemma_halted_absorbs(code, input, s0, t1, n1, m);
                },
                Err(_) => {},
            }
        },
        Err(e1) => {
            assert(fails_with(code, input, n1, e1));
            lemma_error_absorbs(code, input, s0, e1, n1, m);
        },
    }
    match r2 {
        Ok(out2) => {
            assert(halts_with(code, input, n2, out2));
            match steps(code, input, s0, n2) {
                Ok(t2) => {
                    lemma_halted_absorbs(code, input, s0, t2, n2, m);
                },
                Err(_) => {},
            }
        },
        Err(e2) => {
            assert(fails_with(code, input, n2, e2));
            lemma_error_absorbs(code, input, s0, e2, n2, m);
        },
    }
}

/// Extending a trace by one step: if `n` steps reach the non-halted state
/// `t`, the result of `n + 1` steps is the result of stepping `t` once.
pub proof fn lemma_steps_snoc(code: Seq<Instruction>, input: Seq<u8>, s: MState, n: nat, t: MState)
    requires
        steps(code, input, s, n) == Ok::<MState, ExecError>(t),
        t.ip < code.len(),
    ensures
        steps(code, input, s, n + 1) == step(code, input, t),
    decreases n,
{
    if n == 0 {
        match step(code, input, t) {
            Ok(t2) => {
                assert(steps(code, input, t2, 0) == Ok::<MState, ExecError>(t2));
                assert(steps(code, input, s, 1) == Ok::<MState, ExecError>(t2));
            },
            Err(e) => {
                assert(steps(code, input, s, 1) == Err::<MState, ExecError>(e));
            },
        }
    } else if s.ip >= code.len() {
    } else {
        match step(code, input, s) {
            Ok(s2) => {
                lemma_steps_snoc(code, input, s2, (n - 1) as nat, t);
                assert(steps(code, input, s, n + 1) == steps(code, input, s2, n as nat));
            },
            Err(_) => {},
        }
    }
}

} // verus!
