//! The executable machine: a fetch-dispatch-advance loop over a program,
//! verified against the step semantics of the `semantics` module.

use vstd::prelude::*;
use vstd::slice::slice_to_vec;
use crate::instruction::Instruction;
use crate::semantics::{
    ExecError, MState, executes_to, fails_within, grow_tape, init_state, lemma_fails_witnessed,
    lemma_reaches_halted, lemma_steps_snoc, match_bwd, match_fwd, reaches_within, step, steps,
    wrap_add, wrap_sub,
};

verus! {

/// One execution in progress: the program, the tape, the input with the
/// position of its next unread byte, the output produced so far, and the
/// two pointers.
struct Machine {
    code: Vec<Instruction>,
    /// The tape; grows with zero cells as the data pointer advances.
    data: Vec<u8>,
    input: Vec<u8>,
    /// Position of the next unread input byte.
    cursor: usize,
    output: Vec<u8>,
    /// Instruction pointer.
    ip: usize,
    /// Data pointer.
    dp: usize,
}

impl Machine {
    /// The abstract state this machine is in.
    spec fn st(self) -> MState {
        MState {
            ip: self.ip as nat,
            dp: self.dp as nat,
            tape: self.data@,
            pos: self.cursor as nat,
            out: self.output@,
        }
    }

    /// The machine's invariant: the data pointer is on the tape and the
    /// input cursor has not run past the input.
    spec fn wf(self) -> bool {
        &&& self.dp < self.data@.len()
        &&& self.cursor <= self.input@.len()
    }

    /// A fresh machine over the given program and input: both pointers and
    /// the input cursor at zero, a tape of one zero cell, no output.
    fn new(program: &[Instruction], input: &[u8]) -> (m: Machine)
        ensures
            m.wf(),
            m.st() == init_state(),
            m.code@ == program@,
            m.input@ == input@,
    {
        let mut data: Vec<u8> = Vec::new();
        data.push(0);
        let m = Machine {
            code: slice_to_vec(program),
            data,
            input: slice_to_vec(input),
            cursor: 0,
            output: Vec::new(),
            ip: 0,
            dp: 0,
        };
        proof {
            assert(m.data@ =~= seq![0u8]);
            assert(m.st() =~= init_state());
        }
        m
    }

    /// Move the data pointer forward one cell, growing the tape by one zero
    /// cell if it leaves the current tape.
    fn exec_move_forward(&mut self)
        requires
            old(self).wf(),
            old(self).ip < old(self).code@.len(),
            old(self).code@[old(self).ip as int] is MoveForward,
        ensures
            final(self).wf(),
            final(self).code@ == old(self).code@,
            final(self).input@ == old(self).input@,
            step(old(self).code@, old(self).input@, old(self).st()) == Ok::<MState, ExecError>(
                final(self).st(),
            ),
    {
        let len = self.data.len();
        self.dp = self.dp + 1;
        if self.dp == len {
            self.data.push(0);
        }
        proof {
            vstd::std_specs::vec::axiom_spec_len(&self.code);
        }
        self.ip = self.ip + 1;
        proof {
            assert(self.data@ =~= grow_tape(old(self).data@, (old(self).dp + 1) as nat));
            assert(self.st() =~= MState {
                ip: old(self).st().ip + 1,
                dp: old(self).st().dp + 1,
                tape: grow_tape(old(self).st().tape, old(self).st().dp + 1),
                ..old(self).st()
            });
        }
    }

    /// Move the data pointer back one cell; underflow if it is at the
    /// origin.
    fn exec_move_backward(&mut self) -> (r: Result<(), ExecError>)
        requires
            old(self).wf(),
            old(self).ip < old(self).code@.len(),
            old(self).code@[old(self).ip as int] is MoveBackward,
        ensures
            final(self).code@ == old(self).code@,
            final(self).input@ == old(self).input@,
            r is Ok ==> final(self).wf() && step(old(self).code@, old(self).input@, old(self).st())
                == Ok::<MState, ExecError>(final(self).st()),
            r matches Err(e) ==> step(old(self).code@, old(self).input@, old(self).st())
                == Err::<MState, ExecError>(e),
    {
        if self.dp == 0 {
            return Err(ExecError::PointerUnderflow);
        }
        self.dp = self.dp - 1;
        proof {
            vstd::std_specs::vec::axiom_spec_len(&self.code);
        }
        self.ip = self.ip + 1;
        proof {
            assert(self.st() =~= MState {
                ip: old(self).st().ip + 1,
                dp: (old(self).st().dp - 1) as nat,
                ..old(self).st()
            });
        }
        Ok(())
    }

    /// Add one to the byte at the data pointer, wrapping 255 to 0.
    fn exec_increment(&mut self)
        requires
            old(self).wf(),
            old(self).ip < old(self).code@.len(),
            old(self).code@[old(self).ip as int] is Increment,
        ensures
            final(self).wf(),
            final(self).code@ == old(self).code@,
            final(self).input@ == old(self).input@,
            step(old(self).code@, old(self).input@, old(self).st()) == Ok::<MState, ExecError>(
                final(self).st(),
            ),
    {
        let v: u16 = self.data[self.dp] as u16;
        self.data[self.dp] = ((v + 1) % 256) as u8;
        proof {
            vstd::std_specs::vec::axiom_spec_len(&self.code);
        }
        self.ip = self.ip + 1;
        proof {
            let s = old(self).st();
            assert(self.st() =~= MState {
                ip: s.ip + 1,
                tape: s.tape.update(s.dp as int, wrap_add(s.tape[s.dp as int], 1)),
                ..s
            });
        }
    }

    /// Subtract one from the byte at the data pointer, wrapping 0 to 255.
    fn exec_decrement(&mut self)
        requires
            old(self).wf(),
            old(self).ip < old(self).code@.len(),
            old(self).code@[old(self).ip as int] is Decrement,
        ensures
            final(self).wf(),
            final(self).code@ == old(self).code@,
            final(self).input@ == old(self).input@,
            step(old(self).code@, old(self).input@, old(self).st()) == Ok::<MState, ExecError>(
                final(self).st(),
            ),
    {
        let v: u16 = self.data[self.dp] as u16;
        self.data[self.dp] = ((v + 255) % 256) as u8;
        proof {
            vstd::std_specs::vec::axiom_spec_len(&self.code);
        }
        self.ip = self.ip + 1;
        proof {
            let s = old(self).st();
            assert((v + 255) % 256 == (s.tape[s.dp as int] + 256 - 1) % 256);
            assert(self.st() =~= MState {
                ip: s.ip + 1,
                tape: s.tape.update(s.dp as int, wrap_sub(s.tape[s.dp as int], 1)),
                ..s
            });
        }
    }

    /// Append the byte at the data pointer to the output.
    fn exec_output(&mut self)
        requires
            old(self).wf(),
            old(self).ip < old(self).code@.len(),
            old(self).code@[old(self).ip as int] is Output,
        ensures
            final(self).wf(),
            final(self).code@ == old(self).code@,
            final(self).input@ == old(self).input@,
            step(old(self).code@, old(self).input@, old(self).st()) == Ok::<MState, ExecError>(
                final(self).st(),
            ),
    {
        let b = self.data[self.dp];
        self.output.push(b);
        proof {
            vstd::std_specs::vec::axiom_spec_len(&self.code);
        }
        self.ip = self.ip + 1;
        proof {
            let s = old(self).st();
            assert(self.st() =~= MState { ip: s.ip + 1, out: s.out.push(s.tape[s.dp as int]), ..s });
        }
    }

    /// Store the next input byte at the data pointer and advance the
    /// cursor; with the input exhausted, leave the cell unchanged.
    fn exec_input(&mut self)
        requires
            old(self).wf(),
            old(self).ip < old(self).code@.len(),
            old(self).code@[old(self).ip as int] is Input,
        ensures
            final(self).wf(),
            final(self).code@ == old(self).code@,
            final(self).input@ == old(self).input@,
            step(old(self).code@, old(self).input@, old(self).st()) == Ok::<MState, ExecError>(
                final(self).st(),
            ),
    {
        if self.cursor < self.input.len() {
            let b = self.input[self.cursor];
            self.data[self.dp] = b;
            self.cursor = self.cursor + 1;
        }
        proof {
            vstd::std_specs::vec::axiom_spec_len(&self.code);
        }
        self.ip = self.ip + 1;
        proof {
            let s = old(self).st();
            if s.pos < old(self).input@.len() {
                assert(self.st() =~= MState {
                    ip: s.ip + 1,
                    tape: s.tape.update(s.dp as int, old(self).input@[s.pos as int]),
                    pos: s.pos + 1,
                    ..s
                });
            } else {
                assert(self.st() =~= MState { ip: s.ip + 1, ..s });
            }
        }
    }

    /// Dispatch a `JumpIfZero`: fall through on a nonzero cell, else scan
    /// forward for the matching `JumpIfNonZero` and resume just past it;
    /// error if the scan runs off the end of the program.
    #[verifier::loop_isolation(false)]
    fn exec_jump_if_zero(&mut self) -> (r: Result<(), ExecError>)
        requires
            old(self).wf(),
            old(self).ip < old(self).code@.len(),
            old(self).code@[old(self).ip as int] is JumpIfZero,
        ensures
            final(self).code@ == old(self).code@,
            final(self).input@ == old(self).input@,
            r is Ok ==> final(self).wf() && step(old(self).code@, old(self).input@, old(self).st())
                == Ok::<MState, ExecError>(final(self).st()),
            r matches Err(e) ==> step(old(self).code@, old(self).input@, old(self).st())
                == Err::<MState, ExecError>(e),
    {
        if self.data[self.dp] != 0 {
            proof {
            vstd::std_specs::vec::axiom_spec_len(&self.code);
        }
        self.ip = self.ip + 1;
            proof {
                let s = old(self).st();
                assert(self.st() =~= MState { ip: s.ip + 1, ..s });
            }
            return Ok(());
        }
        let ghost c = self.code@;
        let ghost ip0 = self.ip as nat;
        let mut j: usize = self.ip;
        let mut depth: usize = 1;
        loop
            invariant
                *self == *old(self),
                self.ip <= j < c.len(),
                c == self.code@,
                1 <= depth,
                depth <= 1 + j - self.ip,
                match_fwd(c, (j + 1) as nat, depth as nat) == match_fwd(c, ip0 + 1, 1),
            decreases c.len() - j,
        {
            proof {
                vstd::std_specs::vec::axiom_spec_len(&self.code);
            }
            j = j + 1;
            if j == self.code.len() {
                return Err(ExecError::UnmatchedJumpIfZero);
            }
            match self.code[j] {
                Instruction::JumpIfNonZero => {
                    if depth == 1 {
                        proof {
                            assert(match_fwd(c, j as nat, depth as nat) == Some(j as nat));
                        }
                        proof {
                            vstd::std_specs::vec::axiom_spec_len(&self.code);
                        }
                        self.ip = j + 1;
                        proof {
                            let s = old(self).st();
                            assert(self.st() =~= MState { ip: (j + 1) as nat, ..s });
                        }
                        return Ok(());
                    } else {
                        depth = depth - 1;
                    }
                },
                Instruction::JumpIfZero => {
                    depth = depth + 1;
                },
                _ => {},
            }
        }
    }

    /// Dispatch a `JumpIfNonZero`: fall through on a zero cell, else scan
    /// backward for the matching `JumpIfZero` and resume just past it;
    /// error if the scan runs off the start of the program.
    #[verifier::loop_isolation(false)]
    fn exec_jump_if_non_zero(&mut self) -> (r: Result<(), ExecError>)
        requires
            old(self).wf(),
            old(self).ip < old(self).code@.len(),
            old(self).code@[old(self).ip as int] is JumpIfNonZero,
        ensures
            final(self).code@ == old(self).code@,
            final(self).input@ == old(self).input@,
            r is Ok ==> final(self).wf() && step(old(self).code@, old(self).input@, old(self).st())
                == Ok::<MState, ExecError>(final(self).st()),
            r matches Err(e) ==> step(old(self).code@, old(self).input@, old(self).st())
                == Err::<MState, ExecError>(e),
    {
        if self.data[self.dp] == 0 {
            proof {
            vstd::std_specs::vec::axiom_spec_len(&self.code);
        }
        self.ip = self.ip + 1;
            proof {
                let s = old(self).st();
                assert(self.st() =~= MState { ip: s.ip + 1, ..s });
            }
            return Ok(());
        }
        let ghost c = self.code@;
        let ghost ip0 = self.ip as nat;
        let mut j: usize = self.ip;
        let mut depth: usize = 1;
        loop
            invariant
                *self == *old(self),
                j <= self.ip,
                c == self.code@,
                self.ip < c.len(),
                1 <= depth,
                depth <= 1 + self.ip - j,
                match_bwd(c, j as nat, depth as nat) == match_bwd(c, ip0, 1),
            decreases j,
        {
            proof {
                vstd::std_specs::vec::axiom_spec_len(&self.code);
            }
            if j == 0 {
                return Err(ExecError::UnmatchedJumpIfNonZero);
            }
            j = j - 1;
            match self.code[j] {
                Instruction::JumpIfZero => {
                    if depth == 1 {
                        proof {
                            assert(match_bwd(c, (j + 1) as nat, depth as nat) == Some(j as nat));
                        }
                        proof {
                            vstd::std_specs::vec::axiom_spec_len(&self.code);
                        }
                        self.ip = j + 1;
                        proof {
                            let s = old(self).st();
                            assert(self.st() =~= MState { ip: (j + 1) as nat, ..s });
                        }
                        return Ok(());
                    } else {
                        depth = depth - 1;
                    }
                },
                Instruction::JumpIfNonZero => {
                    depth = depth + 1;
                },
                _ => {},
            }
        }
    }

    /// Move the data pointer forward by `n` cells, growing the tape with
    /// zero cells as far as it goes.
    #[verifier::loop_isolation(false)]
    fn exec_move_forward_by(&mut self, n: usize)
        requires
            old(self).wf(),
            old(self).ip < old(self).code@.len(),
            old(self).code@[old(self).ip as int] == Instruction::MoveForwardBy(n),
        ensures
            final(self).wf(),
            final(self).code@ == old(self).code@,
            final(self).input@ == old(self).input@,
            step(old(self).code@, old(self).input@, old(self).st()) == Ok::<MState, ExecError>(
                final(self).st(),
            ),
    {
        let ghost t0 = self.data@;
        let ghost d0 = self.dp as nat;
        let mut k: usize = 0;
        while k < n
            invariant
                k <= n,
                self.dp as nat == d0 + k as nat,
                self.dp < self.data@.len(),
                self.data@ == grow_tape(t0, d0 + k as nat),
                self.code@ == old(self).code@,
                self.input@ == old(self).input@,
                self.output@ == old(self).output@,
                self.cursor == old(self).cursor,
                self.ip == old(self).ip,
                d0 < t0.len(),
            decreases n - k,
        {
            let len = self.data.len();
            self.dp = self.dp + 1;
            if self.dp == len {
                self.data.push(0);
            }
            proof {
                assert(self.data@ =~= grow_tape(t0, d0 + k as nat + 1));
            }
            k = k + 1;
        }
        proof {
            vstd::std_specs::vec::axiom_spec_len(&self.code);
        }
        self.ip = self.ip + 1;
        proof {
            let s = old(self).st();
            assert(self.st() =~= MState {
                ip: s.ip + 1,
                dp: s.dp + n as nat,
                tape: grow_tape(s.tape, s.dp + n as nat),
                ..s
            });
        }
    }

    /// Move the data pointer back by `n` cells; underflow if fewer than `n`
    /// cells lie before it.
    fn exec_move_backward_by(&mut self, n: usize) -> (r: Result<(), ExecError>)
        requires
            old(self).wf(),
            old(self).ip < old(self).code@.len(),
            old(self).code@[old(self).ip as int] == Instruction::MoveBackwardBy(n),
        ensures
            final(self).code@ == old(self).code@,
            final(self).input@ == old(self).input@,
            r is Ok ==> final(self).wf() && step(old(self).code@, old(self).input@, old(self).st())
                == Ok::<MState, ExecError>(final(self).st()),
            r matches Err(e) ==> step(old(self).code@, old(self).input@, old(self).st())
                == Err::<MState, ExecError>(e),
    {
        if self.dp < n {
            return Err(ExecError::PointerUnderflow);
        }
        self.dp = self.dp - n;
        proof {
            vstd::std_specs::vec::axiom_spec_len(&self.code);
        }
        self.ip = self.ip + 1;
        proof {
            let s = old(self).st();
            assert(self.st() =~= MState { ip: s.ip + 1, dp: (s.dp - n) as nat, ..s });
        }
        Ok(())
    }

    /// Add `n` to the byte at the data pointer, wrapping.
    fn exec_increment_by(&mut self, n: u8)
        requires
            old(self).wf(),
            old(self).ip < old(self).code@.len(),
            old(self).code@[old(self).ip as int] == Instruction::IncrementBy(n),
        ensures
            final(self).wf(),
            final(self).code@ == old(self).code@,
            final(self).input@ == old(self).input@,
            step(old(self).code@, old(self).input@, old(self).st()) == Ok::<MState, ExecError>(
                final(self).st(),
            ),
    {
        let v: u16 = self.data[self.dp] as u16;
        self.data[self.dp] = ((v + n as u16) % 256) as u8;
        proof {
            vstd::std_specs::vec::axiom_spec_len(&self.code);
        }
        self.ip = self.ip + 1;
        proof {
            let s = old(self).st();
            assert(self.st() =~= MState {
                ip: s.ip + 1,
                tape: s.tape.update(s.dp as int, wrap_add(s.tape[s.dp as int], n)),
                ..s
            });
        }
    }

    /// Subtract `n` from the byte at the data pointer, wrapping.
    fn exec_decrement_by(&mut self, n: u8)
        requires
            old(self).wf(),
            old(self).ip < old(self).code@.len(),
            old(self).code@[old(self).ip as int] == Instruction::DecrementBy(n),
        ensures
            final(self).wf(),
            final(self).code@ == old(self).code@,
            final(self).input@ == old(self).input@,
            step(old(self).code@, old(self).input@, old(self).st()) == Ok::<MState, ExecError>(
                final(self).st(),
            ),
    {
        let v: u16 = self.data[self.dp] as u16;
        self.data[self.dp] = ((v + 256 - n as u16) % 256) as u8;
        proof {
            vstd::std_specs::vec::axiom_spec_len(&self.code);
        }
        self.ip = self.ip + 1;
        proof {
            let s = old(self).st();
            assert((v + 256 - n as u16) % 256 == (s.tape[s.dp as int] + 256 - n) % 256);
            assert(self.st() =~= MState {
                ip: s.ip + 1,
                tape: s.tape.update(s.dp as int, wrap_sub(s.tape[s.dp as int], n)),
                ..s
            });
        }
    }

    /// Run the fetch-dispatch-advance cycle for at most `max_steps`
    /// instructions. `Some(Ok(()))` on normal termination, `Some(Err(e))`
    /// on a fatal error, `None` if the budget ran out first.
    #[verifier::loop_isolation(false)]
    fn execute(&mut self, max_steps: u64) -> (r: Option<Result<(), ExecError>>)
        requires
            old(self).wf(),
        ensures
            final(self).code@ == old(self).code@,
            final(self).input@ == old(self).input@,
            match r {
                Some(Ok(())) => final(self).wf() && final(self).st().ip >= old(self).code@.len()
                    && reaches_within(
                    old(self).code@,
                    old(self).input@,
                    old(self).st(),
                    final(self).st(),
                    max_steps as nat,
                ),
                Some(Err(e)) => fails_within(
                    old(self).code@,
                    old(self).input@,
                    old(self).st(),
                    e,
                    max_steps as nat,
                ),
                None => (steps(
                    old(self).code@,
                    old(self).input@,
                    old(self).st(),
                    max_steps as nat,
                ) matches Ok(t) && t.ip < old(self).code@.len()),
            },
    {
        let ghost c = old(self).code@;
        let ghost i0 = old(self).input@;
        let ghost s0 = old(self).st();
        let mut fuel: u64 = max_steps;
        let ghost mut n: nat = 0;
        while self.ip < self.code.len()
            invariant
                self.wf(),
                self.code@ == c,
                self.input@ == i0,
                n + fuel == max_steps,
                steps(c, i0, s0, n) == Ok::<MState, ExecError>(self.st()),
            decreases fuel,
        {
            if fuel == 0 {
                proof {
                    assert(n == max_steps);
                }
                return None;
            }
            let ghost prev = self.st();
            let instr = self.code[self.ip];
            let outcome: Result<(), ExecError> = match instr {
                Instruction::MoveForward => {
                    self.exec_move_forward();
                    Ok(())
                },
                Instruction::MoveBackward => self.exec_move_backward(),
                Instruction::Increment => {
                    self.exec_increment();
                    Ok(())
                },
                Instruction::Decrement => {
                    self.exec_decrement();
                    Ok(())
                },
                Instruction::Output => {
                    self.exec_output();
                    Ok(())
                },
                Instruction::Input => {
                    self.exec_input();
                    Ok(())
                },
                Instruction::JumpIfZero => self.exec_jump_if_zero(),
                Instruction::JumpIfNonZero => self.exec_jump_if_non_zero(),
                Instruction::MoveForwardBy(k) => {
                    self.exec_move_forward_by(k);
                    Ok(())
                },
                Instruction::MoveBackwardBy(k) => self.exec_move_backward_by(k),
                Instruction::IncrementBy(b) => {
                    self.exec_increment_by(b);
                    Ok(())
                },
                Instruction::DecrementBy(b) => {
                    self.exec_decrement_by(b);
                    Ok(())
                },
            };
            proof {
                lemma_steps_snoc(c, i0, s0, n, prev);
                n = n + 1;
            }
            if let Err(e) = outcome {
                proof {
                    assert(steps(c, i0, s0, n) == Err::<MState, ExecError>(e));
                    assert(fails_within(c, i0, s0, e, max_steps as nat));
                }
                return Some(Err(e));
            }
            fuel = fuel - 1;
        }
        proof {
            assert(steps(c, i0, s0, n) == Ok::<MState, ExecError>(self.st()));
            assert(reaches_within(c, i0, s0, self.st(), max_steps as nat));
        }
        Some(Ok(()))
    }
}

/// Interpret `program` against `input`, executing at most `max_steps`
/// instructions. Returns the accumulated output on normal termination, the
/// fatal error if one is raised, and `None` if the program was still
/// running when the step budget ran out.
pub fn execute_program(program: &[Instruction], input: &[u8], max_steps: u64) -> (r: Option<
    Result<Vec<u8>, ExecError>,
>)
    ensures
        match r {
            Some(Ok(out)) => executes_to(program@, input@, Ok(out@)),
            Some(Err(e)) => executes_to(program@, input@, Err(e)),
            None => (steps(program@, input@, init_state(), max_steps as nat) matches Ok(t) && t.ip
                < program@.len()),
        },
{
    let mut machine = Machine::new(program, input);
    let r = machine.execute(max_steps);
    match r {
        Some(Ok(())) => {
            proof {
                lemma_reaches_halted(program@, input@, machine.st(), max_steps as nat);
                assert(executes_to(program@, input@, Ok(machine.output@)));
            }
            Some(Ok(machine.output))
        },
        Some(Err(e)) => {
            proof {
                lemma_fails_witnessed(program@, input@, e, max_steps as nat);
            }
            Some(Err(e))
        },
        None => None,
    }
}

} // verus!
