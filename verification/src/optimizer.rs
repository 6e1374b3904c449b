//! The peephole optimizer: partition a program into maximal runs of
//! consecutive identical instructions and fuse each accumulatable run of
//! length other than one into a single counted instruction. Order is kept,
//! jumps are never fused, and the pass is idempotent.

use vstd::prelude::*;
use crate::instruction::Instruction;
use crate::semantics::{grow_tape, wrap_add, wrap_sub};

verus! {

/// The counted instruction standing for `n` repetitions of an accumulatable
/// instruction; any other instruction is left as it is. Cell-change counts
/// wrap modulo 256.
pub open spec fn accumulated(x: Instruction, n: nat) -> Instruction {
    match x {
        Instruction::MoveForward => Instruction::MoveForwardBy(n as usize),
        Instruction::MoveBackward => Instruction::MoveBackwardBy(n as usize),
        Instruction::Increment => Instruction::IncrementBy((n % 256) as u8),
        Instruction::Decrement => Instruction::DecrementBy((n % 256) as u8),
        _ => x,
    }
}

/// What the optimizer emits for a maximal run of `n` copies of `x`: the
/// single counted instruction when `x` is accumulatable and `n` is not one,
/// else the run itself, unchanged.
pub open spec fn emit_run(x: Instruction, n: nat) -> Seq<Instruction> {
    if x.is_accumulatable_spec() && n != 1 {
        seq![accumulated(x, n)]
    } else {
        Seq::new(n, |i: int| x)
    }
}

/// The length of the maximal run of identical instructions at the front of
/// `s`; zero only for an empty sequence.
pub open spec fn head_run(s: Seq<Instruction>) -> nat
    decreases s.len(),
{
    if s.len() == 0 {
        0
    } else if s.len() == 1 || s[1] != s[0] {
        1
    } else {
        head_run(s.drop_first()) + 1
    }
}

/// The head run of a nonempty sequence is between 1 and the sequence's
/// length, covers equal instructions only, and is maximal.
pub proof fn lemma_head_run_bounds(s: Seq<Instruction>)
    requires
        s.len() > 0,
    ensures
        1 <= head_run(s) <= s.len(),
        forall|i: int| 0 <= i < head_run(s) ==> #[trigger] s[i] == s[0],
        head_run(s) < s.len() ==> s[head_run(s) as int] != s[0],
    decreases s.len(),
{
    if s.len() == 1 || s[1] != s[0] {
    } else {
        let t = s.drop_first();
        lemma_head_run_bounds(t);
        assert forall|i: int| #![trigger s[i]] 0 <= i < head_run(s) implies s[i] == s[0] by {
            if i >= 1 {
                assert(t[i - 1] == t[0]);
            }
        }
        if head_run(s) < s.len() {
            assert(s[head_run(s) as int] == t[head_run(t) as int]);
        }
    }
}

/// A count with the three head-run properties is the head run.
proof fn lemma_head_run_is(s: Seq<Instruction>, n: int)
    requires
        0 < n <= s.len(),
        forall|i: int| 0 <= i < n ==> #[trigger] s[i] == s[0],
        n < s.len() ==> s[n] != s[0],
    ensures
        head_run(s) == n,
    decreases n,
{
    if n == 1 {
    } else {
        let t = s.drop_first();
        assert(s[1] == s[0]);
        assert forall|i: int| #![trigger t[i]] 0 <= i < n - 1 implies t[i] == t[0] by {
            assert(t[i] == s[i + 1]);
            assert(s[i + 1] == s[0]);
        }
        if n - 1 < t.len() {
            assert(t[n - 1] == s[n]);
        }
        lemma_head_run_is(t, n - 1);
    }
}

/// The optimized form of a program: each maximal run of identical
/// instructions, in order, replaced by what `emit_run` says.
pub open spec fn opt_spec(s: Seq<Instruction>) -> Seq<Instruction>
    decreases s.len()
        via opt_spec_dec
{
    if s.len() == 0 {
        Seq::empty()
    } else {
        emit_run(s[0], head_run(s)) + opt_spec(s.skip(head_run(s) as int))
    }
}

#[via_fn]
proof fn opt_spec_dec(s: Seq<Instruction>) {
    if s.len() > 0 {
        lemma_head_run_bounds(s);
    }
}

/// Append to `program` the optimized form of a run of `count` copies of
/// `instr`.
#[verifier::loop_isolation(false)]
fn add_accumulated_instr(program: &mut Vec<Instruction>, instr: &Instruction, count: usize)
    ensures
        final(program)@ == old(program)@ + emit_run(*instr, count as nat),
{
    if count != 1 && instr.is_accumulatable() {
        match instr.to_accumulated(count) {
            Some(f) => {
                program.push(f);
                proof {
                    assert(emit_run(*instr, count as nat) =~= seq![f]);
                    assert(old(program)@ + seq![f] =~= old(program)@.push(f));
                }
            },
            None => {
                proof {
                    assert(false);
                }
            },
        }
    } else {
        let mut k: usize = 0;
        while k < count
            invariant
                k <= count,
                program@ == old(program)@ + Seq::new(k as nat, |i: int| *instr),
            decreases count - k,
        {
            program.push(*instr);
            proof {
                assert(old(program)@ + Seq::new((k + 1) as nat, |i: int| *instr) =~= (old(
                    program,
                )@ + Seq::new(k as nat, |i: int| *instr)).push(*instr));
            }
            k = k + 1;
        }
        proof {
            assert(emit_run(*instr, count as nat) =~= Seq::new(count as nat, |i: int| *instr));
        }
    }
}

/// Rewrite a program run by run: each maximal run of an accumulatable
/// instruction, other than a lone one, becomes one counted instruction,
/// and everything else is emitted unchanged, in order.
#[verifier::loop_isolation(false)]
pub fn optimize(program: &[Instruction]) -> (r: Vec<Instruction>)
    ensures
        r@ == opt_spec(program@),
{
    let mut opt_program: Vec<Instruction> = Vec::new();
    let mut i: usize = 0;
    proof {
        assert(program@.skip(0) =~= program@);
        assert(Seq::<Instruction>::empty() + opt_spec(program@) =~= opt_spec(program@));
    }
    while i < program.len()
        invariant
            i <= program@.len(),
            opt_spec(program@) == opt_program@ + opt_spec(program@.skip(i as int)),
        decreases program@.len() - i,
    {
        let instr = program[i];
        let mut j: usize = i + 1;
        while j < program.len() && program[j] == instr
            invariant
                i < j <= program@.len(),
                instr == program@[i as int],
                forall|k: int| i <= k < j ==> #[trigger] program@[k] == program@[i as int],
            decreases program@.len() - j,
        {
            j = j + 1;
        }
        let count = j - i;
        let ghost sub = program@.skip(i as int);
        proof {
            assert forall|k: int| #![trigger sub[k]] 0 <= k < count implies sub[k] == sub[0] by {
                assert(sub[k] == program@[i + k]);
                assert(sub[0] == program@[i as int]);
            }
            if count < sub.len() {
                assert(sub[count as int] == program@[j as int]);
            }
            lemma_head_run_is(sub, count as int);
        }
        let ghost before = opt_program@;
        add_accumulated_instr(&mut opt_program, &instr, count);
        proof {
            assert(sub[0] == instr);
            assert(sub.skip(count as int) =~= program@.skip(j as int));
            assert(opt_spec(sub) == emit_run(instr, count as nat) + opt_spec(
                program@.skip(j as int),
            ));
            assert(before + opt_spec(sub) =~= (before + emit_run(instr, count as nat)) + opt_spec(
                program@.skip(j as int),
            ));
        }
        i = j;
    }
    proof {
        assert(program@.skip(program@.len() as int) =~= Seq::<Instruction>::empty());
        assert(opt_program@ + Seq::<Instruction>::empty() =~= opt_program@);
    }
    opt_program
}


/// The cell value left by a run of `n` single increments.
pub open spec fn cell_after_increments(c: u8, n: nat) -> u8
    decreases n,
{
    if n == 0 {
        c
    } else {
        wrap_add(cell_after_increments(c, (n - 1) as nat), 1)
    }
}

/// The cell value left by a run of `n` single decrements.
pub open spec fn cell_after_decrements(c: u8, n: nat) -> u8
    decreases n,
{
    if n == 0 {
        c
    } else {
        wrap_sub(cell_after_decrements(c, (n - 1) as nat), 1)
    }
}

/// The tape left by a run of `n` single forward moves of the data pointer
/// starting at cell `d`.
pub open spec fn tape_after_forward_moves(t: Seq<u8>, d: nat, n: nat) -> Seq<u8>
    decreases n,
{
    if n == 0 {
        t
    } else {
        grow_tape(tape_after_forward_moves(t, d, (n - 1) as nat), d + n)
    }
}

/// The data pointer left by a run of `n` single backward moves, or `None`
/// where one of them underflows.
pub open spec fn dp_after_backward_moves(d: nat, n: nat) -> Option<nat>
    decreases n,
{
    if n == 0 {
        Some(d)
    } else {
        match dp_after_backward_moves(d, (n - 1) as nat) {
            Some(k) => if k < 1 {
                None
            } else {
                Some((k - 1) as nat)
            },
            None => None,
        }
    }
}

/// A run of `n` increments changes the cell exactly as the single counted
/// instruction the optimizer emits for it: adding `n % 256`, wrapping. The
/// per-cell half of the optimizer's transparency for fused increments.
pub proof fn lemma_fused_increments_act_alike(c: u8, n: nat)
    ensures
        cell_after_increments(c, n) == wrap_add(c, (n % 256) as u8),
        cell_after_increments(c, n) == ((c + n) % 256) as u8,
    decreases n,
{
    let a = c as int;
    vstd::arithmetic::div_mod::lemma_mod_division_less_than_divisor(n as int, 256);
    vstd::arithmetic::div_mod::lemma_add_mod_noop_right(a, n as int, 256);
    if n == 0 {
        vstd::arithmetic::div_mod::lemma_small_mod(c as nat, 256);
    } else {
        lemma_fused_increments_act_alike(c, (n - 1) as nat);
        let prev = cell_after_increments(c, (n - 1) as nat);
        assert(prev == ((a + n - 1) % 256) as u8);
        vstd::arithmetic::div_mod::lemma_add_mod_noop(a + n - 1, 1, 256);
        vstd::arithmetic::div_mod::lemma_small_mod(1, 256);
        assert(wrap_add(prev, 1) == ((a + n) % 256) as u8);
    }
}

/// A run of `n` decrements changes the cell exactly as the single counted
/// instruction the optimizer emits for it: subtracting `n % 256`, wrapping.
pub proof fn lemma_fused_decrements_act_alike(c: u8, n: nat)
    ensures
        cell_after_decrements(c, n) == wrap_sub(c, (n % 256) as u8),
        cell_after_decrements(c, n) == ((c - n) % 256) as u8,
    decreases n,
{
    let a = c as int;
    vstd::arithmetic::div_mod::lemma_mod_division_less_than_divisor(n as int, 256);
    vstd::arithmetic::div_mod::lemma_sub_mod_noop_right(a + 256, n as int, 256);
    vstd::arithmetic::div_mod::lemma_mod_add_multiples_vanish(a - n, 256);
    if n == 0 {
        vstd::arithmetic::div_mod::lemma_small_mod(c as nat, 256);
    } else {
        lemma_fused_decrements_act_alike(c, (n - 1) as nat);
        let prev = cell_after_decrements(c, (n - 1) as nat);
        assert(prev == ((a - (n - 1)) % 256) as u8);
        vstd::arithmetic::div_mod::lemma_add_mod_noop(a - (n - 1), 255, 256);
        vstd::arithmetic::div_mod::lemma_small_mod(255, 256);
        vstd::arithmetic::div_mod::lemma_mod_add_multiples_vanish(a - n, 256);
        assert(wrap_sub(prev, 1) == ((a - n) % 256) as u8);
    }
}

/// A run of `n` forward moves from cell `d` grows the tape exactly as the
/// single counted move the optimizer emits for it: zero-filled up to cell
/// `d + n`; and both leave the data pointer at `d + n`.
pub proof fn lemma_fused_forward_moves_act_alike(t: Seq<u8>, d: nat, n: nat)
    requires
        d < t.len(),
    ensures
        tape_after_forward_moves(t, d, n) == grow_tape(t, d + n),
    decreases n,
{
    if n == 0 {
        assert(grow_tape(t, d) =~= t);
    } else {
        lemma_fused_forward_moves_act_alike(t, d, (n - 1) as nat);
        assert(grow_tape(grow_tape(t, d + (n - 1) as nat), d + n) =~= grow_tape(t, d + n));
    }
}

/// A run of `n` backward moves underflows exactly when the single counted
/// move the optimizer emits for it does (fewer than `n` cells before the
/// pointer), and otherwise both leave the data pointer at `d - n`.
pub proof fn lemma_fused_backward_moves_act_alike(d: nat, n: nat)
    ensures
        dp_after_backward_moves(d, n) == if d < n {
            Option::<nat>::None
        } else {
            Some((d - n) as nat)
        },
    decreases n,
{
    if n > 0 {
        lemma_fused_backward_moves_act_alike(d, (n - 1) as nat);
    }
}

/// No two adjacent equal accumulatable instructions: the shape the
/// optimizer's output always has, and exactly the shape it leaves
/// unchanged.
pub open spec fn fused(s: Seq<Instruction>) -> bool {
    forall|i: int| #![trigger s[i]]
        0 <= i && i + 1 < s.len() ==> !(s[i] == s[i + 1] && s[i].is_accumulatable_spec())
}

/// A counted instruction is never itself accumulatable.
proof fn lemma_accumulated_not_accumulatable(x: Instruction, n: nat)
    requires
        x.is_accumulatable_spec(),
    ensures
        !accumulated(x, n).is_accumulatable_spec(),
{
}

/// The optimizer's output is nonempty on nonempty input, and its first
/// instruction, when accumulatable, is the input's first instruction.
proof fn lemma_opt_spec_first(s: Seq<Instruction>)
    requires
        s.len() > 0,
    ensures
        opt_spec(s).len() > 0,
        opt_spec(s)[0].is_accumulatable_spec() ==> opt_spec(s)[0] == s[0],
{
    lemma_head_run_bounds(s);
    let n = head_run(s);
    let e = emit_run(s[0], n);
    assert(opt_spec(s)[0] == e[0]);
    if s[0].is_accumulatable_spec() && n != 1 {
        lemma_accumulated_not_accumulatable(s[0], n);
    } else {
        assert(e[0] == s[0]);
    }
}

/// The optimizer's output has no two adjacent equal accumulatable
/// instructions left in it.
proof fn lemma_opt_spec_fused(s: Seq<Instruction>)
    ensures
        fused(opt_spec(s)),
    decreases s.len(),
{
    if s.len() == 0 {
    } else {
        lemma_head_run_bounds(s);
        let n = head_run(s);
        let rest = s.skip(n as int);
        lemma_opt_spec_fused(rest);
        let e = emit_run(s[0], n);
        let o = opt_spec(s);
        let p = opt_spec(rest);
        assert(o == e + p);
        assert forall|i: int|
            0 <= i && i + 1 < o.len() implies !(o[i] == o[i + 1]
            && o[i].is_accumulatable_spec()) by {
            if i + 1 < e.len() {
                assert(o[i] == e[i]);
                assert(o[i + 1] == e[i + 1]);
                if s[0].is_accumulatable_spec() && n != 1 {
                    assert(e.len() == 1);
                } else {
                    assert(e[i] == s[0]);
                    if s[0].is_accumulatable_spec() {
                        assert(e.len() == 1);
                    }
                }
            } else if i + 1 == e.len() {
                assert(o[i] == e[i]);
                assert(o[i + 1] == p[0]);
                if o[i].is_accumulatable_spec() && o[i] == o[i + 1] {
                    if s[0].is_accumulatable_spec() && n != 1 {
                        lemma_accumulated_not_accumulatable(s[0], n);
                        assert(false);
                    } else {
                        assert(o[i] == s[0]);
                        assert(n == 1);
                        assert(rest.len() > 0) by {
                            if rest.len() == 0 {
                                assert(p.len() == 0);
                            }
                        }
                        lemma_opt_spec_first(rest);
                        assert(p[0] == rest[0]);
                        assert(rest[0] == s[1]);
                        assert(s[1] != s[0]);
                        assert(false);
                    }
                }
            } else {
                assert(o[i] == p[i - e.len()]);
                assert(o[i + 1] == p[i + 1 - e.len()]);
            }
        }
    }
}

/// A program with no two adjacent equal accumulatable instructions is left
/// exactly as it is by the optimizer.
proof fn lemma_fused_fixed(s: Seq<Instruction>)
    requires
        fused(s),
    ensures
        opt_spec(s) == s,
    decreases s.len(),
{
    if s.len() == 0 {
        assert(opt_spec(s) =~= s);
    } else {
        lemma_head_run_bounds(s);
        let n = head_run(s);
        let rest = s.skip(n as int);
        assert forall|i: int|
            0 <= i && i + 1 < rest.len() implies !(rest[i] == rest[i + 1]
            && rest[i].is_accumulatable_spec()) by {
            assert(rest[i] == s[i + n]);
            assert(rest[i + 1] == s[i + n + 1]);
        }
        lemma_fused_fixed(rest);
        let e = emit_run(s[0], n);
        if s[0].is_accumulatable_spec() {
            if n >= 2 {
                assert(s[1] == s[0]);
                assert(false);
            }
            assert(e =~= s.take(n as int));
        } else {
            assert(e =~= s.take(n as int));
        }
        assert(opt_spec(s) == e + rest);
        assert(s.take(n as int) + s.skip(n as int) =~= s);
    }
}

/// The optimizer is idempotent: its output is already fully fused, so a
/// second pass changes nothing.
pub proof fn lemma_optimize_idempotent(s: Seq<Instruction>)
    ensures
        opt_spec(opt_spec(s)) == opt_spec(s),
{
    lemma_opt_spec_fused(s);
    lemma_fused_fixed(opt_spec(s));
}

} // verus!
