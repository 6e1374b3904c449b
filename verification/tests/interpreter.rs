use brainrust::instruction::Instruction;
use brainrust::machine::execute_program;
use brainrust::optimizer::optimize;
use brainrust::parser::parse;
use brainrust::semantics::ExecError;

/// A step budget that every terminating program here stays far under.
const STEPS: u64 = 1_000_000;

fn run(source: &[u8], input: &[u8]) -> Option<Result<Vec<u8>, ExecError>> {
    execute_program(&parse(source), input, STEPS)
}

#[test]
fn parse_ignores_comment_bytes() {
    assert_eq!(parse(b"a+b.c"), parse(b"+."));
    assert_eq!(parse(b"hello world"), parse(b""));
    assert_eq!(parse(b" + [ - ] . "), parse(b"+[-]."));
}

#[test]
fn parse_empty_is_empty() {
    assert!(parse(b"").is_empty());
}

#[test]
fn parse_maps_each_character() {
    assert_eq!(
        parse(b"><+-.,[]"),
        vec![
            Instruction::MoveForward,
            Instruction::MoveBackward,
            Instruction::Increment,
            Instruction::Decrement,
            Instruction::Output,
            Instruction::Input,
            Instruction::JumpIfZero,
            Instruction::JumpIfNonZero,
        ]
    );
}

#[test]
fn from_byte_recognizes_only_the_eight() {
    assert_eq!(Instruction::from_byte(b'>'), Some(Instruction::MoveForward));
    assert_eq!(Instruction::from_byte(b'<'), Some(Instruction::MoveBackward));
    assert_eq!(Instruction::from_byte(b'+'), Some(Instruction::Increment));
    assert_eq!(Instruction::from_byte(b'-'), Some(Instruction::Decrement));
    assert_eq!(Instruction::from_byte(b'.'), Some(Instruction::Output));
    assert_eq!(Instruction::from_byte(b','), Some(Instruction::Input));
    assert_eq!(Instruction::from_byte(b'['), Some(Instruction::JumpIfZero));
    assert_eq!(Instruction::from_byte(b']'), Some(Instruction::JumpIfNonZero));
    assert_eq!(Instruction::from_byte(b'x'), None);
    assert_eq!(Instruction::from_byte(b' '), None);
    assert_eq!(Instruction::from_byte(0), None);
}

#[test]
fn accumulatable_classification() {
    assert!(Instruction::MoveForward.is_accumulatable());
    assert!(Instruction::MoveBackward.is_accumulatable());
    assert!(Instruction::Increment.is_accumulatable());
    assert!(Instruction::Decrement.is_accumulatable());
    assert!(!Instruction::Output.is_accumulatable());
    assert!(!Instruction::Input.is_accumulatable());
    assert!(!Instruction::JumpIfZero.is_accumulatable());
    assert!(!Instruction::JumpIfNonZero.is_accumulatable());
    assert!(!Instruction::MoveForwardBy(3).is_accumulatable());
    assert!(!Instruction::IncrementBy(3).is_accumulatable());
}

#[test]
fn to_accumulated_carries_counts() {
    assert_eq!(
        Instruction::MoveForward.to_accumulated(5),
        Some(Instruction::MoveForwardBy(5))
    );
    assert_eq!(
        Instruction::MoveBackward.to_accumulated(2),
        Some(Instruction::MoveBackwardBy(2))
    );
    assert_eq!(
        Instruction::Increment.to_accumulated(300),
        Some(Instruction::IncrementBy(44))
    );
    assert_eq!(
        Instruction::Decrement.to_accumulated(256),
        Some(Instruction::DecrementBy(0))
    );
    assert_eq!(Instruction::Output.to_accumulated(2), None);
    assert_eq!(Instruction::JumpIfZero.to_accumulated(2), None);
}

#[test]
fn optimize_fuses_maximal_runs() {
    assert_eq!(
        optimize(&parse(b"+++>>><<<---")),
        vec![
            Instruction::IncrementBy(3),
            Instruction::MoveForwardBy(3),
            Instruction::MoveBackwardBy(3),
            Instruction::DecrementBy(3),
        ]
    );
}

#[test]
fn optimize_keeps_single_instructions() {
    assert_eq!(
        optimize(&parse(b"+>-")),
        vec![
            Instruction::Increment,
            Instruction::MoveForward,
            Instruction::Decrement,
        ]
    );
}

#[test]
fn optimize_never_fuses_jumps() {
    assert_eq!(
        optimize(&parse(b"[[]]..")),
        vec![
            Instruction::JumpIfZero,
            Instruction::JumpIfZero,
            Instruction::JumpIfNonZero,
            Instruction::JumpIfNonZero,
            Instruction::Output,
            Instruction::Output,
        ]
    );
}

#[test]
fn optimize_empty_is_empty() {
    assert!(optimize(&parse(b"")).is_empty());
}

#[test]
fn optimize_wraps_cell_change_counts() {
    let long_run = vec![Instruction::Increment; 256];
    assert_eq!(optimize(&long_run), vec![Instruction::IncrementBy(0)]);
    let long_run = vec![Instruction::Decrement; 257];
    assert_eq!(optimize(&long_run), vec![Instruction::DecrementBy(1)]);
}

#[test]
fn optimize_is_idempotent() {
    let sources: [&[u8]; 6] = [
        b"",
        b"+++.",
        b"++[>++<-]>.",
        b"[[]]",
        b"+>-<<<>>>,,..----",
        b"+[-].",
    ];
    for source in sources {
        let once = optimize(&parse(source));
        let twice = optimize(&once);
        assert_eq!(twice, once);
    }
}

#[test]
fn optimizer_is_transparent() {
    let cases: [(&[u8], &[u8]); 6] = [
        (b"+++.", b""),
        (b",.", b"A"),
        (b"+[-].", b""),
        (b"++[>++<-]>.", b""),
        (b"++[>+++[>++<-]<-]>>.", b""),
        (b",[.,]", b"ab\x00"),
    ];
    for (source, input) in cases {
        let program = parse(source);
        let direct = execute_program(&program, input, STEPS);
        let optimized = execute_program(&optimize(&program), input, STEPS);
        assert_eq!(direct, optimized);
    }
}

#[test]
fn optimizer_is_transparent_on_errors() {
    let cases: [&[u8]; 3] = [b"<", b"[", b"+]"];
    for source in cases {
        let program = parse(source);
        let direct = execute_program(&program, &[], STEPS);
        let optimized = execute_program(&optimize(&program), &[], STEPS);
        assert_eq!(direct, optimized);
    }
}

#[test]
fn increment_wraps_255_to_0() {
    let mut source = vec![b'+'; 256];
    source.push(b'.');
    assert_eq!(run(&source, &[]), Some(Ok(vec![0])));
}

#[test]
fn decrement_wraps_0_to_255() {
    assert_eq!(run(b"-.", &[]), Some(Ok(vec![255])));
}

#[test]
fn counted_cell_changes_wrap() {
    let program = vec![
        Instruction::IncrementBy(200),
        Instruction::IncrementBy(100),
        Instruction::Output,
        Instruction::DecrementBy(50),
        Instruction::Output,
    ];
    assert_eq!(
        execute_program(&program, &[], STEPS),
        Some(Ok(vec![44, 250]))
    );
}

#[test]
fn tape_grows_with_zero_cells() {
    assert_eq!(run(b">.", &[]), Some(Ok(vec![0])));
    assert_eq!(run(b">>>>.", &[]), Some(Ok(vec![0])));
    let program = vec![Instruction::MoveForwardBy(100), Instruction::Output];
    assert_eq!(execute_program(&program, &[], STEPS), Some(Ok(vec![0])));
}

#[test]
fn move_backward_at_origin_underflows() {
    assert_eq!(run(b"<", &[]), Some(Err(ExecError::PointerUnderflow)));
    assert_eq!(run(b">><<<", &[]), Some(Err(ExecError::PointerUnderflow)));
    let program = vec![Instruction::MoveForwardBy(2), Instruction::MoveBackwardBy(3)];
    assert_eq!(
        execute_program(&program, &[], STEPS),
        Some(Err(ExecError::PointerUnderflow))
    );
}

#[test]
fn unmatched_jump_if_zero_is_reported() {
    assert_eq!(run(b"[", &[]), Some(Err(ExecError::UnmatchedJumpIfZero)));
    assert_eq!(run(b"[[]", &[]), Some(Err(ExecError::UnmatchedJumpIfZero)));
}

#[test]
fn unmatched_jump_if_non_zero_is_reported() {
    assert_eq!(run(b"+]", &[]), Some(Err(ExecError::UnmatchedJumpIfNonZero)));
    assert_eq!(
        run(b"++]", &[]),
        Some(Err(ExecError::UnmatchedJumpIfNonZero))
    );
}

#[test]
fn lone_close_bracket_on_zero_cell_falls_through() {
    // A jump that does not fire never scans, so its missing partner goes
    // unnoticed: the cell is zero, the bracket falls through, the program
    // ends normally.
    assert_eq!(run(b"]", &[]), Some(Ok(vec![])));
}

#[test]
fn exhausted_input_is_a_no_op() {
    assert_eq!(run(b",.", &[]), Some(Ok(vec![0])));
    assert_eq!(run(b"+++,.", &[]), Some(Ok(vec![3])));
}

#[test]
fn outputs_three_after_three_increments() {
    assert_eq!(run(b"+++.", &[]), Some(Ok(vec![3])));
}

#[test]
fn echoes_one_input_byte() {
    assert_eq!(run(b",.", &[65]), Some(Ok(vec![65])));
}

#[test]
fn loop_clears_cell_to_zero() {
    assert_eq!(run(b"+[-].", &[]), Some(Ok(vec![0])));
}

#[test]
fn loop_adds_into_next_cell() {
    assert_eq!(run(b"++[>++<-]>.", &[]), Some(Ok(vec![4])));
}

#[test]
fn nested_loops_multiply() {
    assert_eq!(run(b"++[>+++[>++<-]<-]>>.", &[]), Some(Ok(vec![12])));
}

#[test]
fn copies_input_to_output_until_a_zero_byte() {
    // With exhausted input a no-op, the copy loop needs a zero byte to end.
    assert_eq!(run(b",[.,]", &[97, 98, 0]), Some(Ok(vec![97, 98])));
}

#[test]
fn step_budget_runs_out_on_a_spinning_loop() {
    assert_eq!(execute_program(&parse(b"+[]"), &[], 10_000), None);
    assert_eq!(execute_program(&parse(b"+[]"), &[], 0), None);
}

#[test]
fn tight_budget_still_finishes_short_programs() {
    assert_eq!(execute_program(&parse(b"+++."), &[], 4), Some(Ok(vec![3])));
    assert_eq!(execute_program(&parse(b"+++."), &[], 3), None);
}
