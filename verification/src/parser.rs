//! The parser: a total function from raw bytes to a program. Each of the
//! eight recognized characters becomes its base instruction; every other
//! byte is a comment and is discarded.

use vstd::prelude::*;
use crate::instruction::Instruction;

verus! {

/// The program denoted by a byte sequence: the base instructions of the
/// recognized bytes, in order, with every other byte discarded.
pub open spec fn parse_spec(s: Seq<u8>) -> Seq<Instruction>
    decreases s.len(),
{
    if s.len() == 0 {
        Seq::empty()
    } else {
        match Instruction::from_byte_spec(s[0]) {
            Some(x) => seq![x] + parse_spec(s.drop_first()),
            None => parse_spec(s.drop_first()),
        }
    }
}

/// The sub-sequence of the recognized instruction bytes of `s`, in order.
pub open spec fn instruction_bytes(s: Seq<u8>) -> Seq<u8>
    decreases s.len(),
{
    if s.len() == 0 {
        Seq::empty()
    } else if Instruction::from_byte_spec(s[0]) is Some {
        seq![s[0]] + instruction_bytes(s.drop_first())
    } else {
        instruction_bytes(s.drop_first())
    }
}

/// Appending one byte to the input appends its instruction, if it has one,
/// to the parse.
proof fn lemma_parse_spec_push(s: Seq<u8>, b: u8)
    ensures
        parse_spec(s.push(b)) == match Instruction::from_byte_spec(b) {
            Some(x) => parse_spec(s).push(x),
            None => parse_spec(s),
        },
    decreases s.len(),
{
    let t = s.push(b);
    if s.len() == 0 {
        assert(t =~= seq![b]);
        assert(t.drop_first() =~= Seq::<u8>::empty());
        match Instruction::from_byte_spec(b) {
            Some(x) => {
                assert(parse_spec(t.drop_first()) =~= Seq::<Instruction>::empty());
                assert(parse_spec(t) =~= seq![x]);
                assert(parse_spec(s) =~= Seq::<Instruction>::empty());
                assert(parse_spec(s).push(x) =~= seq![x]);
            },
            None => {
                assert(parse_spec(t.drop_first()) =~= Seq::<Instruction>::empty());
                assert(parse_spec(t) =~= Seq::<Instruction>::empty());
                assert(parse_spec(s) =~= Seq::<Instruction>::empty());
            },
        }
    } else {
        assert(t[0] == s[0]);
        assert(t.drop_first() =~= s.drop_first().push(b));
        lemma_parse_spec_push(s.drop_first(), b);
        match Instruction::from_byte_spec(s[0]) {
            Some(y) => {
                match Instruction::from_byte_spec(b) {
                    Some(x) => {
                        assert(parse_spec(t) =~= seq![y] + parse_spec(s.drop_first()).push(x));
                        assert(seq![y] + parse_spec(s.drop_first()).push(x) =~= (seq![y]
                            + parse_spec(s.drop_first())).push(x));
                    },
                    None => {
                        assert(parse_spec(t) == seq![y] + parse_spec(s.drop_first()));
                        assert(parse_spec(s) == seq![y] + parse_spec(s.drop_first()));
                    },
                }
            },
            None => {
                assert(parse_spec(t) == parse_spec(s.drop_first().push(b)));
                assert(parse_spec(s) == parse_spec(s.drop_first()));
            },
        }
    }
}

/// Parsing ignores non-instruction bytes: a byte sequence parses to exactly
/// what its instruction bytes alone parse to, so interleaving comments
/// anywhere in the source leaves the program unchanged.
pub proof fn lemma_parse_ignores_comments(s: Seq<u8>)
    ensures
        parse_spec(instruction_bytes(s)) == parse_spec(s),
    decreases s.len(),
{
    if s.len() == 0 {
    } else {
        lemma_parse_ignores_comments(s.drop_first());
        match Instruction::from_byte_spec(s[0]) {
            Some(x) => {
                let rest = instruction_bytes(s.drop_first());
                let t = seq![s[0]] + rest;
                assert(t[0] == s[0]);
                assert(t.drop_first() =~= rest);
            },
            None => {},
        }
    }
}

/// Turn program bytes into the program they denote. Total: unrecognized
/// bytes are comments and are skipped, and an empty input yields an empty
/// program.
#[verifier::loop_isolation(false)]
pub fn parse(bytes: &[u8]) -> (r: Vec<Instruction>)
    ensures
        r@ == parse_spec(bytes@),
{
    let mut program: Vec<Instruction> = Vec::new();
    let mut i: usize = 0;
    while i < bytes.len()
        invariant
            i <= bytes@.len(),
            program@ == parse_spec(bytes@.take(i as int)),
        decreases bytes@.len() - i,
    {
        proof {
            lemma_parse_spec_push(bytes@.take(i as int), bytes@[i as int]);
            assert(bytes@.take(i as int).push(bytes@[i as int]) =~= bytes@.take(i + 1));
        }
        if let Some(instr) = Instruction::from_byte(bytes[i]) {
            program.push(instr);
        }
        i = i + 1;
    }
    proof {
        assert(bytes@.take(bytes@.len() as int) =~= bytes@);
    }
    program
}

} // verus!
