//! Whole programs: a run of instruction lines, each ended by `\n`.
use vstd::prelude::*;
use vstd::string::StringSliceAdditionalSpecFns;

use crate::instruction::{
    is_instruction_line, lemma_line_has_no_newline, lemma_line_unique, line_denotes, parse_line,
    same_instruction, Instruction,
};
use crate::lexical::{find_either, NEWLINE};

verus! {

/// The position of the first `\n` in `s`, or its length if it holds none.
pub open spec fn newline_index(s: Seq<u8>) -> nat
    decreases s.len(),
{
    if s.len() == 0 {
        0
    } else if s[0] == NEWLINE {
        0
    } else {
        1 + newline_index(s.drop_first())
    }
}

/// Whether `s` holds a `\n`, that is, whether its first line is terminated.
pub open spec fn has_terminator(s: Seq<u8>) -> bool {
    newline_index(s) < s.len()
}

/// The text before the first `\n`.
pub open spec fn first_line(s: Seq<u8>) -> Seq<u8> {
    s.subrange(0, newline_index(s) as int)
}

/// The text after the first `\n`.
pub open spec fn after_first_line(s: Seq<u8>) -> Seq<u8> {
    s.subrange(newline_index(s) + 1int, s.len() as int)
}

/// The lines of `s`, without their terminators; a last line without one
/// counts as a line too.
pub open spec fn lines(s: Seq<u8>) -> Seq<Seq<u8>>
    decreases s.len(),
{
    if s.len() == 0 {
        seq![]
    } else if newline_index(s) < s.len() {
        seq![first_line(s)] + lines(after_first_line(s))
    } else {
        seq![s]
    }
}

/// Whether `s` is empty or ends in `\n`.
pub open spec fn is_terminated(s: Seq<u8>) -> bool {
    s.len() == 0 || s.last() == NEWLINE
}

/// Whether `s` is a program: every line of it writes an instruction, and the
/// last line is terminated.
pub open spec fn accepts(s: Seq<u8>) -> bool {
    is_terminated(s) && forall|i: int|
        0 <= i < lines(s).len() ==> is_instruction_line(#[trigger] lines(s)[i])
}

/// Whether `prog` is the program that `s` writes: one instruction per line, in order.
pub open spec fn program_denotes(s: Seq<u8>, prog: Seq<Instruction>) -> bool {
    &&& is_terminated(s)
    &&& prog.len() == lines(s).len()
    &&& forall|i: int| 0 <= i < prog.len() ==> line_denotes(lines(s)[i], #[trigger] prog[i])
}

/// Whether `s` begins with a terminated line that writes an instruction.
pub open spec fn starts_with_instruction(s: Seq<u8>) -> bool {
    has_terminator(s) && is_instruction_line(first_line(s))
}

/// A position before which no `\n` stands, and at which one stands if it is
/// inside `s`, is the first `\n`.
proof fn lemma_newline_index(s: Seq<u8>, k: int)
    requires
        0 <= k <= s.len(),
        forall|j: int| 0 <= j < k ==> s[j] != NEWLINE,
        k < s.len() ==> s[k] == NEWLINE,
    ensures
        newline_index(s) == k,
    decreases s.len(),
{
    if s.len() > 0 && k > 0 {
        lemma_newline_index(s.drop_first(), k - 1);
    }
}

/// The instructions that the bytes `s` write, one per line; `None` where
/// they are not a program.
pub fn parse_lines(s: &[u8]) -> (r: Option<Vec<Instruction>>)
    ensures
        match r {
            Some(prog) => program_denotes(s@, prog@),
            None => !accepts(s@),
        },
{
    let n = s.len();
    let mut out: Vec<Instruction> = Vec::new();
    let mut pos: usize = 0;
    let ghost mut done: Seq<Seq<u8>> = seq![];
    assert(s@.subrange(0, n as int) =~= s@);
    while pos < n
        invariant
            pos <= n == s@.len(),
            lines(s@) == done + lines(s@.subrange(pos as int, n as int)),
            out@.len() == done.len(),
            forall|i: int| 0 <= i < done.len() ==> line_denotes(done[i], #[trigger] out@[i]),
            pos == 0 || s@[pos - 1] == NEWLINE,
        decreases n - pos,
    {
        let k = find_either(s, pos, n, NEWLINE, NEWLINE);
        let ghost rest = s@.subrange(pos as int, n as int);
        proof {
            lemma_newline_index(rest, k - pos);
        }
        if k == n {
            assert(s@.last() == rest[n - pos - 1]);
            return None;
        }
        let ghost line = s@.subrange(pos as int, k as int);
        assert(first_line(rest) =~= line);
        assert(rest.subrange(k - pos + 1, rest.len() as int) =~= s@.subrange(k + 1, n as int));
        match parse_line(s, pos, k) {
            None => {
                assert(lines(s@)[done.len() as int] == line);
                return None;
            },
            Some(ins) => {
                out.push(ins);
                proof {
                    assert(lines(s@) =~= done.push(line) + lines(s@.subrange(k + 1, n as int)));
                    done = done.push(line);
                }
                pos = k + 1;
            },
        }
    }
    assert(lines(s@.subrange(pos as int, n as int)) =~= seq![]);
    assert(lines(s@) =~= done);
    Some(out)
}

/// A program writes nothing but lines that are instructions.
proof fn lemma_denotes_accepts(s: Seq<u8>, prog: Seq<Instruction>)
    requires
        program_denotes(s, prog),
    ensures
        accepts(s),
{
    assert forall|i: int| 0 <= i < lines(s).len() implies is_instruction_line(
        #[trigger] lines(s)[i],
    ) by {
        assert(line_denotes(lines(s)[i], prog[i]));
    }
}

/// A correctly written line of any instruction, ended by `\n`, parses to
/// exactly that instruction, both on its own and as a program of one line.
pub proof fn lemma_instruction_line_parses(line: Seq<u8>, ins: Instruction)
    requires
        line_denotes(line, ins),
    ensures
        starts_with_instruction(line.push(NEWLINE)),
        first_line(line.push(NEWLINE)) == line,
        forall|r: Instruction|
            line_denotes(first_line(line.push(NEWLINE)), r) ==> same_instruction(r, ins),
        accepts(line.push(NEWLINE)),
        lines(line.push(NEWLINE)) == seq![line],
{
    let s = line.push(NEWLINE);
    lemma_line_has_no_newline(line, ins);
    lemma_newline_index(s, line.len() as int);
    assert(first_line(s) =~= line);
    assert(after_first_line(s) =~= Seq::<u8>::empty());
    assert(lines(after_first_line(s)) =~= Seq::<Seq<u8>>::empty());
    assert(lines(s) == seq![first_line(s)] + lines(after_first_line(s)));
    assert(lines(s) =~= seq![line]);
    assert forall|r: Instruction| line_denotes(first_line(s), r) implies same_instruction(
        r,
        ins,
    ) by {
        lemma_line_unique(line, r, ins);
    }
}

/// A parsed program, with the two capabilities that the machine running it
/// is handed: a supplier of input values and a debug switch. Parsing stores
/// them and never uses them.
pub struct Program<F> {
    pub instructions: Vec<Instruction>,
    pub input: F,
    pub debug: bool,
}

/// The program that `input` writes, or `None` where it is not one: some line
/// writes no instruction, or the last line lacks its `\n`.
pub fn try_parse<F>(input: &str, inp: F, debug: bool) -> (r: Option<Program<F>>)
    ensures
        r is Some <==> accepts(input.spec_bytes()),
        r matches Some(p) ==> program_denotes(input.spec_bytes(), p.instructions@) && p.input
            == inp && p.debug == debug,
{
    match parse_lines(input.as_bytes()) {
        Some(instructions) => {
            proof {
                lemma_denotes_accepts(input.spec_bytes(), instructions@);
            }
            Some(Program { instructions, input: inp, debug })
        },
        None => None,
    }
}

/// The program that `input` writes, which must be one.
pub fn parse<F>(input: &str, inp: F, debug: bool) -> (p: Program<F>)
    requires
        accepts(input.spec_bytes()),
    ensures
        program_denotes(input.spec_bytes(), p.instructions@),
        p.input == inp,
        p.debug == debug,
{
    let instructions = parse_lines(input.as_bytes()).unwrap();
    Program { instructions, input: inp, debug }
}

/// The instruction on the first line of `input`, which must end in `\n`;
/// what follows that line is not read. `None` where that line writes no
/// instruction or has no terminator.
pub fn try_parse_instruction(input: &str) -> (r: Option<Instruction>)
    ensures
        r is Some <==> starts_with_instruction(input.spec_bytes()),
        r matches Some(ins) ==> line_denotes(first_line(input.spec_bytes()), ins),
{
    let s = input.as_bytes();
    let n = s.len();
    let k = find_either(s, 0, n, NEWLINE, NEWLINE);
    proof {
        lemma_newline_index(s@, k as int);
    }
    if k == n {
        return None;
    }
    assert(first_line(s@) =~= s@.subrange(0, k as int));
    parse_line(s, 0, k)
}

/// The instruction on the first line of `input`, which must write one.
pub fn parse_instruction(input: &str) -> (ins: Instruction)
    requires
        starts_with_instruction(input.spec_bytes()),
    ensures
        line_denotes(first_line(input.spec_bytes()), ins),
{
    try_parse_instruction(input).unwrap()
}

} // verus!
