//! Instructions and the grammar of a single instruction line.
use vstd::prelude::*;
use vstd::string::StringSliceAdditionalSpecFns;

use crate::lexical::{
    all_digits, check_float, digits_value, is_float_literal, is_literal_byte, is_uint_literal,
    lemma_float_bytes, parse_uint, NEWLINE, SPACE,
};

verus! {

/// The text of a floating literal, as it stands after `psh `. It is always
/// a well-formed literal.
#[derive(Debug, PartialEq, Eq)]
pub struct FloatLiteral {
    text: Vec<u8>,
}

impl View for FloatLiteral {
    type V = Seq<u8>;

    closed spec fn view(&self) -> Seq<u8> {
        self.text@
    }
}

impl FloatLiteral {
    #[verifier::type_invariant]
    spec fn well_formed(&self) -> bool {
        is_float_literal(self.text@)
    }

    /// The literal that `text` writes, where it writes one.
    pub fn new(text: &str) -> (r: Option<FloatLiteral>)
        ensures
            r is Some <==> is_float_literal(text.spec_bytes()),
            r matches Some(x) ==> x@ == text.spec_bytes(),
    {
        let s = text.as_bytes();
        assert(s@.subrange(0, s@.len() as int) =~= s@);
        if check_float(s, 0, s.len()) {
            Some(FloatLiteral { text: vstd::slice::slice_to_vec(s) })
        } else {
            None
        }
    }

    /// The bytes of the literal.
    pub fn as_bytes(&self) -> (r: &[u8])
        ensures
            r@ == self@,
            is_float_literal(r@),
    {
        proof {
            use_type_invariant(self);
        }
        self.text.as_slice()
    }
}

/// One instruction of the stack machine. Jump targets and frame offsets are
/// unsigned; the value that `Psh` pushes is kept as the literal that wrote it.
#[derive(Debug, PartialEq, Eq)]
pub enum Instruction {
    Psh(FloatLiteral),
    Pfa,
    Ptap,
    Pta,
    Gap,
    Sap(usize),
    Pek,
    Inp,
    Dup,
    Pop,
    Swp,
    Lsw(usize),
    Add,
    Sub,
    Mul,
    Div,
    Mod,
    Abs,
    Max,
    Min,
    Jmp(usize),
    Jiz(usize),
    Jnz(usize),
    Ipta,
    Jmpa,
    Jiza,
    Jnza,
    Ret,
}

/// The mnemonic that names an instruction.
pub open spec fn mnemonic(ins: Instruction) -> Seq<u8> {
    match ins {
        Instruction::Psh(_) => seq!['p' as u8, 's' as u8, 'h' as u8],
        Instruction::Pfa => seq!['p' as u8, 'f' as u8, 'a' as u8],
        Instruction::Ptap => seq!['p' as u8, 't' as u8, 'a' as u8, 'p' as u8],
        Instruction::Pta => seq!['p' as u8, 't' as u8, 'a' as u8],
        Instruction::Gap => seq!['g' as u8, 'a' as u8, 'p' as u8],
        Instruction::Sap(_) => seq!['s' as u8, 'a' as u8, 'p' as u8],
        Instruction::Pek => seq!['p' as u8, 'e' as u8, 'k' as u8],
        Instruction::Inp => seq!['i' as u8, 'n' as u8, 'p' as u8],
        Instruction::Dup => seq!['d' as u8, 'u' as u8, 'p' as u8],
        Instruction::Pop => seq!['p' as u8, 'o' as u8, 'p' as u8],
        Instruction::Swp => seq!['s' as u8, 'w' as u8, 'p' as u8],
        Instruction::Lsw(_) => seq!['l' as u8, 's' as u8, 'w' as u8],
        Instruction::Add => seq!['a' as u8, 'd' as u8, 'd' as u8],
        Instruction::Sub => seq!['s' as u8, 'u' as u8, 'b' as u8],
        Instruction::Mul => seq!['m' as u8, 'u' as u8, 'l' as u8],
        Instruction::Div => seq!['d' as u8, 'i' as u8, 'v' as u8],
        Instruction::Mod => seq!['m' as u8, 'o' as u8, 'd' as u8],
        Instruction::Abs => seq!['a' as u8, 'b' as u8, 's' as u8],
        Instruction::Max => seq!['m' as u8, 'a' as u8, 'x' as u8],
        Instruction::Min => seq!['m' as u8, 'i' as u8, 'n' as u8],
        Instruction::Jmp(_) => seq!['j' as u8, 'm' as u8, 'p' as u8],
        Instruction::Jiz(_) => seq!['j' as u8, 'i' as u8, 'z' as u8],
        Instruction::Jnz(_) => seq!['j' as u8, 'n' as u8, 'z' as u8],
        Instruction::Ipta => seq!['i' as u8, 'p' as u8, 't' as u8, 'a' as u8],
        Instruction::Jmpa => seq!['j' as u8, 'm' as u8, 'p' as u8, 'a' as u8],
        Instruction::Jiza => seq!['j' as u8, 'i' as u8, 'z' as u8, 'a' as u8],
        Instruction::Jnza => seq!['j' as u8, 'n' as u8, 'z' as u8, 'a' as u8],
        Instruction::Ret => seq!['r' as u8, 'e' as u8, 't' as u8],
    }
}

/// Whether `line` is `m`, one space, then something more: the shape of a
/// line whose instruction takes an operand.
pub open spec fn has_operand_prefix(line: Seq<u8>, m: Seq<u8>) -> bool {
    line.len() >= 4 && line.subrange(0, 4) == m.push(SPACE)
}

/// What follows the mnemonic and its space on a line with an operand.
pub open spec fn operand_text(line: Seq<u8>) -> Seq<u8> {
    line.subrange(4, line.len() as int)
}

/// Whether the unsigned operand of `line`, after mnemonic `m`, writes `n`.
pub open spec fn denotes_uint(line: Seq<u8>, m: Seq<u8>, n: usize) -> bool {
    has_operand_prefix(line, m) && all_digits(operand_text(line)) && digits_value(
        operand_text(line),
    ) == n
}

/// Whether `line` (without its terminator) writes exactly the instruction `ins`.
pub open spec fn line_denotes(line: Seq<u8>, ins: Instruction) -> bool {
    match ins {
        Instruction::Psh(x) => has_operand_prefix(line, mnemonic(ins)) && operand_text(line)
            == x@ && is_float_literal(x@),
        Instruction::Sap(n) => denotes_uint(line, mnemonic(ins), n),
        Instruction::Lsw(n) => denotes_uint(line, mnemonic(ins), n),
        Instruction::Jmp(n) => denotes_uint(line, mnemonic(ins), n),
        Instruction::Jiz(n) => denotes_uint(line, mnemonic(ins), n),
        Instruction::Jnz(n) => denotes_uint(line, mnemonic(ins), n),
        _ => line == mnemonic(ins),
    }
}

/// Whether `line` writes some instruction.
pub open spec fn is_instruction_line(line: Seq<u8>) -> bool {
    exists|ins: Instruction| line_denotes(line, ins)
}

/// Whether `ins` is written with an unsigned operand.
pub open spec fn takes_uint(ins: Instruction) -> bool {
    ins is Sap || ins is Lsw || ins is Jmp || ins is Jiz || ins is Jnz
}

/// What a line that writes `ins` looks like, byte by byte.
pub open spec fn fits_shape(line: Seq<u8>, ins: Instruction) -> bool {
    let m = mnemonic(ins);
    &&& line.len() >= 3
    &&& line[0] == m[0] && line[1] == m[1] && line[2] == m[2]
    &&& (ins is Psh || takes_uint(ins)) ==> line.len() >= 4 && line[3] == SPACE
    &&& ins is Psh ==> is_float_literal(operand_text(line))
    &&& takes_uint(ins) ==> is_uint_literal(operand_text(line))
    &&& !(ins is Psh || takes_uint(ins)) ==> line.len() == m.len() && (m.len() == 4 ==> line[3]
        == m[3])
}

/// Every instruction that a line writes has the shape of its mnemonic.
proof fn lemma_line_shapes(line: Seq<u8>)
    ensures
        forall|ins: Instruction| #[trigger] line_denotes(line, ins) ==> fits_shape(line, ins),
{
    assert forall|ins: Instruction| #[trigger] line_denotes(line, ins) implies fits_shape(
        line,
        ins,
    ) by {
        let m = mnemonic(ins);
        if ins is Psh || takes_uint(ins) {
            let p = line.subrange(0, 4);
            assert(p[0] == line[0] && p[1] == line[1] && p[2] == line[2] && p[3] == line[3]);
            assert(m.push(SPACE)[3] == SPACE);
        }
    }
}

/// Whether `s[lo..hi]` is the three bytes `a`, `b`, `c`.
fn is_word3(s: &[u8], lo: usize, hi: usize, a: u8, b: u8, c: u8) -> (r: bool)
    requires
        lo <= hi <= s@.len(),
    ensures
        r == (s@.subrange(lo as int, hi as int) == seq![a, b, c]),
        r == (hi - lo == 3 && s@[lo as int] == a && s@[lo + 1] == b && s@[lo + 2] == c),
{
    let ghost t = s@.subrange(lo as int, hi as int);
    let r = hi - lo == 3 && s[lo] == a && s[lo + 1] == b && s[lo + 2] == c;
    proof {
        if r {
            assert(t =~= seq![a, b, c]);
        } else if t == seq![a, b, c] {
            assert(seq![a, b, c].len() == 3);
            assert(t[0] == a && t[1] == b && t[2] == c);
            assert(t[0] == s@[lo as int] && t[1] == s@[lo + 1] && t[2] == s@[lo + 2]);
        }
    }
    r
}

/// Whether `s[lo..hi]` is the four bytes `a`, `b`, `c`, `d`.
fn is_word4(s: &[u8], lo: usize, hi: usize, a: u8, b: u8, c: u8, d: u8) -> (r: bool)
    requires
        lo <= hi <= s@.len(),
    ensures
        r == (s@.subrange(lo as int, hi as int) == seq![a, b, c, d]),
        r == (hi - lo == 4 && s@[lo as int] == a && s@[lo + 1] == b && s@[lo + 2] == c && s@[lo
            + 3] == d),
{
    let ghost t = s@.subrange(lo as int, hi as int);
    let r = hi - lo == 4 && s[lo] == a && s[lo + 1] == b && s[lo + 2] == c && s[lo + 3] == d;
    proof {
        if r {
            assert(t =~= seq![a, b, c, d]);
        } else if t == seq![a, b, c, d] {
            assert(seq![a, b, c, d].len() == 4);
            assert(t[0] == a && t[1] == b && t[2] == c && t[3] == d);
            assert(t[0] == s@[lo as int] && t[1] == s@[lo + 1] && t[2] == s@[lo + 2] && t[3]
                == s@[lo + 3]);
        }
    }
    r
}

/// Whether `s[lo..hi]` begins with the three bytes `a`, `b`, `c` and a space.
fn starts_operand(s: &[u8], lo: usize, hi: usize, a: u8, b: u8, c: u8) -> (r: bool)
    requires
        lo <= hi <= s@.len(),
    ensures
        r == has_operand_prefix(s@.subrange(lo as int, hi as int), seq![a, b, c]),
        r == (hi - lo >= 4 && s@[lo as int] == a && s@[lo + 1] == b && s@[lo + 2] == c && s@[lo
            + 3] == SPACE),
{
    let ghost t = s@.subrange(lo as int, hi as int);
    let r = hi - lo >= 4 && s[lo] == a && s[lo + 1] == b && s[lo + 2] == c && s[lo + 3] == SPACE;
    proof {
        if r {
            assert(t.subrange(0, 4) =~= seq![a, b, c].push(SPACE));
        } else if t.len() >= 4 && t.subrange(0, 4) == seq![a, b, c].push(SPACE) {
            assert(t.subrange(0, 4)[0] == a && t.subrange(0, 4)[1] == b);
            assert(t.subrange(0, 4)[2] == c && t.subrange(0, 4)[3] == SPACE);
        }
    }
    r
}

/// The instruction that the line `s[lo..hi]` writes, if it writes one.
/// Mnemonics are tried in a fixed order; no two of them accept the same line.
pub fn parse_line(s: &[u8], lo: usize, hi: usize) -> (r: Option<Instruction>)
    requires
        lo <= hi <= s@.len(),
    ensures
        match r {
            Some(ins) => line_denotes(s@.subrange(lo as int, hi as int), ins),
            None => !is_instruction_line(s@.subrange(lo as int, hi as int)),
        },
{
    let ghost line = s@.subrange(lo as int, hi as int);
    let ghost tail = operand_text(line);
    assert(forall|i: int| 0 <= i < line.len() ==> line[i] == s@[lo + i]);
    if starts_operand(s, lo, hi, 'p' as u8, 's' as u8, 'h' as u8) {
        if check_float(s, lo + 4, hi) {
            let text = vstd::slice::slice_to_vec(vstd::slice::slice_subrange(s, lo + 4, hi));
            assert(tail =~= s@.subrange(lo + 4, hi as int));
            return Some(Instruction::Psh(FloatLiteral { text }));
        }
        assert(tail =~= s@.subrange(lo + 4, hi as int));
        proof { lemma_line_shapes(line); }
        return None;
    }
    if starts_operand(s, lo, hi, 's' as u8, 'a' as u8, 'p' as u8) {
        let v = parse_uint(s, lo + 4, hi);
        assert(tail =~= s@.subrange(lo + 4, hi as int));
        match v {
            Some(n) => {
                return Some(Instruction::Sap(n));
            },
            None => {
                proof { lemma_line_shapes(line); }
                return None;
            },
        }
    }
    if starts_operand(s, lo, hi, 'l' as u8, 's' as u8, 'w' as u8) {
        let v = parse_uint(s, lo + 4, hi);
        assert(tail =~= s@.subrange(lo + 4, hi as int));
        match v {
            Some(n) => {
                return Some(Instruction::Lsw(n));
            },
            None => {
                proof { lemma_line_shapes(line); }
                return None;
            },
        }
    }
    if starts_operand(s, lo, hi, 'j' as u8, 'm' as u8, 'p' as u8) {
        let v = parse_uint(s, lo + 4, hi);
        assert(tail =~= s@.subrange(lo + 4, hi as int));
        match v {
            Some(n) => {
                return Some(Instruction::Jmp(n));
            },
            None => {
                proof { lemma_line_shapes(line); }
                return None;
            },
        }
    }
    if starts_operand(s, lo, hi, 'j' as u8, 'i' as u8, 'z' as u8) {
        let v = parse_uint(s, lo + 4, hi);
        assert(tail =~= s@.subrange(lo + 4, hi as int));
        match v {
            Some(n) => {
                return Some(Instruction::Jiz(n));
            },
            None => {
                proof { lemma_line_shapes(line); }
                return None;
            },
        }
    }
    if starts_operand(s, lo, hi, 'j' as u8, 'n' as u8, 'z' as u8) {
        let v = parse_uint(s, lo + 4, hi);
        assert(tail =~= s@.subrange(lo + 4, hi as int));
        match v {
            Some(n) => {
                return Some(Instruction::Jnz(n));
            },
            None => {
                proof { lemma_line_shapes(line); }
                return None;
            },
        }
    }
    if is_word3(s, lo, hi, 'p' as u8, 'f' as u8, 'a' as u8) {
        return Some(Instruction::Pfa);
    }
    if is_word4(s, lo, hi, 'p' as u8, 't' as u8, 'a' as u8, 'p' as u8) {
        return Some(Instruction::Ptap);
    }
    if is_word3(s, lo, hi, 'p' as u8, 't' as u8, 'a' as u8) {
        return Some(Instruction::Pta);
    }
    if is_word3(s, lo, hi, 'g' as u8, 'a' as u8, 'p' as u8) {
        return Some(Instruction::Gap);
    }
    if is_word3(s, lo, hi, 'p' as u8, 'e' as u8, 'k' as u8) {
        return Some(Instruction::Pek);
    }
    if is_word3(s, lo, hi, 'i' as u8, 'n' as u8, 'p' as u8) {
        return Some(Instruction::Inp);
    }
    if is_word3(s, lo, hi, 'd' as u8, 'u' as u8, 'p' as u8) {
        return Some(Instruction::Dup);
    }
    if is_word3(s, lo, hi, 'p' as u8, 'o' as u8, 'p' as u8) {
        return Some(Instruction::Pop);
    }
    if is_word3(s, lo, hi, 's' as u8, 'w' as u8, 'p' as u8) {
        return Some(Instruction::Swp);
    }
    if is_word3(s, lo, hi, 'a' as u8, 'd' as u8, 'd' as u8) {
        return Some(Instruction::Add);
    }
    if is_word3(s, lo, hi, 's' as u8, 'u' as u8, 'b' as u8) {
        return Some(Instruction::Sub);
    }
    if is_word3(s, lo, hi, 'm' as u8, 'u' as u8, 'l' as u8) {
        return Some(Instruction::Mul);
    }
    if is_word3(s, lo, hi, 'd' as u8, 'i' as u8, 'v' as u8) {
        return Some(Instruction::Div);
    }
    if is_word3(s, lo, hi, 'm' as u8, 'o' as u8, 'd' as u8) {
        return Some(Instruction::Mod);
    }
    if is_word3(s, lo, hi, 'a' as u8, 'b' as u8, 's' as u8) {
        return Some(Instruction::Abs);
    }
    if is_word3(s, lo, hi, 'm' as u8, 'a' as u8, 'x' as u8) {
        return Some(Instruction::Max);
    }
    if is_word3(s, lo, hi, 'm' as u8, 'i' as u8, 'n' as u8) {
        return Some(Instruction::Min);
    }
    if is_word4(s, lo, hi, 'i' as u8, 'p' as u8, 't' as u8, 'a' as u8) {
        return Some(Instruction::Ipta);
    }
    if is_word4(s, lo, hi, 'j' as u8, 'm' as u8, 'p' as u8, 'a' as u8) {
        return Some(Instruction::Jmpa);
    }
    if is_word4(s, lo, hi, 'j' as u8, 'i' as u8, 'z' as u8, 'a' as u8) {
        return Some(Instruction::Jiza);
    }
    if is_word4(s, lo, hi, 'j' as u8, 'n' as u8, 'z' as u8, 'a' as u8) {
        return Some(Instruction::Jnza);
    }
    if is_word3(s, lo, hi, 'r' as u8, 'e' as u8, 't' as u8) {
        return Some(Instruction::Ret);
    }
    proof { lemma_line_shapes(line); }
    None
}


/// Whether `a` and `b` are the same instruction with the same operand.
pub open spec fn same_instruction(a: Instruction, b: Instruction) -> bool {
    match (a, b) {
        (Instruction::Psh(x), Instruction::Psh(y)) => x@ == y@,
        _ => a == b,
    }
}

/// No line writes two different instructions. So the order in which the
/// mnemonics are tried does not matter: `pta` never takes a `ptap` line,
/// nor `jmp` a `jmpa` line.
pub proof fn lemma_line_unique(line: Seq<u8>, a: Instruction, b: Instruction)
    requires
        line_denotes(line, a),
        line_denotes(line, b),
    ensures
        same_instruction(a, b),
{
    lemma_line_shapes(line);
}

/// No line that writes an instruction holds a `\n`.
pub proof fn lemma_line_has_no_newline(line: Seq<u8>, ins: Instruction)
    requires
        line_denotes(line, ins),
    ensures
        forall|i: int| 0 <= i < line.len() ==> #[trigger] line[i] != NEWLINE,
{
    lemma_line_shapes(line);
    let t = operand_text(line);
    if ins is Psh {
        lemma_float_bytes(t);
    }
    assert forall|i: int| 0 <= i < line.len() implies #[trigger] line[i] != NEWLINE by {
        if (ins is Psh || takes_uint(ins)) && i >= 4 {
            assert(t[i - 4] == line[i]);
            if takes_uint(ins) {
                assert(is_literal_byte(t[i - 4]));
            }
        }
    }
}

} // verus!
