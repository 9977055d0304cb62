use mpl_parser::{parse, parse_instruction, try_parse, try_parse_instruction, FloatLiteral, Instruction};

fn psh(text: &str) -> Instruction {
    Instruction::Psh(FloatLiteral::new(text).unwrap())
}

fn psh_value(ins: &Instruction) -> f64 {
    match ins {
        Instruction::Psh(lit) => std::str::from_utf8(lit.as_bytes()).unwrap().parse::<f64>().unwrap(),
        other => panic!("not a psh: {:?}", other),
    }
}

#[test]
fn every_opcode_parses() {
    let cases = vec![
        ("psh 1.5\n", psh("1.5")),
        ("pfa\n", Instruction::Pfa),
        ("ptap\n", Instruction::Ptap),
        ("pta\n", Instruction::Pta),
        ("gap\n", Instruction::Gap),
        ("sap 4\n", Instruction::Sap(4)),
        ("pek\n", Instruction::Pek),
        ("inp\n", Instruction::Inp),
        ("dup\n", Instruction::Dup),
        ("pop\n", Instruction::Pop),
        ("swp\n", Instruction::Swp),
        ("lsw 2\n", Instruction::Lsw(2)),
        ("add\n", Instruction::Add),
        ("sub\n", Instruction::Sub),
        ("mul\n", Instruction::Mul),
        ("div\n", Instruction::Div),
        ("mod\n", Instruction::Mod),
        ("abs\n", Instruction::Abs),
        ("max\n", Instruction::Max),
        ("min\n", Instruction::Min),
        ("jmp 10\n", Instruction::Jmp(10)),
        ("jiz 0\n", Instruction::Jiz(0)),
        ("jnz 7\n", Instruction::Jnz(7)),
        ("ipta\n", Instruction::Ipta),
        ("jmpa\n", Instruction::Jmpa),
        ("jiza\n", Instruction::Jiza),
        ("jnza\n", Instruction::Jnza),
        ("ret\n", Instruction::Ret),
    ];
    assert_eq!(cases.len(), 28);
    for (line, expected) in cases {
        assert_eq!(try_parse_instruction(line), Some(expected), "line {:?}", line);
        let program = try_parse(line, (), false).unwrap();
        assert_eq!(program.instructions.len(), 1);
    }
}

#[test]
fn ptap_is_not_taken_for_pta() {
    assert_eq!(try_parse_instruction("ptap\n"), Some(Instruction::Ptap));
    assert_eq!(parse_instruction("ptap\n"), Instruction::Ptap);
    assert_eq!(try_parse_instruction("pta\n"), Some(Instruction::Pta));
}

#[test]
fn jump_forms_with_and_without_operand() {
    assert_eq!(try_parse_instruction("jmpa\n"), Some(Instruction::Jmpa));
    assert_eq!(try_parse_instruction("jmp 3\n"), Some(Instruction::Jmp(3)));
    assert_eq!(try_parse_instruction("jmpa 3\n"), None);
    assert_eq!(try_parse_instruction("jmp\n"), None);
}

#[test]
fn empty_input_is_empty_program() {
    let program = try_parse("", (), false).unwrap();
    assert!(program.instructions.is_empty());
    assert!(parse("", (), true).instructions.is_empty());
}

#[test]
fn invalid_line_fails_whole_program() {
    assert!(try_parse("psh 1.0\nXXX\n", (), false).is_none());
    assert!(try_parse("psh 1.0\n", (), false).is_some());
}

#[test]
fn missing_terminator_fails() {
    assert_eq!(try_parse_instruction("ret"), None);
    assert!(try_parse("ret", (), false).is_none());
    assert!(try_parse("pop\nret", (), false).is_none());
}

#[test]
fn unsigned_operand_rejects_sign() {
    assert_eq!(try_parse_instruction("sap -1\n"), None);
    assert_eq!(try_parse_instruction("sap +1\n"), None);
    assert_eq!(try_parse_instruction("sap 3\n"), Some(Instruction::Sap(3)));
}

#[test]
fn psh_operands() {
    let a = try_parse_instruction("psh 3.14\n").unwrap();
    let b = try_parse_instruction("psh -2\n").unwrap();
    let c = try_parse_instruction("psh 1e3\n").unwrap();
    assert_eq!(psh_value(&a), 3.14);
    assert_eq!(psh_value(&b), -2.0);
    assert_eq!(psh_value(&c), 1000.0);
    assert_eq!(a, psh("3.14"));
}

#[test]
fn psh_literal_shapes() {
    assert_eq!(try_parse_instruction("psh 1E-2\n"), Some(psh("1E-2")));
    assert_eq!(try_parse_instruction("psh -0.5e+10\n"), Some(psh("-0.5e+10")));
    assert_eq!(try_parse_instruction("psh 1.\n"), None);
    assert_eq!(try_parse_instruction("psh .5\n"), None);
    assert_eq!(try_parse_instruction("psh +1\n"), None);
    assert_eq!(try_parse_instruction("psh 1e\n"), None);
    assert_eq!(try_parse_instruction("psh -\n"), None);
    assert_eq!(try_parse_instruction("psh 1.2.3\n"), None);
    assert_eq!(try_parse_instruction("psh \n"), None);
}

#[test]
fn mnemonics_are_case_sensitive() {
    assert_eq!(try_parse_instruction("PSH 1\n"), None);
    assert!(try_parse("PSH 1\n", (), false).is_none());
    assert_eq!(try_parse_instruction("Ret\n"), None);
}

#[test]
fn lenient_is_absent_where_strict_would_abort() {
    for input in ["psh 1.0\nXXX\n", "ret", "sap -1\n", "PSH 1\n", "ret\r\n", "\n", "pop\n\n"] {
        assert!(try_parse(input, (), false).is_none(), "input {:?}", input);
    }
    for input in ["ret", "sap -1\n", "PSH 1\n", "\n", ""] {
        assert_eq!(try_parse_instruction(input), None, "input {:?}", input);
    }
}

#[test]
fn separator_is_exactly_one_space() {
    assert_eq!(try_parse_instruction("psh  1\n"), None);
    assert_eq!(try_parse_instruction("psh\t1\n"), None);
    assert_eq!(try_parse_instruction("ret \n"), None);
}

#[test]
fn unsigned_operand_must_fit_usize() {
    let max = format!("jmp {}\n", usize::MAX);
    assert_eq!(try_parse_instruction(&max), Some(Instruction::Jmp(usize::MAX)));
    let over = format!("jmp {}0\n", usize::MAX);
    assert_eq!(try_parse_instruction(&over), None);
    assert_eq!(try_parse_instruction("lsw 007\n"), Some(Instruction::Lsw(7)));
}

#[test]
fn single_instruction_reads_first_line_only() {
    assert_eq!(try_parse_instruction("ret\npop\n"), Some(Instruction::Ret));
    assert_eq!(try_parse_instruction("ret\ngarbage"), Some(Instruction::Ret));
}

#[test]
fn program_keeps_order_and_capabilities() {
    let source = "psh 2\npsh 3\nadd\njmp 99\nret\n";
    let program = try_parse(source, || Some(1.0), true).unwrap();
    assert_eq!(
        program.instructions,
        vec![psh("2"), psh("3"), Instruction::Add, Instruction::Jmp(99), Instruction::Ret]
    );
    assert!(program.debug);
    assert_eq!((program.input)(), Some(1.0));
    let strict = parse(source, (), false);
    assert_eq!(strict.instructions.len(), 5);
    assert!(!strict.debug);
}

#[test]
fn float_literal_checks_its_text() {
    assert_eq!(FloatLiteral::new("2.5e-3").unwrap().as_bytes(), b"2.5e-3");
    assert!(FloatLiteral::new("-7").is_some());
    assert!(FloatLiteral::new("").is_none());
    assert!(FloatLiteral::new("1.").is_none());
    assert!(FloatLiteral::new("nan").is_none());
    assert!(FloatLiteral::new("1 ").is_none());
}
