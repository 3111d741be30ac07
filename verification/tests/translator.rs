use simple_assembler::parser::{ParseError, Parser};
use simple_assembler::types::{Either, Instruction, MyFromStr};

#[test]
fn translation_assigns_dense_handles() {
    let mut parser = Parser::new();
    let errors = parser.parse(vec!["mov a 5", "mov b a", "inc b", "jnz b -1"]);
    assert_eq!(errors, Ok(0));
    assert_eq!(
        parser.get_registers(),
        &vec!["a".to_string(), "b".to_string()]
    );
    assert_eq!(
        parser.get_instructions(),
        &vec![
            Instruction::Mov(0, Either::Constant(5)),
            Instruction::Mov(1, Either::Register(0)),
            Instruction::Inc(1),
            Instruction::Jnz(Either::Register(1), Either::Constant(-1)),
        ]
    );
}

#[test]
fn dead_jump_never_emitted() {
    let mut parser = Parser::new();
    let errors = parser.parse(vec!["mov a 1", "jnz 0 100", "inc a"]);
    assert_eq!(errors, Ok(0));
    assert_eq!(
        parser.get_instructions(),
        &vec![
            Instruction::Mov(0, Either::Constant(1)),
            Instruction::Inc(0),
        ]
    );
    // The elided jump touches the name table no more than it does the
    // instruction list.
    assert_eq!(parser.get_registers(), &vec!["a".to_string()]);
}

#[test]
fn dead_jump_skips_its_offset_token() {
    // With a constant-zero condition the offset is never resolved, so even
    // an unknown register there does not abort.
    let mut parser = Parser::new();
    let errors = parser.parse(vec!["mov a 1", "jnz 0 nowhere"]);
    assert_eq!(errors, Ok(0));
    assert_eq!(parser.get_instructions().len(), 1);
}

#[test]
fn malformed_lines_are_counted_not_fatal() {
    let mut parser = Parser::new();
    let errors = parser.parse(vec![
        "mov a 2",
        "bogus x",
        "mov a",
        "inc a b",
        "",
        "MOV a 5",
        "inc a",
    ]);
    assert_eq!(errors, Ok(5));
    assert_eq!(parser.get_instructions().len(), 2);
}

#[test]
fn trailing_malformed_lines_change_only_the_count() {
    let mut clean = Parser::new();
    let mut noisy = Parser::new();
    let clean_errors = clean.parse(vec!["mov a 2", "inc a"]);
    let noisy_errors = noisy.parse(vec!["mov a 2", "inc a", "what now", "mov a"]);
    assert_eq!(clean_errors, Ok(0));
    assert_eq!(noisy_errors, Ok(2));
    assert_eq!(clean.get_instructions(), noisy.get_instructions());
    assert_eq!(clean.get_registers(), noisy.get_registers());
}

#[test]
fn unknown_register_aborts_translation() {
    let mut parser = Parser::new();
    assert_eq!(
        parser.parse(vec!["mov a 1", "dec b"]),
        Err(ParseError::UnknownRegister)
    );
    let mut parser = Parser::with_instructions(4);
    assert_eq!(
        parser.parse(vec!["jnz q 1"]),
        Err(ParseError::UnknownRegister)
    );
    let mut parser = Parser::new();
    assert_eq!(
        parser.parse(vec!["mov a 1", "jnz a q"]),
        Err(ParseError::UnknownRegister)
    );
}

#[test]
fn translation_is_idempotent() {
    let program = vec!["mov a 3", "mov b 5", "dec a", "inc b", "jnz a -2", "dec b"];
    let mut first = Parser::new();
    let mut second = Parser::new();
    let first_errors = first.parse(program.clone());
    let second_errors = second.parse(program);
    assert_eq!(first_errors, second_errors);
    assert_eq!(first.get_instructions(), second.get_instructions());
    assert_eq!(first.get_registers(), second.get_registers());
}

#[test]
fn with_instructions_translates_like_new() {
    let program = vec!["mov a 1", "inc a"];
    let mut plain = Parser::new();
    let mut sized = Parser::with_instructions(program.len());
    assert_eq!(plain.parse(program.clone()), sized.parse(program));
    assert_eq!(plain.get_instructions(), sized.get_instructions());
    assert_eq!(plain.get_registers(), sized.get_registers());
}

#[test]
fn operands_resolve_constants_before_registers() {
    let registers: Vec<String> = vec!["a".to_string(), "7".to_string()];
    assert_eq!(
        <Either as MyFromStr>::from_str("42", &registers),
        Some(Either::Constant(42))
    );
    assert_eq!(
        <Either as MyFromStr>::from_str("-3", &registers),
        Some(Either::Constant(-3))
    );
    // A numeric token is a constant even when a register shares its name.
    assert_eq!(
        <Either as MyFromStr>::from_str("7", &registers),
        Some(Either::Constant(7))
    );
    assert_eq!(
        <Either as MyFromStr>::from_str("a", &registers),
        Some(Either::Register(0))
    );
    assert_eq!(<Either as MyFromStr>::from_str("zz", &registers), None);
}

#[test]
fn register_lookup_finds_handles() {
    let registers: Vec<String> = vec!["a".to_string(), "b".to_string()];
    assert_eq!(<usize as MyFromStr>::from_str("a", &registers), Some(0));
    assert_eq!(<usize as MyFromStr>::from_str("b", &registers), Some(1));
    assert_eq!(<usize as MyFromStr>::from_str("c", &registers), None);
    // Case sensitive, like the rest of the language.
    assert_eq!(<usize as MyFromStr>::from_str("A", &registers), None);
}

#[test]
fn operand_equality_is_structural() {
    assert_eq!(Either::Constant(0), Either::Constant(0));
    assert_ne!(Either::Constant(0), Either::Register(0));
    assert_ne!(Either::Constant(1), Either::Constant(2));
}

#[test]
fn parse_accumulates_across_calls() {
    let mut parser = Parser::new();
    assert_eq!(parser.parse(vec!["mov a 1"]), Ok(0));
    assert_eq!(parser.parse(vec!["inc a", "junk"]), Ok(1));
    assert_eq!(parser.get_instructions().len(), 2);
    assert_eq!(parser.get_registers(), &vec!["a".to_string()]);
}
