use simple_assembler::parser::ParseError;
use simple_assembler::simple_assembler;

fn run(program: Vec<&str>) -> Vec<(String, i64)> {
    simple_assembler(program).expect("program should translate")
}

fn reg(result: &[(String, i64)], name: &str) -> i64 {
    result
        .iter()
        .find(|pair| pair.0 == name)
        .expect("register should be in the result")
        .1
}

#[test]
fn mov_constant_alone() {
    let result = run(vec!["mov a 5"]);
    assert_eq!(result, vec![("a".to_string(), 5)]);
}

#[test]
fn inc_dec_fold() {
    let result = run(vec!["mov a 5", "inc a", "inc a", "dec a", "dec a", "dec a"]);
    assert_eq!(result, vec![("a".to_string(), 4)]);
}

#[test]
fn countdown_loop() {
    // Counts a down to zero, bumping b once per pass, then drops b by one.
    let result = run(vec!["mov a 3", "mov b 5", "dec a", "inc b", "jnz a -2", "dec b"]);
    assert_eq!(reg(&result, "a"), 0);
    assert_eq!(reg(&result, "b"), 7);
}

#[test]
fn straight_line_with_register_source() {
    let result = run(vec!["mov a 7", "mov b a", "inc b", "dec a"]);
    assert_eq!(reg(&result, "a"), 6);
    assert_eq!(reg(&result, "b"), 8);
}

#[test]
fn dead_jump_has_no_effect() {
    let with_line = run(vec!["mov a 1", "jnz 0 100", "inc a"]);
    let without_line = run(vec!["mov a 1", "inc a"]);
    assert_eq!(with_line, without_line);
    assert_eq!(reg(&with_line, "a"), 2);
}

#[test]
fn trailing_malformed_lines_keep_mapping() {
    let clean = run(vec!["mov a 2", "inc a"]);
    let noisy = run(vec!["mov a 2", "inc a", "bogus x", "mov a", "inc a b"]);
    assert_eq!(clean, noisy);
}

#[test]
fn unknown_register_is_fatal() {
    assert_eq!(simple_assembler(vec!["inc a"]), Err(ParseError::UnknownRegister));
    assert_eq!(simple_assembler(vec!["dec zz"]), Err(ParseError::UnknownRegister));
    assert_eq!(
        simple_assembler(vec!["mov a 1", "inc b"]),
        Err(ParseError::UnknownRegister)
    );
}

#[test]
fn unknown_mov_source_is_fatal() {
    assert_eq!(simple_assembler(vec!["mov a b"]), Err(ParseError::UnknownRegister));
}

#[test]
fn mov_register_onto_itself() {
    // The destination is declared before the source resolves, so `mov a a`
    // copies the fresh register onto itself.
    let result = run(vec!["mov a a"]);
    assert_eq!(result, vec![("a".to_string(), 0)]);
}

#[test]
fn empty_program_yields_empty_mapping() {
    let result = run(vec![]);
    assert_eq!(result, Vec::<(String, i64)>::new());
}

#[test]
fn malformed_only_program_yields_empty_mapping() {
    let result = run(vec!["", "nop", "MOV a 5"]);
    assert_eq!(result, Vec::<(String, i64)>::new());
}

#[test]
fn numeric_register_name() {
    // A `mov` destination is always a name, even when it looks numeric.
    let result = run(vec!["mov 5 3", "inc 5"]);
    assert_eq!(result, vec![("5".to_string(), 4)]);
}

#[test]
fn extreme_constants() {
    let result = run(vec![
        "mov a -9223372036854775808",
        "mov b 9223372036854775807",
        "mov c +5",
    ]);
    assert_eq!(reg(&result, "a"), i64::MIN);
    assert_eq!(reg(&result, "b"), i64::MAX);
    assert_eq!(reg(&result, "c"), 5);
}

#[test]
fn overflowing_literal_is_a_register_name() {
    // Too large for i64, so the token is read as a (never declared) register.
    assert_eq!(
        simple_assembler(vec!["mov a 9223372036854775808"]),
        Err(ParseError::UnknownRegister)
    );
}

#[test]
fn increments_wrap_at_the_boundaries() {
    let result = run(vec!["mov a -9223372036854775808", "dec a"]);
    assert_eq!(reg(&result, "a"), i64::MAX);
    let result = run(vec!["mov b 9223372036854775807", "inc b"]);
    assert_eq!(reg(&result, "b"), i64::MIN);
}

#[test]
fn whitespace_is_flexible() {
    let result = run(vec!["  mov   a\t5  ", "\tinc\ta"]);
    assert_eq!(result, vec![("a".to_string(), 6)]);
}

#[test]
fn registers_reported_in_first_appearance_order() {
    let result = run(vec!["mov b 1", "mov a 2", "mov c b"]);
    assert_eq!(
        result,
        vec![
            ("b".to_string(), 1),
            ("a".to_string(), 2),
            ("c".to_string(), 1),
        ]
    );
}

#[test]
fn forward_jump_skips_when_counter_reaches_offset() {
    // At counter 2 with offset 2 the jump is taken and leaves the program,
    // so the final `mov` never runs.
    let result = run(vec!["mov a 5", "mov b 2", "jnz a b", "mov a 1"]);
    assert_eq!(reg(&result, "a"), 5);
    assert_eq!(reg(&result, "b"), 2);
}

#[test]
fn jump_not_taken_when_offset_exceeds_counter() {
    // At counter 1 the offset 2 exceeds the counter, so the executor falls
    // through and the final `mov` runs.
    let result = run(vec!["mov a 1", "jnz a 2", "mov a 9"]);
    assert_eq!(reg(&result, "a"), 9);
}

#[test]
fn zero_register_condition_falls_through() {
    let result = run(vec!["mov a 0", "jnz a 1", "inc a"]);
    assert_eq!(reg(&result, "a"), 1);
}
