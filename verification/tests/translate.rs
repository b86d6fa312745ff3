use renlang::instr::{dump, minus, plus, push, Instruction};
use renlang::lexing::{tokenize_lines, PositionedToken};
use renlang::translate::{parse_i32, parse_program, parse_word_as_op, render_diagnostic};

fn token(path: &str, row: usize, col: usize, word: &str) -> PositionedToken {
    PositionedToken {
        path: path.to_string(),
        row,
        col,
        word: word.to_string(),
    }
}

#[test]
fn constructors_build_each_variant() {
    assert_eq!(push(34), Instruction::Push(34));
    assert_eq!(plus(), Instruction::Plus);
    assert_eq!(minus(), Instruction::Minus);
    assert_eq!(dump(), Instruction::Dump);
}

#[test]
fn parse_i32_plain_values() {
    assert_eq!(parse_i32("0"), Some(0));
    assert_eq!(parse_i32("34"), Some(34));
    assert_eq!(parse_i32("+42"), Some(42));
    assert_eq!(parse_i32("-7"), Some(-7));
    assert_eq!(parse_i32("007"), Some(7));
}

#[test]
fn parse_i32_range_edges() {
    assert_eq!(parse_i32("2147483647"), Some(i32::MAX));
    assert_eq!(parse_i32("2147483648"), None);
    assert_eq!(parse_i32("-2147483648"), Some(i32::MIN));
    assert_eq!(parse_i32("-2147483649"), None);
    assert_eq!(parse_i32("99999999999999999999"), None);
}

#[test]
fn parse_i32_rejects_non_literals() {
    assert_eq!(parse_i32(""), None);
    assert_eq!(parse_i32("+"), None);
    assert_eq!(parse_i32("-"), None);
    assert_eq!(parse_i32("abc"), None);
    assert_eq!(parse_i32("1a"), None);
    assert_eq!(parse_i32("1 2"), None);
    assert_eq!(parse_i32("--1"), None);
}

#[test]
fn translate_symbols_and_literals() {
    assert_eq!(parse_word_as_op(&token("f", 0, 0, "+")).unwrap(), Instruction::Plus);
    assert_eq!(parse_word_as_op(&token("f", 0, 0, "-")).unwrap(), Instruction::Minus);
    assert_eq!(parse_word_as_op(&token("f", 0, 0, ".")).unwrap(), Instruction::Dump);
    assert_eq!(parse_word_as_op(&token("f", 0, 0, "500")).unwrap(), Instruction::Push(500));
    assert_eq!(parse_word_as_op(&token("f", 0, 0, "-80")).unwrap(), Instruction::Push(-80));
}

#[test]
fn translate_is_idempotent() {
    let t = token("f", 2, 4, "34");
    let first = parse_word_as_op(&t).unwrap();
    let second = parse_word_as_op(&t).unwrap();
    assert_eq!(first, second);
    let u = token("f", 2, 4, "+");
    assert_eq!(parse_word_as_op(&u).unwrap(), parse_word_as_op(&u).unwrap());
}

#[test]
fn translate_rejects_bad_word_with_position() {
    let err = parse_word_as_op(&token("program.ren", 4, 9, "abc")).unwrap_err();
    assert_eq!(err.path, "program.ren");
    assert_eq!(err.row, 4);
    assert_eq!(err.col, 9);
    assert_eq!(err.word, "abc");
}

#[test]
fn diagnostic_is_verbatim() {
    let err = parse_word_as_op(&token("program.ren", 4, 9, "abc")).unwrap_err();
    assert_eq!(
        render_diagnostic(&err),
        "program.ren:4:9: invalid digit found in file: 'abc'"
    );
}

#[test]
fn parse_program_scenario_a() {
    let lines = vec!["34 35 + .".to_string()];
    let toks = tokenize_lines("p", &lines);
    let prog = parse_program(&toks).unwrap();
    assert_eq!(
        prog,
        vec![Instruction::Push(34), Instruction::Push(35), Instruction::Plus, Instruction::Dump]
    );
}

#[test]
fn parse_program_scenario_b() {
    let lines = vec!["500 80 - .".to_string()];
    let toks = tokenize_lines("p", &lines);
    let prog = parse_program(&toks).unwrap();
    assert_eq!(
        prog,
        vec![Instruction::Push(500), Instruction::Push(80), Instruction::Minus, Instruction::Dump]
    );
}

#[test]
fn parse_program_empty_input() {
    let lines: Vec<String> = Vec::new();
    let toks = tokenize_lines("p", &lines);
    let prog = parse_program(&toks).unwrap();
    assert_eq!(prog, Vec::<Instruction>::new());
}

#[test]
fn parse_program_reports_first_bad_token() {
    let lines = vec!["1 2 +".to_string(), "  abc def".to_string()];
    let toks = tokenize_lines("program.ren", &lines);
    let err = parse_program(&toks).unwrap_err();
    assert_eq!(
        render_diagnostic(&err),
        "program.ren:1:2: invalid digit found in file: 'abc'"
    );
}
