use renlang::codegen::compile_program;
use renlang::instr::Instruction;
use renlang::interp::{render_output, simulate_program};
use renlang::lexing::tokenize_lines;
use renlang::numtext::{i32_to_string, u64_to_string, usize_to_string};
use renlang::translate::parse_program;

const ASM_HEADER: &str = "segment .text\ndump:\n    sub     rsp, 40\n    mov     eax, edi\n    mov     BYTE [rsp+31], 10\n    lea     rcx, [rsp+31]\n    mov     r9d, 0\n    test    eax, eax\n    jns     .conv\n    mov     r9d, 1\n    neg     eax\n.conv:\n    mov     esi, 10\n.digit:\n    xor     edx, edx\n    div     esi\n    add     edx, 48\n    sub     rcx, 1\n    mov     BYTE [rcx], dl\n    test    eax, eax\n    jnz     .digit\n    test    r9d, r9d\n    jz      .write\n    sub     rcx, 1\n    mov     BYTE [rcx], 45\n.write:\n    lea     rdx, [rsp+32]\n    sub     rdx, rcx\n    mov     rsi, rcx\n    mov     edi, 1\n    mov     rax, 1\n    syscall\n    add     rsp, 40\n    ret\nglobal _start\n_start:\n";

const ASM_FOOTER: &str = "    mov rax, 60\n    mov rdi, 0\n    syscall\n";

fn program_of(source: &str) -> Vec<Instruction> {
    let lines: Vec<String> = source.lines().map(|l| l.to_string()).collect();
    let toks = tokenize_lines("p", &lines);
    parse_program(&toks).unwrap()
}

#[test]
fn interpret_scenario_a() {
    let prog = program_of("34 35 + .");
    let out = simulate_program(&prog).unwrap();
    assert_eq!(out, vec![69]);
    assert_eq!(render_output(&out), "69\n");
}

#[test]
fn interpret_scenario_b() {
    let prog = program_of("500 80 - .");
    let out = simulate_program(&prog).unwrap();
    assert_eq!(out, vec![420]);
    assert_eq!(render_output(&out), "420\n");
}

#[test]
fn interpret_scenario_c() {
    let prog = program_of("1 2 3 + + .");
    let out = simulate_program(&prog).unwrap();
    assert_eq!(render_output(&out), "6\n");
}

#[test]
fn interpret_underflow_after_one_dump() {
    // "5 ." prints 5; a stray second "." finds the stack empty and must
    // fault, not print a made-up value.
    let prog = program_of("5 . .");
    let fault = simulate_program(&prog).unwrap_err();
    assert_eq!(fault.output, vec![5]);
}

#[test]
fn interpret_underflow_on_arithmetic() {
    let prog = program_of("1 +");
    assert!(simulate_program(&prog).is_err());
    let prog = program_of("-");
    assert!(simulate_program(&prog).is_err());
}

#[test]
fn interpret_empty_program() {
    let prog = program_of("");
    let out = simulate_program(&prog).unwrap();
    assert_eq!(out, Vec::<i32>::new());
    assert_eq!(render_output(&out), "");
}

#[test]
fn interpret_wraps_at_32_bits() {
    let prog = program_of("2147483647 1 + .");
    let out = simulate_program(&prog).unwrap();
    assert_eq!(out, vec![i32::MIN]);
    assert_eq!(render_output(&out), "-2147483648\n");
    let prog = program_of("-2147483648 1 - .");
    let out = simulate_program(&prog).unwrap();
    assert_eq!(out, vec![i32::MAX]);
}

#[test]
fn interpret_minus_operand_order() {
    // The second-popped value is the minuend: 3 - 10 = -7.
    let prog = program_of("3 10 - .");
    let out = simulate_program(&prog).unwrap();
    assert_eq!(render_output(&out), "-7\n");
}

#[test]
fn compile_emits_header_blocks_and_footer() {
    let prog = program_of("34 35 + .");
    let listing = compile_program(&prog);
    let expected = format!(
        "{}{}{}{}{}{}",
        ASM_HEADER,
        "    ;; -- push 34 --\n    push 34\n",
        "    ;; -- push 35 --\n    push 35\n",
        "    ;; -- plus --\n    pop rax\n    pop rbx\n    add eax, ebx\n    push rax\n",
        "    ;; -- dump --\n    pop rdi\n    call dump\n",
        ASM_FOOTER
    );
    assert_eq!(listing, expected);
}

#[test]
fn compile_minus_block_matches_interpreter_order() {
    let prog = vec![Instruction::Minus];
    let listing = compile_program(&prog);
    let expected = format!(
        "{}{}{}",
        ASM_HEADER,
        "    ;; -- minus --\n    pop rax\n    pop rbx\n    sub ebx, eax\n    push rbx\n",
        ASM_FOOTER
    );
    assert_eq!(listing, expected);
}

#[test]
fn compile_empty_program_is_header_and_footer() {
    let prog = Vec::<Instruction>::new();
    let listing = compile_program(&prog);
    assert_eq!(listing, format!("{}{}", ASM_HEADER, ASM_FOOTER));
}

#[test]
fn compile_negative_push_literal() {
    let prog = vec![Instruction::Push(-42)];
    let listing = compile_program(&prog);
    assert!(listing.contains("    ;; -- push -42 --\n    push -42\n"));
}

#[test]
fn decimal_rendering_exact() {
    assert_eq!(u64_to_string(0), "0");
    assert_eq!(u64_to_string(10), "10");
    assert_eq!(u64_to_string(18446744073709551615), "18446744073709551615");
    assert_eq!(usize_to_string(420), "420");
    assert_eq!(i32_to_string(69), "69");
    assert_eq!(i32_to_string(-7), "-7");
    assert_eq!(i32_to_string(i32::MIN), "-2147483648");
    assert_eq!(i32_to_string(i32::MAX), "2147483647");
}

#[test]
fn render_output_joins_lines_in_order() {
    let vals = vec![1, -2, 30];
    assert_eq!(render_output(&vals), "1\n-2\n30\n");
}
