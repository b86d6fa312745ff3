//! The code generator: a program lowered to assembly text for a 64-bit
//! target, one block per instruction after a fixed runtime-support routine
//! that prints a signed 32-bit integer, and a model of the emitted blocks'
//! stack effect that is proved to agree with the interpreter. The blocks
//! compute on 32-bit registers so that their arithmetic wraps exactly as
//! the interpreter's does.

use vstd::prelude::*;
use vstd::string::StringExecFns;

use crate::instr::Instruction;
use crate::interp::RunState;
use crate::interp::run;
use crate::interp::run_from;
use crate::interp::lemma_run_from_faulted;
use crate::interp::step;
use crate::interp::wrap_add;
use crate::interp::wrap_sub;
use crate::numtext::i32_dec_seq;
use crate::numtext::i32_to_string;

verus! {

/// The fixed prologue of every emitted listing: the runtime-support routine
/// that prints the signed 32-bit integer in `edi` as decimal text followed
/// by a newline — a minus sign for a negative value, then the magnitude by
/// repeated division — and the entry point label.
pub open spec fn asm_header() -> Seq<char> {
    "segment .text\ndump:\n    sub     rsp, 40\n    mov     eax, edi\n    mov     BYTE [rsp+31], 10\n    lea     rcx, [rsp+31]\n    mov     r9d, 0\n    test    eax, eax\n    jns     .conv\n    mov     r9d, 1\n    neg     eax\n.conv:\n    mov     esi, 10\n.digit:\n    xor     edx, edx\n    div     esi\n    add     edx, 48\n    sub     rcx, 1\n    mov     BYTE [rcx], dl\n    test    eax, eax\n    jnz     .digit\n    test    r9d, r9d\n    jz      .write\n    sub     rcx, 1\n    mov     BYTE [rcx], 45\n.write:\n    lea     rdx, [rsp+32]\n    sub     rdx, rcx\n    mov     rsi, rcx\n    mov     edi, 1\n    mov     rax, 1\n    syscall\n    add     rsp, 40\n    ret\nglobal _start\n_start:\n"@
}

/// The fixed epilogue: a clean process-exit syscall with status 0.
pub open spec fn asm_footer() -> Seq<char> {
    "    mov rax, 60\n    mov rdi, 0\n    syscall\n"@
}

/// The block emitted for a `Push`: its literal pushed on the target's stack,
/// under a comment naming the instruction.
pub open spec fn push_block(v: i32) -> Seq<char> {
    "    ;; -- push "@ + i32_dec_seq(v) + " --\n    push "@ + i32_dec_seq(v) + "\n"@
}

/// The block emitted for one instruction, in the emitted listing's order:
/// comment line first, then the target instructions. `Plus` and `Minus`
/// operate on the popped values' 32-bit registers, so they wrap at 32 bits
/// as the interpreter does; `Dump` hands the popped value to the printing
/// routine, which reads its low 32 bits.
pub open spec fn block_text(ins: Instruction) -> Seq<char> {
    match ins {
        Instruction::Push(v) => push_block(v),
        Instruction::Plus => "    ;; -- plus --\n    pop rax\n    pop rbx\n    add eax, ebx\n    push rax\n"@,
        Instruction::Minus => "    ;; -- minus --\n    pop rax\n    pop rbx\n    sub ebx, eax\n    push rbx\n"@,
        Instruction::Dump => "    ;; -- dump --\n    pop rdi\n    call dump\n"@,
    }
}

/// The blocks of a whole program, one per instruction, in program order.
pub open spec fn blocks_text(prog: Seq<Instruction>) -> Seq<char>
    decreases prog.len(),
{
    if prog.len() == 0 {
        Seq::empty()
    } else {
        blocks_text(prog.drop_last()) + block_text(prog.last())
    }
}

/// The complete emitted listing for a program.
pub open spec fn asm_text(prog: Seq<Instruction>) -> Seq<char> {
    asm_header() + blocks_text(prog) + asm_footer()
}

/// Lower a program to its assembly listing. The result is exactly the fixed
/// runtime-support prologue, one block per instruction in program order, and
/// the process-exit epilogue.
pub fn compile_program(program: &Vec<Instruction>) -> (r: String)
    ensures
        r@ == asm_text(program@),
{
    let mut s = String::new();
    s.append(
        "segment .text\ndump:\n    sub     rsp, 40\n    mov     eax, edi\n    mov     BYTE [rsp+31], 10\n    lea     rcx, [rsp+31]\n    mov     r9d, 0\n    test    eax, eax\n    jns     .conv\n    mov     r9d, 1\n    neg     eax\n.conv:\n    mov     esi, 10\n.digit:\n    xor     edx, edx\n    div     esi\n    add     edx, 48\n    sub     rcx, 1\n    mov     BYTE [rcx], dl\n    test    eax, eax\n    jnz     .digit\n    test    r9d, r9d\n    jz      .write\n    sub     rcx, 1\n    mov     BYTE [rcx], 45\n.write:\n    lea     rdx, [rsp+32]\n    sub     rdx, rcx\n    mov     rsi, rcx\n    mov     edi, 1\n    mov     rax, 1\n    syscall\n    add     rsp, 40\n    ret\nglobal _start\n_start:\n",
    );
    let mut i: usize = 0;
    while i < program.len()
        invariant
            0 <= i <= program@.len(),
            s@ == asm_header() + blocks_text(program@.take(i as int)),
        decreases program@.len() - i,
    {
        let ghost done = program@.take(i as int);
        let ins = program[i];
        match ins {
            Instruction::Push(v) => {
                let text = i32_to_string(v);
                s.append("    ;; -- push ");
                s.append(text.as_str());
                s.append(" --\n    push ");
                s.append(text.as_str());
                s.append("\n");
            },
            Instruction::Plus => {
                s.append("    ;; -- plus --\n    pop rax\n    pop rbx\n    add eax, ebx\n    push rax\n");
            },
            Instruction::Minus => {
                s.append("    ;; -- minus --\n    pop rax\n    pop rbx\n    sub ebx, eax\n    push rbx\n");
            },
            Instruction::Dump => {
                s.append("    ;; -- dump --\n    pop rdi\n    call dump\n");
            },
        }
        proof {
            assert(program@.take(i + 1).drop_last() =~= done);
            assert(program@.take(i + 1).last() == program@[i as int]);
            assert(s@ =~= asm_header() + blocks_text(program@.take(i + 1)));
        }
        i = i + 1;
    }
    proof {
        assert(program@.take(program@.len() as int) =~= program@);
    }
    let r = s.concat("    mov rax, 60\n    mov rdi, 0\n    syscall\n");
    proof {
        assert(r@ =~= asm_text(program@));
    }
    r
}

/// The observable state of the generated code while it runs: the values the
/// emitted blocks have left on the target's stack (top at the end), and the
/// values handed to the printing routine so far.
pub struct GenState {
    pub stack: Seq<i32>,
    pub printed: Seq<i32>,
}

/// The effect of the block emitted for one instruction, under the target's
/// stack discipline. Each stack slot is tracked as the signed 32-bit value
/// in its low 32 bits, which is the only part any block reads: the `Push`
/// block pushes its literal; the `Plus` block pops two values and pushes
/// their sum computed on 32-bit registers, so it wraps at 32 bits; the
/// `Minus` block pops two and pushes the second-popped minus the
/// first-popped, likewise on 32-bit registers; the `Dump` block pops one
/// value and hands it to the printing routine, which prints its low 32 bits
/// as a signed decimal. `None` when a block would pop from an empty stack,
/// against which the generated code has no guard.
pub open spec fn block_effect(ins: Instruction, s: GenState) -> Option<GenState> {
    match ins {
        Instruction::Push(v) => Some(GenState { stack: s.stack + seq![v], ..s }),
        Instruction::Plus => {
            if s.stack.len() < 2 {
                None
            } else {
                let rax = s.stack.last();
                let rbx = s.stack.drop_last().last();
                Some(
                    GenState {
                        stack: s.stack.drop_last().drop_last() + seq![wrap_add(rax, rbx)],
                        ..s
                    },
                )
            }
        },
        Instruction::Minus => {
            if s.stack.len() < 2 {
                None
            } else {
                let rax = s.stack.last();
                let rbx = s.stack.drop_last().last();
                Some(
                    GenState {
                        stack: s.stack.drop_last().drop_last() + seq![wrap_sub(rbx, rax)],
                        ..s
                    },
                )
            }
        },
        Instruction::Dump => {
            if s.stack.len() < 1 {
                None
            } else {
                Some(
                    GenState {
                        stack: s.stack.drop_last(),
                        printed: s.printed + seq![s.stack.last()],
                    },
                )
            }
        },
    }
}

/// The state the generated code reaches after the blocks of `prog` from
/// index `k` on, starting from `s`; `None` once any block underflows.
pub open spec fn gen_run_from(prog: Seq<Instruction>, k: int, s: GenState) -> Option<GenState>
    decreases prog.len() - k,
{
    if k < 0 || k >= prog.len() {
        Some(s)
    } else {
        match block_effect(prog[k], s) {
            Option::None => None,
            Option::Some(s2) => gen_run_from(prog, k + 1, s2),
        }
    }
}

/// The state the generated code reaches after a whole program's blocks,
/// starting from an empty stack with nothing printed.
pub open spec fn gen_run(prog: Seq<Instruction>) -> Option<GenState> {
    gen_run_from(prog, 0, GenState { stack: Seq::empty(), printed: Seq::empty() })
}

/// The arithmetic blocks wrap at 32 bits exactly as the interpreter does:
/// on any stack with two operands, the block emitted for `Plus` or `Minus`
/// leaves the stack the interpreter's step leaves.
pub proof fn lemma_arith_wraparound_agrees(ins: Instruction, stack: Seq<i32>, output: Seq<i32>)
    requires
        ins is Plus || ins is Minus,
        stack.len() >= 2,
    ensures
        block_effect(ins, GenState { stack, printed: output }) == Some(
            GenState {
                stack: step(RunState { stack, output, ok: true }, ins).stack,
                printed: output,
            },
        ),
{
    let after = block_effect(ins, GenState { stack, printed: output }).unwrap();
    assert(after.stack =~= step(RunState { stack, output, ok: true }, ins).stack);
}

proof fn lemma_backends_agree_from(prog: Seq<Instruction>, k: int, stack: Seq<i32>, output: Seq<
    i32,
>)
    requires
        0 <= k <= prog.len(),
        run_from(prog, k, RunState { stack, output, ok: true }).ok,
    ensures
        gen_run_from(prog, k, GenState { stack, printed: output }) == Some(
            GenState {
                stack: run_from(prog, k, RunState { stack, output, ok: true }).stack,
                printed: run_from(prog, k, RunState { stack, output, ok: true }).output,
            },
        ),
    decreases prog.len() - k,
{
    let rs = RunState { stack, output, ok: true };
    if k < prog.len() {
        let rs2 = step(rs, prog[k]);
        if !rs2.ok {
            lemma_run_from_faulted(prog, k + 1, rs2);
            assert(false);
        }
        let gs2 = block_effect(prog[k], GenState { stack, printed: output });
        assert(gs2 is Some);
        assert(gs2.unwrap().stack =~= rs2.stack);
        assert(gs2.unwrap().printed =~= rs2.output);
        lemma_backends_agree_from(prog, k + 1, rs2.stack, rs2.output);
    }
}

/// Cross-backend equivalence: on any program the interpreter completes
/// without underflow, the generated code's blocks print exactly the values
/// the interpreter prints, in the same order, and leave the same operand
/// stack — in particular `Plus` and `Minus` overflow identically in both
/// backends.
pub proof fn lemma_backends_agree(prog: Seq<Instruction>)
    requires
        run(prog).ok,
    ensures
        gen_run(prog) is Some,
        gen_run(prog).unwrap().printed == run(prog).output,
        gen_run(prog).unwrap().stack == run(prog).stack,
{
    lemma_backends_agree_from(prog, 0, Seq::empty(), Seq::empty());
}

} // verus!
