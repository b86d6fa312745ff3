//! The interpreter: a program executed against a fresh operand stack,
//! printing one decimal line per `Dump`.

use vstd::prelude::*;
use vstd::string::StringExecFns;

use crate::instr::Instruction;
use crate::numtext::i32_dec_seq;
use crate::numtext::i32_to_string;

verus! {

/// The interpreter's state: the operand stack (top at the end), the values
/// printed so far, and whether execution is still sound — `ok` turns false
/// on the first stack underflow and the run is then over.
pub struct RunState {
    pub stack: Seq<i32>,
    pub output: Seq<i32>,
    pub ok: bool,
}

/// The state a run starts from: empty stack, nothing printed.
pub open spec fn init_state() -> RunState {
    RunState { stack: Seq::empty(), output: Seq::empty(), ok: true }
}

/// 32-bit signed wraparound addition, the arithmetic of `Plus`.
pub open spec fn wrap_add(a: i32, b: i32) -> i32 {
    vstd::wrapping::i32_specs::wrapping_add(a, b)
}

/// 32-bit signed wraparound subtraction, the arithmetic of `Minus`.
pub open spec fn wrap_sub(a: i32, b: i32) -> i32 {
    vstd::wrapping::i32_specs::wrapping_sub(a, b)
}

/// One interpreter step. `Push` grows the stack; `Plus` and `Minus` pop the
/// top value `a` and the next value `b` and push `a + b` and `b - a`
/// respectively, with 32-bit wraparound; `Dump` pops and prints the top.
/// An instruction that needs more operands than the stack holds faults the
/// state, and a faulted state absorbs every further step.
pub open spec fn step(s: RunState, ins: Instruction) -> RunState {
    if !s.ok {
        s
    } else {
        match ins {
            Instruction::Push(v) => RunState { stack: s.stack.push(v), ..s },
            Instruction::Plus => {
                if s.stack.len() >= 2 {
                    let a = s.stack.last();
                    let b = s.stack[s.stack.len() - 2];
                    RunState {
                        stack: s.stack.take(s.stack.len() - 2).push(wrap_add(a, b)),
                        ..s
                    }
                } else {
                    RunState { ok: false, ..s }
                }
            },
            Instruction::Minus => {
                if s.stack.len() >= 2 {
                    let a = s.stack.last();
                    let b = s.stack[s.stack.len() - 2];
                    RunState {
                        stack: s.stack.take(s.stack.len() - 2).push(wrap_sub(b, a)),
                        ..s
                    }
                } else {
                    RunState { ok: false, ..s }
                }
            },
            Instruction::Dump => {
                if s.stack.len() >= 1 {
                    RunState {
                        stack: s.stack.drop_last(),
                        output: s.output.push(s.stack.last()),
                        ..s
                    }
                } else {
                    RunState { ok: false, ..s }
                }
            },
        }
    }
}

/// Run the instructions of `prog` from index `k` on, starting in state `s`.
pub open spec fn run_from(prog: Seq<Instruction>, k: int, s: RunState) -> RunState
    decreases prog.len() - k,
{
    if k < 0 || k >= prog.len() {
        s
    } else {
        run_from(prog, k + 1, step(s, prog[k]))
    }
}

/// The state a whole program ends in, starting from the initial state.
pub open spec fn run(prog: Seq<Instruction>) -> RunState {
    run_from(prog, 0, init_state())
}

/// A faulted state absorbs the rest of the run.
pub proof fn lemma_run_from_faulted(prog: Seq<Instruction>, k: int, s: RunState)
    requires
        !s.ok,
    ensures
        run_from(prog, k, s) == s,
    decreases prog.len() - k,
{
    if 0 <= k < prog.len() {
        lemma_run_from_faulted(prog, k + 1, s);
    }
}

/// Stack underflow: an instruction needed more operands than the stack
/// held. Carries the values printed before the fault.
#[derive(Debug)]
pub struct StackUnderflow {
    pub output: Vec<i32>,
}

/// Execute a program against a fresh operand stack. Returns the printed
/// values in print order, or the underflow fault with everything printed
/// before it; the run succeeds exactly when no instruction underflows.
pub fn simulate_program(program: &Vec<Instruction>) -> (r: Result<Vec<i32>, StackUnderflow>)
    ensures
        r is Ok <==> run(program@).ok,
        r matches Ok(out) ==> out@ == run(program@).output,
        r matches Err(e) ==> e.output@ == run(program@).output,
{
    let mut stack: Vec<i32> = Vec::new();
    let mut out: Vec<i32> = Vec::new();
    let mut i: usize = 0;
    while i < program.len()
        invariant
            0 <= i <= program@.len(),
            run_from(
                program@,
                i as int,
                RunState { stack: stack@, output: out@, ok: true },
            ) == run(program@),
        decreases program@.len() - i,
    {
        let ghost cur = RunState { stack: stack@, output: out@, ok: true };
        let ghost ins_spec = program@[i as int];
        let ins = program[i];
        match ins {
            Instruction::Push(v) => {
                stack.push(v);
                proof {
                    assert(stack@ =~= step(cur, ins_spec).stack);
                }
            },
            Instruction::Plus => {
                if stack.len() < 2 {
                    proof {
                        lemma_run_from_faulted(program@, i + 1, step(cur, ins_spec));
                    }
                    return Err(StackUnderflow { output: out });
                }
                let a = stack.pop().unwrap();
                let b = stack.pop().unwrap();
                stack.push(a.wrapping_add(b));
                proof {
                    assert(stack@ =~= step(cur, ins_spec).stack);
                }
            },
            Instruction::Minus => {
                if stack.len() < 2 {
                    proof {
                        lemma_run_from_faulted(program@, i + 1, step(cur, ins_spec));
                    }
                    return Err(StackUnderflow { output: out });
                }
                let a = stack.pop().unwrap();
                let b = stack.pop().unwrap();
                stack.push(b.wrapping_sub(a));
                proof {
                    assert(stack@ =~= step(cur, ins_spec).stack);
                }
            },
            Instruction::Dump => {
                if stack.len() == 0 {
                    proof {
                        lemma_run_from_faulted(program@, i + 1, step(cur, ins_spec));
                    }
                    return Err(StackUnderflow { output: out });
                }
                let a = stack.pop().unwrap();
                out.push(a);
                proof {
                    assert(stack@ =~= step(cur, ins_spec).stack);
                    assert(out@ =~= step(cur, ins_spec).output);
                }
            },
        }
        i = i + 1;
    }
    Ok(out)
}

/// The text the interpreter prints for a sequence of dumped values: each
/// value's decimal representation followed by a newline, in print order.
pub open spec fn output_text(vals: Seq<i32>) -> Seq<char>
    decreases vals.len(),
{
    if vals.len() == 0 {
        Seq::empty()
    } else {
        output_text(vals.drop_last()) + i32_dec_seq(vals.last()) + seq!['\n']
    }
}

/// Render dumped values as the interpreter's standard output text.
pub fn render_output(vals: &Vec<i32>) -> (r: String)
    ensures
        r@ == output_text(vals@),
{
    let mut s = String::new();
    let mut i: usize = 0;
    while i < vals.len()
        invariant
            0 <= i <= vals@.len(),
            s@ == output_text(vals@.take(i as int)),
        decreases vals@.len() - i,
    {
        let t = i32_to_string(vals[i]);
        s.append(t.as_str());
        s.append("\n");
        proof {
            reveal_strlit("\n");
            assert(vals@.take(i + 1).drop_last() =~= vals@.take(i as int));
            assert(vals@.take(i + 1).last() == vals@[i as int]);
            assert(s@ =~= output_text(vals@.take(i + 1)));
        }
        i = i + 1;
    }
    proof {
        assert(vals@.take(vals@.len() as int) =~= vals@);
    }
    s
}

} // verus!
