//! The interpreter and the machine agree: what a text does when it is interpreted
//! symbol by symbol, its folded instruction sequence does on the machine.
//!
//! The proof follows a run of the interpreter and lets the machine keep up: at the
//! start of every instruction both stand on the same tape, and inside a run of
//! pointer or value symbols the machine waits before the run's instruction while
//! the interpreter works through the run.

use vstd::prelude::*;
use crate::folding::{
    all_symbols, continues_run, foldable, folded_len, lemma_all_symbols_take, lemma_folded_last,
    lemma_folded_prefix, lemma_folded_single, lemma_folded_step, lemma_symbols,
};
use crate::interpreter::{
    is_symbol, matching_close, run_of, symbols, RunEnd, RuntimeView, Step,
};
use crate::machine::{execution_of, Execution, MachineView};
use crate::nesting::{
    lemma_open_loops_folded, lemma_scan_folded, lemma_text_open_after_close,
    lemma_text_open_behind, lemma_text_open_bounds, lemma_text_open_step, text_open,
};
use crate::parser::{
    folded, one_more, open_loops, program_instructions, unit_instruction, Instruction,
};
use crate::tape::{apply, unit_of, Tape, MEMORY_SIZE};

verus! {

/// The interpreter in state `direct` and the machine in state `machine` stand at
/// the same place of the program `text` on the same tape. With `inside`, the
/// interpreter is inside or just behind a run of pointer or value symbols, and the
/// machine stands before the run's instruction: what the run has done so far
/// would bring the machine's tape to the interpreter's.
spec fn keeps_up(text: Seq<char>, direct: RuntimeView, machine: MachineView, inside: bool) -> bool {
    let p = direct.pc;
    let passed = folded(text.take(p));
    &&& direct.instructions == text
    &&& machine.instructions == program_instructions(text)
    &&& all_symbols(text)
    &&& text.len() <= usize::MAX
    &&& 0 <= p <= text.len()
    &&& direct.tape.cells.len() == MEMORY_SIZE
    &&& machine.tape.cells.len() == MEMORY_SIZE
    &&& direct.tape.in_range()
    &&& machine.tape.in_range()
    &&& direct.jump_stack == text_open(text.take(p))
    &&& if inside {
        &&& p > 0
        &&& foldable(text[p - 1])
        &&& machine.pc == passed.len() - 1
        &&& apply(passed.last(), machine.tape) == direct.tape
    } else {
        &&& !continues_run(text, p)
        &&& machine.pc == passed.len()
        &&& machine.tape == direct.tape
    }
}

/// The two ended alike: for the same reason, with the same bytes written and as
/// many read, on the same tape.
pub open spec fn agree(folded: Execution, direct: crate::interpreter::Run) -> bool {
    &&& folded.end == direct.end
    &&& folded.output == direct.output
    &&& folded.consumed == direct.consumed
    &&& folded.state.tape == direct.state.tape
}

/// Adding one to a byte that already holds a sum modulo 256 is adding one more to
/// the sum; so for differences.
proof fn lemma_byte_steps(cell: u8, n: u8)
    ensures
        ((cell + n) % 256 + 1) % 256 == (cell + n.wrapping_add(1)) % 256,
        ((cell - n) % 256 - 1) % 256 == (cell - n.wrapping_add(1)) % 256,
{
    let more = n.wrapping_add(1) as int;
    assert(more == if n == 255 {
        0int
    } else {
        n + 1
    });
    assert(((cell + n) % 256 + 1) % 256 == (cell + more) % 256) by (nonlinear_arith)
        requires
            0 <= cell < 256,
            0 <= n < 256,
            more == if n == 255 {
                0int
            } else {
                n + 1
            },
    ;
    assert(((cell - n) % 256 - 1) % 256 == (cell - more) % 256) by (nonlinear_arith)
        requires
            0 <= cell < 256,
            0 <= n < 256,
            more == if n == 255 {
                0int
            } else {
                n + 1
            },
    ;
}

/// A run of value steps with one more step folded in does what the run and then
/// the step do.
proof fn lemma_one_more_value(up: bool, n: u8, tape: Tape)
    requires
        tape.in_range(),
    ensures
        up ==> apply(Instruction::ValueIncrement(n.wrapping_add(1)), tape) == apply(
            Instruction::ValueIncrement(1),
            apply(Instruction::ValueIncrement(n), tape),
        ),
        !up ==> apply(Instruction::ValueDecrement(n.wrapping_add(1)), tape) == apply(
            Instruction::ValueDecrement(1),
            apply(Instruction::ValueDecrement(n), tape),
        ),
{
    let cell = tape.current();
    lemma_byte_steps(cell, n);
    if up {
        let once = apply(Instruction::ValueIncrement(n), tape);
        let twice = apply(Instruction::ValueIncrement(1), once);
        let both = apply(Instruction::ValueIncrement(n.wrapping_add(1)), tape);
        assert(once.current() == ((cell + n) % 256) as u8);
        assert(twice.cells =~= both.cells);
    } else {
        let once = apply(Instruction::ValueDecrement(n), tape);
        let twice = apply(Instruction::ValueDecrement(1), once);
        let both = apply(Instruction::ValueDecrement(n.wrapping_add(1)), tape);
        assert(once.current() == ((cell - n) % 256) as u8);
        assert(twice.cells =~= both.cells);
    }
}

/// A run's instruction with one more step folded in does what the instruction and
/// then the step do, as long as the cursor stays on the tape.
proof fn lemma_one_more(run: Instruction, c: char, tape: Tape)
    requires
        foldable(c),
        unit_of(run) == unit_instruction(c)->0,
        tape.cells.len() == MEMORY_SIZE,
        tape.in_range(),
        apply(run, tape).in_range(),
        apply(unit_instruction(c)->0, apply(run, tape)).in_range(),
    ensures
        apply(one_more(run), tape) == apply(unit_instruction(c)->0, apply(run, tape)),
{
    match run {
        Instruction::ValueIncrement(n) => {
            lemma_one_more_value(true, n, tape);
        },
        Instruction::ValueDecrement(n) => {
            lemma_one_more_value(false, n, tape);
        },
        Instruction::PointerIncrement(n) => {
            assert(n < MEMORY_SIZE);
        },
        Instruction::PointerDecrement(n) => {
            assert(n < MEMORY_SIZE);
        },
        _ => {},
    }
}

/// Inside a run, the interpreter takes the next symbol of the run and the machine
/// waits.
proof fn lemma_inside_run(text: Seq<char>, direct: RuntimeView, machine: MachineView)
    requires
        keeps_up(text, direct, machine, true),
        continues_run(text, direct.pc),
        direct.step().1 == Step::Continue,
    ensures
        keeps_up(text, direct.step().0, machine, true),
{
    let p = direct.pc;
    lemma_folded_step(text, p);
    lemma_text_open_step(text, p);
    lemma_all_symbols_take(text, p);
    lemma_folded_last(text.take(p));
    assert(text.take(p).last() == text[p - 1]);
    lemma_one_more(folded(text.take(p)).last(), text[p], machine.tape);
}

/// Behind a run, the machine carries out the run's instruction and stands where the
/// interpreter stands.
proof fn lemma_behind_run(text: Seq<char>, direct: RuntimeView, machine: MachineView)
    requires
        keeps_up(text, direct, machine, true),
        !continues_run(text, direct.pc),
    ensures
        machine.step().1 == Step::Continue,
        keeps_up(text, direct, machine.step().0, false),
{
    let p = direct.pc;
    let passed = folded(text.take(p));
    lemma_all_symbols_take(text, p);
    lemma_folded_last(text.take(p));
    assert(text.take(p).last() == text[p - 1]);
    lemma_folded_prefix(text, p, text.len() as int);
    assert(text.take(text.len() as int) =~= text);
    assert(folded(text).take(passed.len() as int)[passed.len() - 1] == folded(text)[passed.len() - 1]);
    assert(is_symbol(text[p - 1]));
}

/// At the start of a run, the interpreter takes the run's first symbol and the
/// machine waits.
proof fn lemma_into_run(text: Seq<char>, direct: RuntimeView, machine: MachineView)
    requires
        keeps_up(text, direct, machine, false),
        direct.pc < text.len(),
        foldable(text[direct.pc]),
        direct.step().1 == Step::Continue,
    ensures
        keeps_up(text, direct.step().0, machine, true),
{
    let p = direct.pc;
    lemma_folded_step(text, p);
    lemma_text_open_step(text, p);
}

/// At the end of the text, both halt.
proof fn lemma_at_end(text: Seq<char>, direct: RuntimeView, machine: MachineView)
    requires
        keeps_up(text, direct, machine, false),
        direct.pc == text.len(),
    ensures
        direct.step() == (direct, Step::Halt),
        machine.step() == (machine, Step::Halt),
{
    assert(text.take(text.len() as int) =~= text);
}

/// At a `.`, both write the current cell and go on.
proof fn lemma_at_output(text: Seq<char>, direct: RuntimeView, machine: MachineView)
    requires
        keeps_up(text, direct, machine, false),
        direct.pc < text.len(),
        text[direct.pc] == '.',
    ensures
        direct.step().1 == Step::Output(direct.tape.current()),
        machine.step().1 == Step::Output(direct.tape.current()),
        keeps_up(text, direct.step().0, machine.step().0, false),
{
    let p = direct.pc;
    lemma_folded_single(text, p);
    lemma_text_open_step(text, p);
}

/// At a `,`, both wait, and both take the byte that they are fed.
proof fn lemma_at_input(text: Seq<char>, direct: RuntimeView, machine: MachineView, byte: u8)
    requires
        keeps_up(text, direct, machine, false),
        direct.pc < text.len(),
        text[direct.pc] == ',',
    ensures
        direct.step() == (direct, Step::Input),
        machine.step() == (machine, Step::Input),
        keeps_up(text, direct.feed(byte), machine.feed(byte), false),
{
    let p = direct.pc;
    lemma_folded_single(text, p);
    lemma_text_open_step(text, p);
}

/// At a `[`, both skip the loop if the current cell is zero, and both enter it
/// otherwise.
proof fn lemma_at_loop_start(text: Seq<char>, direct: RuntimeView, machine: MachineView)
    requires
        keeps_up(text, direct, machine, false),
        direct.pc < text.len(),
        text[direct.pc] == '[',
        direct.step().1 == Step::Continue,
    ensures
        machine.step().1 == Step::Continue,
        keeps_up(text, direct.step().0, machine.step().0, false),
{
    let p = direct.pc;
    let shape = folded(text);
    lemma_folded_single(text, p);
    lemma_text_open_step(text, p);
    lemma_all_symbols_take(text, p);
    lemma_folded_last(text);
    if direct.tape.current() == 0 {
        let close = matching_close(text, p + 1, 0);
        lemma_text_open_after_close(text, p + 1, 0);
        lemma_scan_folded(text, p + 1, 0);
        lemma_folded_step(text, p + 1);
        lemma_folded_single(text, close);
        assert(text_open(text.take(p)).push(p as usize).take(text_open(text.take(p)).len() as int)
            =~= text_open(text.take(p)));
    }
}

/// At a `]`, both go back into the loop if the current cell is not zero, and both
/// leave it otherwise.
proof fn lemma_at_loop_end(text: Seq<char>, direct: RuntimeView, machine: MachineView)
    requires
        keeps_up(text, direct, machine, false),
        direct.pc < text.len(),
        text[direct.pc] == ']',
        direct.step().1 == Step::Continue,
    ensures
        machine.step().1 == Step::Continue,
        keeps_up(text, direct.step().0, machine.step().0, false),
{
    let p = direct.pc;
    let shape = folded(text);
    let before = text.take(p);
    lemma_folded_single(text, p);
    lemma_text_open_step(text, p);
    lemma_all_symbols_take(text, p);
    lemma_folded_last(text);
    if direct.tape.current() != 0 {
        let open = text_open(before);
        let s = open.last() as int;
        lemma_text_open_bounds(before);
        lemma_text_open_behind(before, open.len() - 1);
        lemma_open_loops_folded(before);
        assert(before.take(s) =~= text.take(s));
        assert(before.take(s + 1) =~= text.take(s + 1));
        assert(open.take(open.len() as int) =~= open);
        assert(before[s] == text[s]);
        lemma_folded_single(text, s);
        assert(open_loops(folded(before))[open.len() - 1] == folded_len(before, s));
    }
}

/// An execution that has come to its end is not changed by more steps.
proof fn lemma_more_steps(
    state: MachineView,
    input: Seq<u8>,
    steps: nat,
    more: nat,
)
    requires
        execution_of(state, input, steps).end != RunEnd::OutOfSteps,
    ensures
        execution_of(state, input, steps + more) == execution_of(state, input, steps),
    decreases steps,
{
    if steps > 0 {
        let (next, event) = state.step();
        match event {
            Step::Continue => {
                lemma_more_steps(next, input, (steps - 1) as nat, more);
            },
            Step::Output(byte) => {
                lemma_more_steps(next, input, (steps - 1) as nat, more);
            },
            Step::Input => {
                if input.len() > 0 {
                    lemma_more_steps(state.feed(input[0]),
                        input.drop_first(),
                        (steps - 1) as nat,
                        more,
                    );
                }
            },
            _ => {},
        }
    }
}

/// From states in which the machine keeps up with the interpreter, a run of the
/// interpreter that ends with the program or for want of input is matched by the
/// machine, in no more steps.
proof fn lemma_keeping_up(
    text: Seq<char>,
    direct: RuntimeView,
    machine: MachineView,
    inside: bool,
    input: Seq<u8>,
    steps: nat,
)
    requires
        keeps_up(text, direct, machine, inside),
        run_of(direct, input, steps).end == RunEnd::Finished || run_of(direct, input, steps).end
            == RunEnd::InputExhausted,
    ensures
        agree(
            execution_of(
                machine,
                input,
                steps + if inside {
                    1nat
                } else {
                    0nat
                },
            ),
            run_of(direct, input, steps),
        ),
    decreases steps, (if inside {
        1nat
    } else {
        0nat
    }),
{
    let p = direct.pc;
    let (next, event) = direct.step();
    let fewer = (steps - 1) as nat;
    if inside {
        if continues_run(text, p) {
            lemma_inside_run(text, direct, machine);
            lemma_keeping_up(text, next, machine, true, input, fewer);
            lemma_more_steps(machine, input, steps, 1);
        } else {
            lemma_behind_run(text, direct, machine);
            lemma_keeping_up(text, direct, machine.step().0, false, input, steps);
        }
    } else if p == text.len() {
        lemma_at_end(text, direct, machine);
    } else {
        let c = text[p];
        assert(is_symbol(c));
        if foldable(c) {
            lemma_into_run(text, direct, machine);
            lemma_keeping_up(text, next, machine, true, input, fewer);
        } else if c == '.' {
            lemma_at_output(text, direct, machine);
            lemma_keeping_up(text, next, machine.step().0, false, input, fewer);
        } else if c == ',' {
            if input.len() > 0 {
                lemma_at_input(text, direct, machine, input[0]);
                lemma_keeping_up(
                    text,
                    direct.feed(input[0]),
                    machine.feed(input[0]),
                    false,
                    input.drop_first(),
                    fewer,
                );
            } else {
                lemma_at_input(text, direct, machine, 0);
            }
        } else if c == '[' {
            lemma_at_loop_start(text, direct, machine);
            lemma_keeping_up(text, next, machine.step().0, false, input, fewer);
        } else {
            lemma_at_loop_end(text, direct, machine);
            lemma_keeping_up(text, next, machine.step().0, false, input, fewer);
        }
    }
}

/// Folding and loop resolution keep the meaning of a program. Whenever the
/// interpreter, started on the text, comes to the end of the program or stops for
/// want of input within `steps` steps, the machine, started on the text's
/// instruction sequence with the same input, ends within `steps` steps for the same
/// reason, having written the same bytes, on the same tape.
pub proof fn lemma_folded_program_runs_alike(text: Seq<char>, input: Seq<u8>, steps: nat)
    requires
        text.len() <= usize::MAX,
        run_of(RuntimeView::initial(text), input, steps).end == RunEnd::Finished || run_of(
            RuntimeView::initial(text),
            input,
            steps,
        ).end == RunEnd::InputExhausted,
    ensures
        agree(
            execution_of(MachineView::initial(program_instructions(text)), input, steps),
            run_of(RuntimeView::initial(text), input, steps),
        ),
{
    let kept = symbols(text);
    lemma_symbols(text);
    assert(kept.take(0) =~= Seq::<char>::empty());
    let start = MachineView::initial(program_instructions(text));
    assert(keeps_up(kept, RuntimeView::initial(text), start, false));
    lemma_keeping_up(kept, RuntimeView::initial(text), start, false, input, steps);
}

/// From states in which the machine keeps up with the interpreter, whatever the
/// interpreter has written and read after `steps` steps, the machine has written
/// and read after some number of steps that is no greater, however the run goes on
/// or ends.
proof fn lemma_keeping_up_so_far(
    text: Seq<char>,
    direct: RuntimeView,
    machine: MachineView,
    inside: bool,
    input: Seq<u8>,
    steps: nat,
) -> (taken: nat)
    requires
        keeps_up(text, direct, machine, inside),
    ensures
        taken <= steps + if inside {
            1nat
        } else {
            0nat
        },
        execution_of(machine, input, taken).output == run_of(
            direct,
            input,
            steps,
        ).output,
        execution_of(machine, input, taken).consumed == run_of(
            direct,
            input,
            steps,
        ).consumed,
    decreases steps, (if inside {
        1nat
    } else {
        0nat
    }),
{
    let p = direct.pc;
    let (next, event) = direct.step();
    let fewer = (steps - 1) as nat;
    let mut taken: nat = 0;
    if steps == 0 {
    } else if inside {
        if continues_run(text, p) {
            if event == Step::Continue {
                lemma_inside_run(text, direct, machine);
                taken = lemma_keeping_up_so_far(text, next, machine, true, input, fewer);
            }
        } else {
            lemma_behind_run(text, direct, machine);
            let later = lemma_keeping_up_so_far(
                text,
                direct,
                machine.step().0,
                false,
                input,
                steps,
            );
            taken = later + 1;
        }
    } else if p == text.len() {
        lemma_at_end(text, direct, machine);
    } else {
        let c = text[p];
        assert(is_symbol(c));
        if foldable(c) {
            if event == Step::Continue {
                lemma_into_run(text, direct, machine);
                taken = lemma_keeping_up_so_far(text, next, machine, true, input, fewer);
            }
        } else if c == '.' {
            lemma_at_output(text, direct, machine);
            let later = lemma_keeping_up_so_far(
                text,
                next,
                machine.step().0,
                false,
                input,
                fewer,
            );
            taken = later + 1;
        } else if c == ',' {
            if input.len() > 0 {
                lemma_at_input(text, direct, machine, input[0]);
                let later = lemma_keeping_up_so_far(
                    text,
                    direct.feed(input[0]),
                    machine.feed(input[0]),
                    false,
                    input.drop_first(),
                    fewer,
                );
                taken = later + 1;
            } else {
                lemma_at_input(text, direct, machine, 0);
            }
        } else if event == Step::Continue {
            if c == '[' {
                lemma_at_loop_start(text, direct, machine);
            } else {
                lemma_at_loop_end(text, direct, machine);
            }
            let later = lemma_keeping_up_so_far(
                text,
                next,
                machine.step().0,
                false,
                input,
                fewer,
            );
            taken = later + 1;
        }
    }
    taken
}

/// Folding and loop resolution keep what a program writes, also where the program
/// does not end. Whatever the interpreter, started on the text, has written and
/// read after `steps` steps, the machine, started on the text's instruction
/// sequence with the same input, has written and read after some number of steps
/// that is no greater.
pub proof fn lemma_folded_program_writes_alike(text: Seq<char>, input: Seq<u8>, steps: nat)
    requires
        text.len() <= usize::MAX,
    ensures
        exists|taken: nat|
            {
                &&& taken <= steps
                &&& (#[trigger] execution_of(
                    MachineView::initial(program_instructions(text)),
                    input,
                    taken,
                )).output == run_of(RuntimeView::initial(text), input, steps).output
                &&& execution_of(
                    MachineView::initial(program_instructions(text)),
                    input,
                    taken,
                ).consumed == run_of(RuntimeView::initial(text), input, steps).consumed
            },
{
    let taken = lemma_machine_steps_so_far(text, input, steps);
}

/// A number of machine steps after which the machine has written and read what the
/// interpreter has after `steps` steps.
pub proof fn lemma_machine_steps_so_far(text: Seq<char>, input: Seq<u8>, steps: nat) -> (taken: nat)
    requires
        text.len() <= usize::MAX,
    ensures
        taken <= steps,
        execution_of(MachineView::initial(program_instructions(text)), input, taken).output
            == run_of(RuntimeView::initial(text), input, steps).output,
        execution_of(MachineView::initial(program_instructions(text)), input, taken).consumed
            == run_of(RuntimeView::initial(text), input, steps).consumed,
{
    let kept = symbols(text);
    lemma_symbols(text);
    assert(kept.take(0) =~= Seq::<char>::empty());
    let start = MachineView::initial(program_instructions(text));
    assert(keeps_up(kept, RuntimeView::initial(text), start, false));
    lemma_keeping_up_so_far(
        kept,
        RuntimeView::initial(text),
        start,
        false,
        input,
        steps,
    )
}

} // verus!
