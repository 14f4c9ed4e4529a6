//! A direct interpreter of source text: one symbol at a time, nothing folded, loops
//! found by scanning. It says what a program means, step by step.
//!
//! Input and output stay outside: a step that writes hands the byte out, and a step
//! that reads waits until it is fed one.

use vstd::prelude::*;
use crate::parser::unit_instruction;
use crate::tape::{apply, fresh_memory, Tape};
pub use crate::tape::MEMORY_SIZE;

verus! {

/// Whether `c` is one of the eight symbols of the language.
pub open spec fn is_symbol(c: char) -> bool {
    unit_instruction(c) is Some
}

/// The symbols of `text`, in order, with the commentary left out.
pub open spec fn symbols(text: Seq<char>) -> Seq<char>
    decreases text.len(),
{
    if text.len() == 0 {
        Seq::empty()
    } else if is_symbol(text.last()) {
        symbols(text.drop_last()).push(text.last())
    } else {
        symbols(text.drop_last())
    }
}

/// The index of the first `]` at or after `from` that does not close a `[` met on
/// the way, `nesting` loops being already underway; `text.len()` if there is none.
pub open spec fn matching_close(text: Seq<char>, from: int, nesting: nat) -> int
    decreases text.len() - from,
{
    if from < 0 || from >= text.len() {
        text.len() as int
    } else if text[from] == ']' && nesting == 0 {
        from
    } else if text[from] == ']' {
        matching_close(text, from + 1, (nesting - 1) as nat)
    } else if text[from] == '[' {
        matching_close(text, from + 1, nesting + 1)
    } else {
        matching_close(text, from + 1, nesting)
    }
}

/// What one step of the interpreter asks of its surroundings.
#[derive(Debug, Clone, Copy, PartialEq, Eq, Structural)]
pub enum Step {
    /// Nothing: the step is done.
    Continue,
    /// The step is done, and this byte is to be written out.
    Output(u8),
    /// The interpreter stands at a `,` and waits to be fed a byte.
    Input,
    /// The program has run to its end.
    Halt,
    /// The next step would move the cursor off the tape.
    CursorOutOfRange,
    /// The next step needs the partner of a `[` or `]` that has none.
    UnbalancedLoop,
}

/// How a run of the interpreter came to its end.
#[derive(Debug, Clone, Copy, PartialEq, Eq, Structural)]
pub enum RunEnd {
    /// The program ran to its end.
    Finished,
    /// The program asked for a byte when the input was used up.
    InputExhausted,
    /// The allowed number of steps was taken.
    OutOfSteps,
    /// The program tried to move the cursor off the tape.
    CursorOutOfRange,
    /// The program needed the partner of a `[` or `]` that has none.
    UnbalancedLoop,
}

/// An interpreter in the middle of a program.
#[derive(Debug)]
pub struct Runtime {
    instructions: Vec<char>,
    pc: usize,
    jump_stack: Vec<usize>,
    memory: Vec<u8>,
    // Data pointer
    dp: usize,
}

/// What an interpreter holds.
pub ghost struct RuntimeView {
    /// The symbols of the program.
    pub instructions: Seq<char>,
    /// The index of the next symbol.
    pub pc: int,
    /// The indices of the `[` of the loops that have been entered and not left.
    pub jump_stack: Seq<usize>,
    /// The tape.
    pub tape: Tape,
}

impl RuntimeView {
    /// The state in which the program `text` starts: at its first symbol, in no
    /// loop, on a fresh tape.
    pub open spec fn initial(text: Seq<char>) -> RuntimeView {
        RuntimeView {
            instructions: symbols(text),
            pc: 0,
            jump_stack: Seq::empty(),
            tape: Tape::fresh(),
        }
    }

    /// The interpreter stands at a `,`.
    pub open spec fn awaits_input(self) -> bool {
        0 <= self.pc < self.instructions.len() && self.instructions[self.pc] == ','
    }

    /// The state with the next symbol passed.
    pub open spec fn advanced(self) -> RuntimeView {
        RuntimeView { pc: self.pc + 1, ..self }
    }

    /// The state after a pointer or value symbol `c`, and `CursorOutOfRange` with the
    /// state unchanged if the cursor would leave the tape.
    pub open spec fn after_arithmetic(self, c: char) -> (RuntimeView, Step) {
        let tape = apply(unit_instruction(c)->0, self.tape);
        if tape.in_range() {
            (RuntimeView { tape, ..self }.advanced(), Step::Continue)
        } else {
            (self, Step::CursorOutOfRange)
        }
    }

    /// The state after a `[`: if the current cell is zero, the loop is skipped, up
    /// to and including its `]`; otherwise the loop is entered.
    pub open spec fn after_loop_start(self) -> (RuntimeView, Step) {
        if self.tape.current() == 0 {
            let close = matching_close(self.instructions, self.pc + 1, 0);
            if close < self.instructions.len() {
                (RuntimeView { pc: close + 1, ..self }, Step::Continue)
            } else {
                (self, Step::UnbalancedLoop)
            }
        } else {
            (
                RuntimeView { jump_stack: self.jump_stack.push(self.pc as usize), ..self }.advanced(),
                Step::Continue,
            )
        }
    }

    /// The state after a `]`: if the current cell is not zero, the innermost entered
    /// loop is run again, from just behind its `[`; otherwise that loop is left.
    pub open spec fn after_loop_end(self) -> (RuntimeView, Step) {
        if self.tape.current() != 0 {
            if self.jump_stack.len() > 0 {
                (RuntimeView { pc: self.jump_stack.last() + 1, ..self }, Step::Continue)
            } else {
                (self, Step::UnbalancedLoop)
            }
        } else if self.jump_stack.len() > 0 {
            (RuntimeView { jump_stack: self.jump_stack.drop_last(), ..self }.advanced(), Step::Continue)
        } else {
            (self.advanced(), Step::Continue)
        }
    }

    /// One step: the state after it, and what it asks of the surroundings. A step
    /// that cannot be taken leaves the state as it is.
    pub open spec fn step(self) -> (RuntimeView, Step) {
        if self.pc < 0 || self.pc >= self.instructions.len() {
            (self, Step::Halt)
        } else {
            let c = self.instructions[self.pc];
            if c == '>' || c == '<' || c == '+' || c == '-' {
                self.after_arithmetic(c)
            } else if c == '.' {
                (self.advanced(), Step::Output(self.tape.current()))
            } else if c == ',' {
                (self, Step::Input)
            } else if c == '[' {
                self.after_loop_start()
            } else if c == ']' {
                self.after_loop_end()
            } else {
                (self.advanced(), Step::Continue)
            }
        }
    }

    /// The state after `byte` has been fed to an interpreter that stands at a `,`:
    /// the byte is in the current cell and the `,` is passed. Otherwise the state
    /// is unchanged.
    pub open spec fn feed(self, byte: u8) -> RuntimeView {
        if self.awaits_input() {
            RuntimeView { tape: self.tape.store(byte), ..self }.advanced()
        } else {
            self
        }
    }
}

/// A finished run: the state it ended in, the bytes it wrote, the number of input
/// bytes it read, and why it ended.
pub ghost struct Run {
    pub state: RuntimeView,
    pub output: Seq<u8>,
    pub consumed: nat,
    pub end: RunEnd,
}

impl Run {
    /// A run that ends at once in `state`.
    pub open spec fn ended(state: RuntimeView, end: RunEnd) -> Run {
        Run { state, output: Seq::empty(), consumed: 0, end }
    }

    /// The run with `bytes` written before it.
    pub open spec fn after_output(self, bytes: Seq<u8>) -> Run {
        Run { output: bytes + self.output, ..self }
    }

    /// The run with one input byte read before it.
    pub open spec fn after_input(self) -> Run {
        Run { consumed: self.consumed + 1, ..self }
    }
}

/// The run of at most `steps` steps from `state`, with `input` to read from. Being
/// fed a byte counts as a step.
pub open spec fn run_of(state: RuntimeView, input: Seq<u8>, steps: nat) -> Run
    decreases steps,
{
    if steps == 0 {
        Run::ended(state, RunEnd::OutOfSteps)
    } else {
        let (next, event) = state.step();
        match event {
            Step::Continue => run_of(next, input, (steps - 1) as nat),
            Step::Output(byte) => run_of(next, input, (steps - 1) as nat).after_output(seq![byte]),
            Step::Input => if input.len() > 0 {
                run_of(state.feed(input[0]), input.drop_first(), (steps - 1) as nat).after_input()
            } else {
                Run::ended(state, RunEnd::InputExhausted)
            },
            Step::Halt => Run::ended(state, RunEnd::Finished),
            Step::CursorOutOfRange => Run::ended(state, RunEnd::CursorOutOfRange),
            Step::UnbalancedLoop => Run::ended(state, RunEnd::UnbalancedLoop),
        }
    }
}

impl View for Runtime {
    type V = RuntimeView;

    closed spec fn view(&self) -> RuntimeView {
        RuntimeView {
            instructions: self.instructions@,
            pc: self.pc as int,
            jump_stack: self.jump_stack@,
            tape: Tape { cells: self.memory@, cursor: self.dp as int },
        }
    }
}

impl Runtime {
    /// The interpreter is in a state that it can be in.
    #[verifier::type_invariant]
    spec fn wf(&self) -> bool {
        &&& self.pc <= self.instructions@.len()
        &&& self.memory@.len() == MEMORY_SIZE
        &&& self.dp < MEMORY_SIZE
        &&& forall|p: int|
            0 <= p < self.jump_stack@.len() ==> (#[trigger] self.jump_stack@[p])
                < self.instructions@.len()
    }

    /// An interpreter at the start of the program `program`.
    pub fn new(program: &str) -> (runtime: Runtime)
        ensures
            runtime@ == RuntimeView::initial(program@),
    {
        let mut instructions: Vec<char> = Vec::new();
        for c in it: program.chars()
            invariant
                it.seq() == program@,
                instructions@ == symbols(program@.take(it.index() as int)),
        {
            proof {
                let read = program@.take(it.index() as int);
                assert(program@.take(it.index() + 1) =~= read.push(c));
                assert(read.push(c).drop_last() =~= read);
            }
            if c == '>' || c == '<' || c == '+' || c == '-' || c == '.' || c == ',' || c == '['
                || c == ']' {
                instructions.push(c);
            }
        }
        proof {
            assert(program@.take(program@.len() as int) =~= program@);
        }
        Runtime {
            instructions,
            pc: 0,
            jump_stack: Vec::new(),
            memory: fresh_memory(),
            dp: MEMORY_SIZE / 2,
        }
    }

    /// The symbols of the program.
    pub fn instructions(&self) -> (instructions: &Vec<char>)
        ensures
            instructions@ == self@.instructions,
    {
        &self.instructions
    }

    /// The tape's cells.
    pub fn memory(&self) -> (memory: &Vec<u8>)
        ensures
            memory@ == self@.tape.cells,
    {
        &self.memory
    }

    /// The index of the current cell.
    pub fn cursor(&self) -> (cursor: usize)
        ensures
            cursor == self@.tape.cursor,
    {
        self.dp
    }

    /// Finds the `]` that closes the `[` at the current position.
    fn find_close(&self) -> (close: usize)
        requires
            self@.pc < self@.instructions.len(),
        ensures
            close == matching_close(self@.instructions, self@.pc + 1, 0),
            close <= self@.instructions.len(),
    {
        proof {
            use_type_invariant(self);
        }
        let n = self.instructions.len();
        let mut at: usize = self.pc + 1;
        let mut nesting: usize = 0;
        while at < n
            invariant
                n == self.instructions@.len(),
                self.pc < at <= n,
                nesting <= at - self.pc - 1,
                matching_close(self.instructions@, self.pc + 1, 0) == matching_close(
                    self.instructions@,
                    at as int,
                    nesting as nat,
                ),
            decreases n - at,
        {
            let c = self.instructions[at];
            if c == ']' {
                if nesting == 0 {
                    return at;
                }
                nesting = nesting - 1;
            } else if c == '[' {
                nesting = nesting + 1;
            }
            at = at + 1;
        }
        n
    }

    /// Takes one step, and says what the step asks of the surroundings.
    ///
    /// At a `,` the interpreter waits: it stays where it is and returns `Input`
    /// until it is fed a byte. At the end of the program it returns `Halt`. A step
    /// that would move the cursor off the tape, or that needs the partner of a
    /// loop symbol that has none, is not taken.
    pub fn step(&mut self) -> (event: Step)
        ensures
            (final(self)@, event) == old(self)@.step(),
    {
        proof {
            use_type_invariant(&*self);
        }
        if self.pc >= self.instructions.len() {
            return Step::Halt;
        }
        let c = self.instructions[self.pc];
        if c == '>' {
            if self.dp + 1 >= MEMORY_SIZE {
                return Step::CursorOutOfRange;
            }
            self.dp = self.dp + 1;
        } else if c == '<' {
            if self.dp == 0 {
                return Step::CursorOutOfRange;
            }
            self.dp = self.dp - 1;
        } else if c == '+' {
            let value = self.memory[self.dp].wrapping_add(1);
            self.memory[self.dp] = value;
        } else if c == '-' {
            let value = self.memory[self.dp].wrapping_sub(1);
            self.memory[self.dp] = value;
        } else if c == '.' {
            self.pc = self.pc + 1;
            return Step::Output(self.memory[self.dp]);
        } else if c == ',' {
            return Step::Input;
        } else if c == '[' {
            if self.memory[self.dp] == 0 {
                let close = self.find_close();
                if close >= self.instructions.len() {
                    return Step::UnbalancedLoop;
                }
                self.pc = close;
            } else {
                let mut stack: Vec<usize> = Vec::new();
                core::mem::swap(&mut self.jump_stack, &mut stack);
                stack.push(self.pc);
                self.jump_stack = stack;
            }
        } else if c == ']' {
            if self.memory[self.dp] != 0 {
                let depth = self.jump_stack.len();
                if depth == 0 {
                    return Step::UnbalancedLoop;
                }
                self.pc = self.jump_stack[depth - 1];
            } else {
                let mut stack: Vec<usize> = Vec::new();
                core::mem::swap(&mut self.jump_stack, &mut stack);
                stack.pop();
                self.jump_stack = stack;
            }
        }
        self.pc = self.pc + 1;
        Step::Continue
    }

    /// Feeds `byte` to an interpreter that waits at a `,`: the byte goes to the
    /// current cell and the `,` is passed. An interpreter that does not wait takes
    /// nothing, and `false` is returned.
    pub fn feed(&mut self, byte: u8) -> (taken: bool)
        ensures
            taken == old(self)@.awaits_input(),
            final(self)@ == old(self)@.feed(byte),
    {
        proof {
            use_type_invariant(&*self);
        }
        if self.pc < self.instructions.len() && self.instructions[self.pc] == ',' {
            self.memory[self.dp] = byte;
            self.pc = self.pc + 1;
            true
        } else {
            false
        }
    }

    /// Runs the program on, for at most `max_steps` steps, reading from `input`.
    /// Returns the bytes written and why the run ended.
    pub fn run(&mut self, input: &[u8], max_steps: usize) -> (result: (Vec<u8>, RunEnd))
        ensures
            final(self)@ == run_of(old(self)@, input@, max_steps as nat).state,
            result.0@ == run_of(old(self)@, input@, max_steps as nat).output,
            result.1 == run_of(old(self)@, input@, max_steps as nat).end,
    {
        let (output, _, end) = self.run_counted(input, max_steps);
        (output, end)
    }

    /// Runs the program on as `run` does, and returns also the number of bytes
    /// that it read from `input`: a run that goes on after this one reads on from
    /// there.
    pub fn run_counted(&mut self, input: &[u8], max_steps: usize) -> (result: (
        Vec<u8>,
        usize,
        RunEnd,
    ))
        ensures
            run_of(old(self)@, input@, max_steps as nat) == (Run {
                state: final(self)@,
                output: result.0@,
                consumed: result.1 as nat,
                end: result.2,
            }),
            result.1 <= input@.len(),
    {
        let mut output: Vec<u8> = Vec::new();
        let mut consumed: usize = 0;
        let mut steps: usize = 0;
        let ghost whole = run_of(self@, input@, max_steps as nat);
        assert(input@.skip(0) =~= input@);
        assert(output@ + whole.output =~= whole.output);
        while steps < max_steps
            invariant
                steps <= max_steps,
                consumed <= input@.len(),
                whole == run_of(old(self)@, input@, max_steps as nat),
                whole == behind(
                    output@,
                    consumed as nat,
                    run_of(self@, input@.skip(consumed as int), (max_steps - steps) as nat),
                ),
            decreases max_steps - steps,
        {
            let ghost rest = input@.skip(consumed as int);
            let ghost remaining = (max_steps - steps - 1) as nat;
            let end = match self.step() {
                Step::Continue => None,
                Step::Output(byte) => {
                    proof {
                        let later = run_of(self@, rest, remaining);
                        assert(output@ + (seq![byte] + later.output) =~= output@.push(byte)
                            + later.output);
                    }
                    output.push(byte);
                    None
                },
                Step::Input => {
                    if consumed < input.len() {
                        self.feed(input[consumed]);
                        consumed = consumed + 1;
                        assert(rest.drop_first() =~= input@.skip(consumed as int));
                        None
                    } else {
                        Some(RunEnd::InputExhausted)
                    }
                },
                Step::Halt => Some(RunEnd::Finished),
                Step::CursorOutOfRange => Some(RunEnd::CursorOutOfRange),
                Step::UnbalancedLoop => Some(RunEnd::UnbalancedLoop),
            };
            if let Some(end) = end {
                assert(output@ + Seq::<u8>::empty() =~= output@);
                return (output, consumed, end);
            }
            steps = steps + 1;
        }
        assert(output@ + Seq::<u8>::empty() =~= output@);
        (output, consumed, RunEnd::OutOfSteps)
    }
}

/// The run `later` with `bytes` written and `read` input bytes read before it.
pub open spec fn behind(bytes: Seq<u8>, read: nat, later: Run) -> Run {
    Run { output: bytes + later.output, consumed: read + later.consumed, ..later }
}

/// A run that is cut off by the step bound can be taken up again: the run of
/// `steps + more` steps is the run of `steps` steps followed by the run of `more`
/// steps from the state in which that ended, on the input that it had not read.
pub proof fn lemma_run_goes_on(state: RuntimeView, input: Seq<u8>, steps: nat, more: nat)
    requires
        run_of(state, input, steps).end == RunEnd::OutOfSteps,
    ensures
        run_of(state, input, steps).consumed <= input.len(),
        run_of(state, input, steps + more) == behind(
            run_of(state, input, steps).output,
            run_of(state, input, steps).consumed,
            run_of(
                run_of(state, input, steps).state,
                input.skip(run_of(state, input, steps).consumed as int),
                more,
            ),
        ),
    decreases steps,
{
    let first = run_of(state, input, steps);
    if steps == 0 {
        assert(input.skip(0) =~= input);
        assert(Seq::<u8>::empty() + run_of(state, input, more).output =~= run_of(
            state,
            input,
            more,
        ).output);
    } else {
        let fewer = (steps - 1) as nat;
        let (next, event) = state.step();
        match event {
            Step::Continue => {
                lemma_run_goes_on(next, input, fewer, more);
            },
            Step::Output(byte) => {
                lemma_run_goes_on(next, input, fewer, more);
                let inner = run_of(next, input, fewer);
                let last = run_of(inner.state, input.skip(inner.consumed as int), more);
                assert(seq![byte] + (inner.output + last.output) =~= (seq![byte] + inner.output)
                    + last.output);
            },
            Step::Input => {
                if input.len() > 0 {
                    lemma_run_goes_on(state.feed(input[0]), input.drop_first(), fewer, more);
                    let inner = run_of(state.feed(input[0]), input.drop_first(), fewer);
                    assert(input.drop_first().skip(inner.consumed as int) =~= input.skip(
                        inner.consumed as int + 1,
                    ));
                }
            },
            _ => {},
        }
    }
}

} // verus!
