//! The machine that instruction sequences are written for: what generated code
//! does to the tape, told one instruction at a time and without machine code.
//!
//! As in the interpreter, input and output stay outside: a step that writes hands
//! the byte out, and a step that reads waits until it is fed one.

use vstd::prelude::*;
use crate::interpreter::{RunEnd, Step};
use crate::parser::{
    balanced, closes_unopened, closing_nested, is_well_formed, loop_depth, opening_matched,
    parser, program_instructions, well_formed, Instruction, ParseError,
};
use crate::tape::{apply, fresh_memory, Tape, MEMORY_SIZE};

verus! {

/// What a machine holds, and where it stands: at which instruction, on what tape.
pub ghost struct MachineView {
    /// The instruction sequence that the machine runs.
    pub instructions: Seq<Instruction>,
    /// The index of the next instruction.
    pub pc: int,
    /// The tape.
    pub tape: Tape,
}

impl MachineView {
    /// The state in which the instruction sequence `instructions` starts: at its
    /// first instruction, on a fresh tape.
    pub open spec fn initial(instructions: Seq<Instruction>) -> MachineView {
        MachineView { instructions, pc: 0, tape: Tape::fresh() }
    }

    /// The state with the program continued at `pc`.
    pub open spec fn at(self, pc: int) -> MachineView {
        MachineView { pc, ..self }
    }

    /// The machine stands at an instruction that reads.
    pub open spec fn awaits_input(self) -> bool {
        0 <= self.pc < self.instructions.len() && self.instructions[self.pc] is ReadChar
    }

    /// One step: the state after it, and what it asks of the surroundings. A pointer
    /// or value instruction changes the tape, unless the cursor would leave it. A
    /// loop opening goes past its closing if the current cell is zero, and a loop
    /// closing goes back past its opening if it is not. A step that cannot be taken
    /// leaves the state as it is.
    pub open spec fn step(self) -> (MachineView, Step) {
        if self.pc < 0 || self.pc >= self.instructions.len() {
            (self, Step::Halt)
        } else {
            match self.instructions[self.pc] {
                Instruction::PutChar => (self.at(self.pc + 1), Step::Output(self.tape.current())),
                Instruction::ReadChar => (self, Step::Input),
                Instruction::LoopStart { end } => (
                    self.at(
                        if self.tape.current() == 0 {
                            end + 1
                        } else {
                            self.pc + 1
                        },
                    ),
                    Step::Continue,
                ),
                Instruction::LoopEnd { start } => (
                    self.at(
                        if self.tape.current() != 0 {
                            start + 1
                        } else {
                            self.pc + 1
                        },
                    ),
                    Step::Continue,
                ),
                Instruction::End => (self, Step::Halt),
                arithmetic => {
                    let tape = apply(arithmetic, self.tape);
                    if tape.in_range() {
                        (MachineView { pc: self.pc + 1, tape, ..self }, Step::Continue)
                    } else {
                        (self, Step::CursorOutOfRange)
                    }
                },
            }
        }
    }

    /// The state after `byte` has been fed to a machine that stands at a reading
    /// instruction: the byte is in the current cell and the instruction is passed.
    /// Otherwise the state is unchanged.
    pub open spec fn feed(self, byte: u8) -> MachineView {
        if self.awaits_input() {
            MachineView { pc: self.pc + 1, tape: self.tape.store(byte), ..self }
        } else {
            self
        }
    }
}

/// A finished execution: the state it ended in, the bytes it wrote, the number of
/// input bytes it read, and why it ended.
pub ghost struct Execution {
    pub state: MachineView,
    pub output: Seq<u8>,
    pub consumed: nat,
    pub end: RunEnd,
}

impl Execution {
    /// An execution that ends at once in `state`.
    pub open spec fn ended(state: MachineView, end: RunEnd) -> Execution {
        Execution { state, output: Seq::empty(), consumed: 0, end }
    }

    /// The execution with `bytes` written before it.
    pub open spec fn after_output(self, bytes: Seq<u8>) -> Execution {
        Execution { output: bytes + self.output, ..self }
    }

    /// The execution with one input byte read before it.
    pub open spec fn after_input(self) -> Execution {
        Execution { consumed: self.consumed + 1, ..self }
    }
}

/// The execution of at most `steps` steps from `state`, with `input` to read from.
/// Being fed a byte counts as a step.
pub open spec fn execution_of(state: MachineView, input: Seq<u8>, steps: nat) -> Execution
    decreases steps,
{
    if steps == 0 {
        Execution::ended(state, RunEnd::OutOfSteps)
    } else {
        let (next, event) = state.step();
        match event {
            Step::Continue => execution_of(next, input, (steps - 1) as nat),
            Step::Output(byte) => execution_of(next, input, (steps - 1) as nat).after_output(
                seq![byte],
            ),
            Step::Input => if input.len() > 0 {
                execution_of(
                    state.feed(input[0]),
                    input.drop_first(),
                    (steps - 1) as nat,
                ).after_input()
            } else {
                Execution::ended(state, RunEnd::InputExhausted)
            },
            Step::Halt => Execution::ended(state, RunEnd::Finished),
            Step::CursorOutOfRange => Execution::ended(state, RunEnd::CursorOutOfRange),
            Step::UnbalancedLoop => Execution::ended(state, RunEnd::UnbalancedLoop),
        }
    }
}

/// A machine in the middle of an instruction sequence.
#[derive(Debug)]
pub struct Machine {
    instructions: Vec<Instruction>,
    pc: usize,
    memory: Vec<u8>,
    dp: usize,
}

impl View for Machine {
    type V = MachineView;

    closed spec fn view(&self) -> MachineView {
        MachineView {
            instructions: self.instructions@,
            pc: self.pc as int,
            tape: Tape { cells: self.memory@, cursor: self.dp as int },
        }
    }
}

impl Machine {
    #[verifier::type_invariant]
    spec fn wf(&self) -> bool {
        &&& well_formed(self.instructions@)
        &&& self.pc <= self.instructions@.len()
        &&& self.memory@.len() == MEMORY_SIZE
        &&& self.dp < MEMORY_SIZE
    }

    /// A machine at the start of the program `program`.
    ///
    /// The text is turned down, as by [`parser`], if its loops do not balance.
    pub fn new(program: &str) -> (result: Result<Machine, ParseError>)
        ensures
            match result {
                Ok(machine) => {
                    &&& balanced(program@)
                    &&& machine@ == MachineView::initial(program_instructions(program@))
                },
                Err(ParseError::UnmatchedLoopEnd) => closes_unopened(program@),
                Err(ParseError::UnclosedLoopStart) => !closes_unopened(program@) && loop_depth(
                    program@,
                ) > 0,
            },
    {
        match parser(program) {
            Ok(instructions) => Ok(
                Machine { instructions, pc: 0, memory: fresh_memory(), dp: MEMORY_SIZE / 2 },
            ),
            Err(e) => Err(e),
        }
    }

    /// A machine at the start of a given instruction sequence; `None` if the
    /// sequence is not well formed.
    pub fn from_instructions(instructions: Vec<Instruction>) -> (result: Option<Machine>)
        ensures
            match result {
                Some(machine) => {
                    &&& well_formed(instructions@)
                    &&& machine@ == MachineView::initial(instructions@)
                },
                None => !well_formed(instructions@),
            },
    {
        if is_well_formed(&instructions) {
            Some(Machine { instructions, pc: 0, memory: fresh_memory(), dp: MEMORY_SIZE / 2 })
        } else {
            None
        }
    }

    /// The instruction sequence that the machine runs.
    pub fn instructions(&self) -> (instructions: &Vec<Instruction>)
        ensures
            instructions@ == self@.instructions,
    {
        &self.instructions
    }

    /// The tape's cells.
    pub fn memory(&self) -> (memory: &Vec<u8>)
        ensures
            memory@ == self@.tape.cells,
    {
        &self.memory
    }

    /// The index of the current cell.
    pub fn cursor(&self) -> (cursor: usize)
        ensures
            cursor == self@.tape.cursor,
    {
        self.dp
    }

    /// Takes one step, and says what the step asks of the surroundings.
    ///
    /// At a reading instruction the machine waits: it stays where it is and returns
    /// `Input` until it is fed a byte. At `End` it returns `Halt`. A pointer motion
    /// that would move the cursor off the tape is not carried out.
    pub fn step(&mut self) -> (event: Step)
        ensures
            (final(self)@, event) == old(self)@.step(),
    {
        proof {
            use_type_invariant(&*self);
        }
        if self.pc >= self.instructions.len() {
            return Step::Halt;
        }
        proof {
            assert(opening_matched(self.instructions@, self.pc as int));
            assert(closing_nested(self.instructions@, self.pc as int));
        }
        match self.instructions[self.pc] {
            Instruction::PointerIncrement(n) => {
                if n as usize >= MEMORY_SIZE - self.dp {
                    return Step::CursorOutOfRange;
                }
                self.dp = self.dp + n as usize;
            },
            Instruction::PointerDecrement(n) => {
                if n as usize > self.dp {
                    return Step::CursorOutOfRange;
                }
                self.dp = self.dp - n as usize;
            },
            Instruction::ValueIncrement(n) => {
                let value = self.memory[self.dp].wrapping_add(n);
                self.memory[self.dp] = value;
            },
            Instruction::ValueDecrement(n) => {
                let value = self.memory[self.dp].wrapping_sub(n);
                self.memory[self.dp] = value;
            },
            Instruction::PutChar => {
                self.pc = self.pc + 1;
                return Step::Output(self.memory[self.dp]);
            },
            Instruction::ReadChar => {
                return Step::Input;
            },
            Instruction::LoopStart { end } => {
                if self.memory[self.dp] == 0 {
                    self.pc = end;
                }
            },
            Instruction::LoopEnd { start } => {
                if self.memory[self.dp] != 0 {
                    self.pc = start;
                }
            },
            Instruction::End => {
                return Step::Halt;
            },
        }
        self.pc = self.pc + 1;
        Step::Continue
    }

    /// Feeds `byte` to a machine that waits at a reading instruction: the byte goes
    /// to the current cell and the instruction is passed. A machine that does not
    /// wait takes nothing, and `false` is returned.
    pub fn feed(&mut self, byte: u8) -> (taken: bool)
        ensures
            taken == old(self)@.awaits_input(),
            final(self)@ == old(self)@.feed(byte),
    {
        proof {
            use_type_invariant(&*self);
        }
        if self.pc < self.instructions.len() {
            if let Instruction::ReadChar = self.instructions[self.pc] {
                self.memory[self.dp] = byte;
                self.pc = self.pc + 1;
                return true;
            }
        }
        false
    }

    /// Runs the program on, for at most `max_steps` steps, reading from `input`.
    /// Returns the bytes written and why the run ended.
    pub fn run(&mut self, input: &[u8], max_steps: usize) -> (result: (Vec<u8>, RunEnd))
        ensures
            final(self)@ == execution_of(old(self)@, input@, max_steps as nat).state,
            result.0@ == execution_of(old(self)@, input@, max_steps as nat).output,
            result.1 == execution_of(old(self)@, input@, max_steps as nat).end,
    {
        let (output, _, end) = self.run_counted(input, max_steps);
        (output, end)
    }

    /// Runs the program on as `run` does, and returns also the number of bytes
    /// that it read from `input`: a run that goes on after this one reads on from
    /// there.
    pub fn run_counted(&mut self, input: &[u8], max_steps: usize) -> (result: (
        Vec<u8>,
        usize,
        RunEnd,
    ))
        ensures
            execution_of(old(self)@, input@, max_steps as nat) == (Execution {
                state: final(self)@,
                output: result.0@,
                consumed: result.1 as nat,
                end: result.2,
            }),
            result.1 <= input@.len(),
    {
        let mut output: Vec<u8> = Vec::new();
        let mut consumed: usize = 0;
        let mut steps: usize = 0;
        let ghost whole = execution_of(self@, input@, max_steps as nat);
        assert(input@.skip(0) =~= input@);
        assert(output@ + whole.output =~= whole.output);
        while steps < max_steps
            invariant
                steps <= max_steps,
                consumed <= input@.len(),
                whole == execution_of(old(self)@, input@, max_steps as nat),
                whole == behind(
                    output@,
                    consumed as nat,
                    execution_of(self@, input@.skip(consumed as int), (max_steps - steps) as nat),
                ),
            decreases max_steps - steps,
        {
            let ghost rest = input@.skip(consumed as int);
            let ghost remaining = (max_steps - steps - 1) as nat;
            let end = match self.step() {
                Step::Continue => None,
                Step::Output(byte) => {
                    proof {
                        let later = execution_of(self@, rest, remaining);
                        assert(output@ + (seq![byte] + later.output) =~= output@.push(byte)
                            + later.output);
                    }
                    output.push(byte);
                    None
                },
                Step::Input => {
                    if consumed < input.len() {
                        self.feed(input[consumed]);
                        consumed = consumed + 1;
                        assert(rest.drop_first() =~= input@.skip(consumed as int));
                        None
                    } else {
                        Some(RunEnd::InputExhausted)
                    }
                },
                Step::Halt => Some(RunEnd::Finished),
                Step::CursorOutOfRange => Some(RunEnd::CursorOutOfRange),
                Step::UnbalancedLoop => Some(RunEnd::UnbalancedLoop),
            };
            if let Some(end) = end {
                assert(output@ + Seq::<u8>::empty() =~= output@);
                return (output, consumed, end);
            }
            steps = steps + 1;
        }
        assert(output@ + Seq::<u8>::empty() =~= output@);
        (output, consumed, RunEnd::OutOfSteps)
    }
}

/// The execution `later` with `bytes` written and `read` input bytes read before it.
pub open spec fn behind(bytes: Seq<u8>, read: nat, later: Execution) -> Execution {
    Execution { output: bytes + later.output, consumed: read + later.consumed, ..later }
}

/// An execution that is cut off by the step bound can be taken up again: the
/// execution of `steps + more` steps is the execution of `steps` steps followed by
/// the execution of `more` steps from the state in which that ended, on the input
/// that it had not read.
pub proof fn lemma_execution_goes_on(
    state: MachineView,
    input: Seq<u8>,
    steps: nat,
    more: nat,
)
    requires
        execution_of(state, input, steps).end == RunEnd::OutOfSteps,
    ensures
        execution_of(state, input, steps).consumed <= input.len(),
        execution_of(state, input, steps + more) == behind(
            execution_of(state, input, steps).output,
            execution_of(state, input, steps).consumed,
            execution_of(
                execution_of(state, input, steps).state,
                input.skip(execution_of(state, input, steps).consumed as int),
                more,
            ),
        ),
    decreases steps,
{
    if steps == 0 {
        assert(input.skip(0) =~= input);
        assert(Seq::<u8>::empty() + execution_of(state, input, more).output
            =~= execution_of(state, input, more).output);
    } else {
        let fewer = (steps - 1) as nat;
        let (next, event) = state.step();
        match event {
            Step::Continue => {
                lemma_execution_goes_on(next, input, fewer, more);
            },
            Step::Output(byte) => {
                lemma_execution_goes_on(next, input, fewer, more);
                let inner = execution_of(next, input, fewer);
                let last = execution_of(inner.state, input.skip(inner.consumed as int), more);
                assert(seq![byte] + (inner.output + last.output) =~= (seq![byte] + inner.output)
                    + last.output);
            },
            Step::Input => {
                if input.len() > 0 {
                    let fed = state.feed(input[0]);
                    lemma_execution_goes_on(fed, input.drop_first(), fewer, more);
                    let inner = execution_of(fed, input.drop_first(), fewer);
                    assert(input.drop_first().skip(inner.consumed as int) =~= input.skip(
                        inner.consumed as int + 1,
                    ));
                }
            },
            _ => {},
        }
    }
}

} // verus!
