//! A model of the processor on generated code, and the proof that on this model the
//! code of an instruction sequence does what the sequence does on the machine.
//!
//! The model knows the instruction groups that the code generator emits and nothing
//! else. It keeps the tape in place of the processor's memory and the tape's cursor
//! in place of `rbx`, and it takes a call of a host routine for what the routine
//! does. It is a reading of the processor's manual, not the processor.

use vstd::prelude::*;
use crate::encoding::{
    code_offset, code_size, code_through, epilogue, instruction_code, le64, machine_code,
    partial_code, prologue, signed_le32, supported, HostRoutines,
};
use crate::compiler::compiles;
use crate::equivalence::{lemma_folded_program_runs_alike, lemma_machine_steps_so_far};
use crate::interpreter::{run_of, RunEnd, RuntimeView, Step};
use crate::machine::{execution_of, Execution, MachineView};
use crate::parser::{
    closing_nested, end_is_last, opening_matched, program_instructions, Instruction,
};
use crate::tape::Tape;

verus! {

/// The signed 32-bit number that four bytes hold in two's complement, least
/// significant byte first.
pub open spec fn signed_from_le32(b0: u8, b1: u8, b2: u8, b3: u8) -> int {
    let unsigned = b0 + 256 * b1 + 65536 * b2 + 16777216 * b3;
    if unsigned >= 0x8000_0000 {
        unsigned - 0x1_0000_0000
    } else {
        unsigned
    }
}

/// One instruction group of generated code.
pub ghost enum NativeOp {
    /// The prologue: the caller's frame is saved and the argument becomes the
    /// cursor.
    Enter,
    /// `add rbx, imm32`
    AddCursor(int),
    /// `add byte [rbx], imm8`
    AddCell(u8),
    /// `mov dil, [rbx]; mov r10, putchar; call r10`
    CallPutChar,
    /// `mov r10, readchar; call r10; mov [rbx], al`
    CallReadChar,
    /// `cmp byte [rbx], 0; je rel32`
    JumpIfZero(int),
    /// `cmp byte [rbx], 0; jne rel32`
    JumpIfNotZero(int),
    /// The epilogue: the caller's frame is restored and the function returns.
    Return,
}

impl NativeOp {
    /// The number of bytes that the group takes.
    pub open spec fn size(self) -> int {
        match self {
            NativeOp::Enter => 12,
            NativeOp::AddCursor(_) => 7,
            NativeOp::AddCell(_) => 3,
            NativeOp::CallPutChar => 16,
            NativeOp::CallReadChar => 15,
            NativeOp::JumpIfZero(_) => 9,
            NativeOp::JumpIfNotZero(_) => 9,
            NativeOp::Return => 10,
        }
    }
}

/// The bytes of `code` from `at` on begin with `pattern`.
pub open spec fn bytes_at(code: Seq<u8>, at: int, pattern: Seq<u8>) -> bool {
    &&& 0 <= at
    &&& at + pattern.len() <= code.len()
    &&& code.subrange(at, at + pattern.len()) == pattern
}

/// The four bytes of `code` from `at` on, read as a signed displacement.
pub open spec fn displacement_at(code: Seq<u8>, at: int) -> int {
    signed_from_le32(code[at], code[at + 1], code[at + 2], code[at + 3])
}

/// The instruction group that begins at `at`, if the bytes there are one.
pub open spec fn decode(code: Seq<u8>, at: int, host: HostRoutines) -> Option<NativeOp> {
    if bytes_at(code, at, prologue()) {
        Some(NativeOp::Enter)
    } else if bytes_at(code, at, epilogue()) {
        Some(NativeOp::Return)
    } else if bytes_at(code, at, seq![0x48u8, 0x81, 0xc3]) && at + 7 <= code.len() {
        Some(NativeOp::AddCursor(displacement_at(code, at + 3)))
    } else if bytes_at(code, at, seq![0x80u8, 0x03]) && at + 3 <= code.len() {
        Some(NativeOp::AddCell(code[at + 2]))
    } else if bytes_at(
        code,
        at,
        seq![0x40u8, 0x8a, 0x3b, 0x49, 0xba] + le64(host.putchar) + seq![0x41u8, 0xff, 0xd2],
    ) {
        Some(NativeOp::CallPutChar)
    } else if bytes_at(
        code,
        at,
        seq![0x49u8, 0xba] + le64(host.readchar) + seq![0x41u8, 0xff, 0xd2, 0x88, 0x03],
    ) {
        Some(NativeOp::CallReadChar)
    } else if bytes_at(code, at, seq![0x80u8, 0x3b, 0x00, 0x0f, 0x84]) && at + 9 <= code.len() {
        Some(NativeOp::JumpIfZero(displacement_at(code, at + 5)))
    } else if bytes_at(code, at, seq![0x80u8, 0x3b, 0x00, 0x0f, 0x85]) && at + 9 <= code.len() {
        Some(NativeOp::JumpIfNotZero(displacement_at(code, at + 5)))
    } else {
        None
    }
}

/// What one step of the processor asks of its surroundings.
pub ghost enum NativeStep {
    /// Nothing: the step is done.
    Continue,
    /// The output routine was called with this byte.
    Output(u8),
    /// The input routine has been called and waits for a byte.
    Input,
    /// The function has returned.
    Return,
    /// The processor met bytes that the model does not know, or touched memory off
    /// the tape: what happens is not defined.
    Undefined,
}

/// How a run of the processor came to its end.
pub ghost enum NativeEnd {
    /// The function returned.
    Returned,
    /// The input routine was called when the input was used up.
    InputExhausted,
    /// The allowed number of steps was taken.
    OutOfSteps,
    /// What the processor does is not defined.
    Undefined,
}

/// Where the processor stands: at which byte of the code, on what tape.
pub ghost struct NativeView {
    /// The offset of the next instruction group in the code.
    pub at: int,
    /// The tape, with the cursor that `rbx` holds.
    pub tape: Tape,
}

impl NativeView {
    /// The state at the entry of the function, called with the middle of a fresh
    /// tape.
    pub open spec fn initial() -> NativeView {
        NativeView { at: 0, tape: Tape::fresh() }
    }

    /// One step through `code`.
    pub open spec fn step(self, code: Seq<u8>, host: HostRoutines) -> (NativeView, NativeStep) {
        match decode(code, self.at, host) {
            None => (self, NativeStep::Undefined),
            Some(op) => {
                let next = self.at + op.size();
                match op {
                    NativeOp::Enter => (NativeView { at: next, ..self }, NativeStep::Continue),
                    NativeOp::Return => (self, NativeStep::Return),
                    NativeOp::AddCursor(by) => (
                        NativeView { at: next, tape: Tape { cursor: self.tape.cursor + by, ..self.tape } },
                        NativeStep::Continue,
                    ),
                    other => if !self.tape.in_range() {
                        (self, NativeStep::Undefined)
                    } else {
                        match other {
                            NativeOp::AddCell(by) => (
                                NativeView {
                                    at: next,
                                    tape: self.tape.store(((self.tape.current() + by) % 256) as u8),
                                },
                                NativeStep::Continue,
                            ),
                            NativeOp::CallPutChar => (
                                NativeView { at: next, ..self },
                                NativeStep::Output(self.tape.current()),
                            ),
                            NativeOp::CallReadChar => (self, NativeStep::Input),
                            NativeOp::JumpIfZero(by) => (
                                NativeView {
                                    at: if self.tape.current() == 0 {
                                        next + by
                                    } else {
                                        next
                                    },
                                    ..self
                                },
                                NativeStep::Continue,
                            ),
                            NativeOp::JumpIfNotZero(by) => (
                                NativeView {
                                    at: if self.tape.current() != 0 {
                                        next + by
                                    } else {
                                        next
                                    },
                                    ..self
                                },
                                NativeStep::Continue,
                            ),
                            _ => (self, NativeStep::Undefined),
                        }
                    },
                }
            },
        }
    }

    /// The state after the input routine has returned `byte`: the byte is stored in
    /// the current cell and the group is passed.
    pub open spec fn feed(self, code: Seq<u8>, host: HostRoutines, byte: u8) -> NativeView {
        if self.step(code, host).1 == NativeStep::Input {
            NativeView { at: self.at + NativeOp::CallReadChar.size(), tape: self.tape.store(byte) }
        } else {
            self
        }
    }
}

/// A finished run of the processor: the state it ended in, the bytes it wrote, the
/// number of input bytes it read, and why it ended.
pub ghost struct NativeRun {
    pub state: NativeView,
    pub output: Seq<u8>,
    pub consumed: nat,
    pub end: NativeEnd,
}

impl NativeRun {
    /// A run that ends at once in `state`.
    pub open spec fn ended(state: NativeView, end: NativeEnd) -> NativeRun {
        NativeRun { state, output: Seq::empty(), consumed: 0, end }
    }

    /// The run with `bytes` written before it.
    pub open spec fn after_output(self, bytes: Seq<u8>) -> NativeRun {
        NativeRun { output: bytes + self.output, ..self }
    }

    /// The run with one input byte read before it.
    pub open spec fn after_input(self) -> NativeRun {
        NativeRun { consumed: self.consumed + 1, ..self }
    }
}

/// The run of at most `steps` steps through `code` from `state`, with `input` to
/// read from. Being handed a byte counts as a step.
pub open spec fn native_run(
    code: Seq<u8>,
    host: HostRoutines,
    state: NativeView,
    input: Seq<u8>,
    steps: nat,
) -> NativeRun
    decreases steps,
{
    if steps == 0 {
        NativeRun::ended(state, NativeEnd::OutOfSteps)
    } else {
        let (next, event) = state.step(code, host);
        match event {
            NativeStep::Continue => native_run(code, host, next, input, (steps - 1) as nat),
            NativeStep::Output(byte) => native_run(
                code,
                host,
                next,
                input,
                (steps - 1) as nat,
            ).after_output(seq![byte]),
            NativeStep::Input => if input.len() > 0 {
                native_run(
                    code,
                    host,
                    state.feed(code, host, input[0]),
                    input.drop_first(),
                    (steps - 1) as nat,
                ).after_input()
            } else {
                NativeRun::ended(state, NativeEnd::InputExhausted)
            },
            NativeStep::Return => NativeRun::ended(state, NativeEnd::Returned),
            NativeStep::Undefined => NativeRun::ended(state, NativeEnd::Undefined),
        }
    }
}

/// The machine ended as the processor did: the function returned where the program
/// ended, or both stopped for want of input; the same bytes were written and as
/// many read; the tape is the same.
pub open spec fn agree(native: NativeRun, folded: Execution) -> bool {
    &&& match folded.end {
        RunEnd::Finished => native.end == NativeEnd::Returned,
        RunEnd::InputExhausted => native.end == NativeEnd::InputExhausted,
        _ => false,
    }
    &&& native.output == folded.output
    &&& native.consumed == folded.consumed
    &&& native.state.tape == folded.state.tape
}

/// The four bytes of a number add up to the number.
proof fn lemma_le32_sum(v: u32)
    ensures
        v % 256 + 256 * (v / 256 % 256) + 65536 * (v / 65536 % 256) + 16777216 * (v / 16777216) == v,
{
    let q1 = v / 256;
    let q2 = v / 65536;
    let q3 = v / 16777216;
    assert(q2 == q1 / 256) by (bit_vector)
        requires
            q1 == v / 256,
            q2 == v / 65536,
    ;
    assert(q3 == q2 / 256) by (bit_vector)
        requires
            q2 == v / 65536,
            q3 == v / 16777216,
    ;
    assert(v == 256 * q1 + v % 256);
    assert(q1 == 256 * q2 + q1 % 256);
    assert(q2 == 256 * q3 + q2 % 256);
}

/// Four bytes that encode a signed 32-bit number decode to it.
proof fn lemma_displacement(code: Seq<u8>, at: int, value: int)
    requires
        -0x8000_0000 <= value < 0x8000_0000,
        0 <= at,
        at + 4 <= code.len(),
        code.subrange(at, at + 4) == signed_le32(value),
    ensures
        displacement_at(code, at) == value,
{
    let bytes = code.subrange(at, at + 4);
    assert(bytes[0] == code[at]);
    assert(bytes[1] == code[at + 1]);
    assert(bytes[2] == code[at + 2]);
    assert(bytes[3] == code[at + 3]);
    let v = ((value + 0x1_0000_0000) % 0x1_0000_0000) as u32;
    assert(v == if value < 0 {
        value + 0x1_0000_0000
    } else {
        value
    });
    lemma_le32_sum(v);
    assert(bytes[0] == (v % 256) as u8);
    assert(bytes[1] == (v / 256 % 256) as u8);
    assert(bytes[2] == (v / 65536 % 256) as u8);
    assert(bytes[3] == (v / 16777216) as u8);
}

/// Bytes that differ from a pattern in one place are not the pattern.
proof fn lemma_differs(code: Seq<u8>, at: int, pattern: Seq<u8>, k: int)
    requires
        0 <= k < pattern.len(),
        0 <= at,
        at + k < code.len(),
        code[at + k] != pattern[k],
    ensures
        !bytes_at(code, at, pattern),
{
    if at + pattern.len() <= code.len() {
        assert(code.subrange(at, at + pattern.len())[k] == code[at + k]);
    }
}

/// Bytes that begin with a pattern hold the pattern.
proof fn lemma_begins(code: Seq<u8>, at: int, bytes: Seq<u8>, pattern: Seq<u8>)
    requires
        0 <= at,
        at + bytes.len() <= code.len(),
        code.subrange(at, at + bytes.len()) == bytes,
        pattern.len() <= bytes.len(),
        bytes.subrange(0, pattern.len() as int) == pattern,
    ensures
        bytes_at(code, at, pattern),
{
    assert(code.subrange(at, at + pattern.len()) =~= code.subrange(at, at + bytes.len()).subrange(
        0,
        pattern.len() as int,
    ));
}

/// The byte of `code` at `at + k` is the `k`-th of the bytes that stand at `at`.
proof fn lemma_byte(code: Seq<u8>, at: int, bytes: Seq<u8>, k: int)
    requires
        0 <= at,
        at + bytes.len() <= code.len(),
        code.subrange(at, at + bytes.len()) == bytes,
        0 <= k < bytes.len(),
    ensures
        code[at + k] == bytes[k],
{
    assert(code.subrange(at, at + bytes.len())[k] == code[at + k]);
}

/// The code of a pointer motion decodes to an addition to the cursor.
proof fn lemma_decode_add_cursor(code: Seq<u8>, at: int, host: HostRoutines, value: int)
    requires
        -0x8000_0000 <= value < 0x8000_0000,
        0 <= at,
        at + 7 <= code.len(),
        code.subrange(at, at + 7) == seq![0x48u8, 0x81, 0xc3] + signed_le32(value),
    ensures
        decode(code, at, host) == Some(NativeOp::AddCursor(value)),
{
    let bytes = seq![0x48u8, 0x81, 0xc3] + signed_le32(value);
    lemma_byte(code, at, bytes, 0);
    lemma_byte(code, at, bytes, 1);
    lemma_differs(code, at, prologue(), 0);
    lemma_differs(code, at, epilogue(), 1);
    assert(bytes.subrange(0, 3) =~= seq![0x48u8, 0x81, 0xc3]);
    lemma_begins(code, at, bytes, seq![0x48u8, 0x81, 0xc3]);
    assert(code.subrange(at + 3, at + 7) =~= signed_le32(value)) by {
        assert(code.subrange(at + 3, at + 7) =~= code.subrange(at, at + 7).subrange(3, 7));
        assert(bytes.subrange(3, 7) =~= signed_le32(value));
    }
    lemma_displacement(code, at + 3, value);
}

/// The code of a value change decodes to an addition to the current cell.
proof fn lemma_decode_add_cell(code: Seq<u8>, at: int, host: HostRoutines, by: u8)
    requires
        0 <= at,
        at + 3 <= code.len(),
        code.subrange(at, at + 3) == seq![0x80u8, 0x03, by],
    ensures
        decode(code, at, host) == Some(NativeOp::AddCell(by)),
{
    let bytes = seq![0x80u8, 0x03, by];
    lemma_byte(code, at, bytes, 0);
    lemma_byte(code, at, bytes, 2);
    lemma_differs(code, at, prologue(), 0);
    lemma_differs(code, at, epilogue(), 0);
    lemma_differs(code, at, seq![0x48u8, 0x81, 0xc3], 0);
    assert(bytes.subrange(0, 2) =~= seq![0x80u8, 0x03]);
    lemma_begins(code, at, bytes, seq![0x80u8, 0x03]);
}

/// The code of an output decodes to a call of the output routine.
proof fn lemma_decode_putchar(code: Seq<u8>, at: int, host: HostRoutines)
    requires
        0 <= at,
        at + 16 <= code.len(),
        code.subrange(at, at + 16) == seq![0x40u8, 0x8a, 0x3b, 0x49, 0xba] + le64(host.putchar)
            + seq![0x41u8, 0xff, 0xd2],
    ensures
        decode(code, at, host) == Some(NativeOp::CallPutChar),
{
    let bytes = seq![0x40u8, 0x8a, 0x3b, 0x49, 0xba] + le64(host.putchar) + seq![0x41u8, 0xff, 0xd2];
    lemma_byte(code, at, bytes, 0);
    lemma_differs(code, at, prologue(), 0);
    lemma_differs(code, at, epilogue(), 0);
    lemma_differs(code, at, seq![0x48u8, 0x81, 0xc3], 0);
    lemma_differs(code, at, seq![0x80u8, 0x03], 0);
    assert(bytes.subrange(0, 16) =~= bytes);
    lemma_begins(code, at, bytes, bytes);
}

/// The code of an input decodes to a call of the input routine.
proof fn lemma_decode_readchar(code: Seq<u8>, at: int, host: HostRoutines)
    requires
        0 <= at,
        at + 15 <= code.len(),
        code.subrange(at, at + 15) == seq![0x49u8, 0xba] + le64(host.readchar) + seq![
            0x41u8,
            0xff,
            0xd2,
            0x88,
            0x03,
        ],
    ensures
        decode(code, at, host) == Some(NativeOp::CallReadChar),
{
    let bytes = seq![0x49u8, 0xba] + le64(host.readchar) + seq![0x41u8, 0xff, 0xd2, 0x88, 0x03];
    let other = seq![0x40u8, 0x8a, 0x3b, 0x49, 0xba] + le64(host.putchar) + seq![0x41u8, 0xff, 0xd2];
    lemma_byte(code, at, bytes, 0);
    lemma_differs(code, at, prologue(), 0);
    lemma_differs(code, at, epilogue(), 0);
    lemma_differs(code, at, seq![0x48u8, 0x81, 0xc3], 0);
    lemma_differs(code, at, seq![0x80u8, 0x03], 0);
    lemma_differs(code, at, other, 0);
    assert(bytes.subrange(0, 15) =~= bytes);
    lemma_begins(code, at, bytes, bytes);
}

/// The code of a loop instruction decodes to a test of the current cell and a
/// conditional jump.
proof fn lemma_decode_branch(code: Seq<u8>, at: int, host: HostRoutines, opening: bool, value: int)
    requires
        -0x8000_0000 <= value < 0x8000_0000,
        0 <= at,
        at + 9 <= code.len(),
        code.subrange(at, at + 9) == seq![
            0x80u8,
            0x3b,
            0x00,
            0x0f,
            if opening {
                0x84u8
            } else {
                0x85u8
            },
        ] + signed_le32(value),
    ensures
        decode(code, at, host) == Some(
            if opening {
                NativeOp::JumpIfZero(value)
            } else {
                NativeOp::JumpIfNotZero(value)
            },
        ),
{
    let head = seq![0x80u8, 0x3b, 0x00, 0x0f, if opening {
        0x84u8
    } else {
        0x85u8
    }];
    let bytes = head + signed_le32(value);
    let put = seq![0x40u8, 0x8a, 0x3b, 0x49, 0xba] + le64(host.putchar) + seq![0x41u8, 0xff, 0xd2];
    let read = seq![0x49u8, 0xba] + le64(host.readchar) + seq![0x41u8, 0xff, 0xd2, 0x88, 0x03];
    lemma_byte(code, at, bytes, 0);
    lemma_byte(code, at, bytes, 1);
    lemma_byte(code, at, bytes, 4);
    lemma_differs(code, at, prologue(), 0);
    lemma_differs(code, at, epilogue(), 0);
    lemma_differs(code, at, seq![0x48u8, 0x81, 0xc3], 0);
    lemma_differs(code, at, seq![0x80u8, 0x03], 1);
    lemma_differs(code, at, put, 0);
    lemma_differs(code, at, read, 0);
    if !opening {
        lemma_differs(code, at, seq![0x80u8, 0x3b, 0x00, 0x0f, 0x84], 4);
    }
    assert(bytes.subrange(0, 5) =~= head);
    lemma_begins(code, at, bytes, head);
    assert(code.subrange(at + 5, at + 9) =~= signed_le32(value)) by {
        assert(code.subrange(at + 5, at + 9) =~= code.subrange(at, at + 9).subrange(5, 9));
        assert(bytes.subrange(5, 9) =~= signed_le32(value));
    }
    lemma_displacement(code, at + 5, value);
}

/// The epilogue decodes to a return.
proof fn lemma_decode_return(code: Seq<u8>, at: int, host: HostRoutines)
    requires
        0 <= at,
        at + 10 <= code.len(),
        code.subrange(at, at + 10) == epilogue(),
    ensures
        decode(code, at, host) == Some(NativeOp::Return),
{
    lemma_byte(code, at, epilogue(), 0);
    lemma_differs(code, at, prologue(), 0);
}

/// In the code of the first `upto` instructions, the prologue stands first, and the
/// code of each instruction stands at its offset.
proof fn lemma_code_through_layout(
    instrs: Seq<Instruction>,
    upto: int,
    seen: int,
    host: HostRoutines,
    i: int,
)
    requires
        0 <= i < upto <= instrs.len(),
    ensures
        12 <= code_offset(instrs, i),
        code_offset(instrs, i + 1) == code_offset(instrs, i) + code_size(instrs[i]),
        code_offset(instrs, i + 1) <= code_through(instrs, upto, seen, host).len(),
        code_through(instrs, upto, seen, host).subrange(0, 12) == prologue(),
        code_through(instrs, upto, seen, host).subrange(
            code_offset(instrs, i),
            code_offset(instrs, i + 1),
        ) == instruction_code(instrs, i, seen, host),
    decreases upto,
{
    let shorter = code_through(instrs, upto - 1, seen, host);
    let last = instruction_code(instrs, upto - 1, seen, host);
    let whole = code_through(instrs, upto, seen, host);
    crate::encoding::lemma_code_through_len(instrs, upto - 1, seen, host);
    crate::encoding::lemma_code_through_len(instrs, upto, seen, host);
    crate::encoding::lemma_instruction_code_len(instrs, upto - 1, seen, host);
    crate::encoding::lemma_code_offset_monotonic(instrs, 0, i);
    crate::encoding::lemma_code_offset_monotonic(instrs, 0, upto - 1);
    assert(whole.subrange(0, 12) =~= shorter.subrange(0, 12));
    if i == upto - 1 {
        assert(whole.subrange(code_offset(instrs, i), code_offset(instrs, i + 1)) =~= last);
        if upto - 1 > 0 {
            lemma_code_through_layout(instrs, upto - 1, seen, host, 0);
        } else {
            assert(shorter.subrange(0, 12) =~= prologue());
        }
    } else {
        lemma_code_through_layout(instrs, upto - 1, seen, host, i);
        assert(whole.subrange(code_offset(instrs, i), code_offset(instrs, i + 1))
            =~= shorter.subrange(code_offset(instrs, i), code_offset(instrs, i + 1)));
    }
}

/// In the machine code of an instruction sequence, the code of each instruction
/// stands at its offset, and the epilogue stands behind the last.
proof fn lemma_machine_code_layout(instrs: Seq<Instruction>, host: HostRoutines, i: int)
    requires
        0 <= i < instrs.len(),
    ensures
        12 <= code_offset(instrs, i),
        code_offset(instrs, i + 1) == code_offset(instrs, i) + code_size(instrs[i]),
        code_offset(instrs, i + 1) <= code_offset(instrs, instrs.len() as int),
        machine_code(instrs, host).len() == code_offset(instrs, instrs.len() as int) + 10,
        machine_code(instrs, host).subrange(0, 12) == prologue(),
        machine_code(instrs, host).subrange(code_offset(instrs, i), code_offset(instrs, i + 1))
            == instruction_code(instrs, i, instrs.len() as int, host),
        machine_code(instrs, host).subrange(
            code_offset(instrs, instrs.len() as int),
            code_offset(instrs, instrs.len() as int) + 10,
        ) == epilogue(),
{
    let count = instrs.len() as int;
    let body = partial_code(instrs, count, host);
    let code = machine_code(instrs, host);
    lemma_code_through_layout(instrs, count, count, host, i);
    crate::encoding::lemma_code_through_len(instrs, count, count, host);
    assert(code.subrange(0, 12) =~= body.subrange(0, 12));
    assert(code.subrange(code_offset(instrs, i), code_offset(instrs, i + 1)) =~= body.subrange(
        code_offset(instrs, i),
        code_offset(instrs, i + 1),
    ));
    assert(code.subrange(code_offset(instrs, count), code_offset(instrs, count) + 10) =~= epilogue());
}

/// The processor stands at the code of the instruction that the machine stands at,
/// on the same tape.
spec fn mirrors(instrs: Seq<Instruction>, machine: MachineView, native: NativeView) -> bool {
    &&& machine.instructions == instrs
    &&& 0 <= machine.pc <= instrs.len()
    &&& native.at == code_offset(instrs, machine.pc)
    &&& native.tape == machine.tape
    &&& machine.tape.in_range()
}

/// Adding the two's complement of a byte is subtracting the byte.
proof fn lemma_add_negated(cell: u8, n: u8)
    ensures
        (cell + ((256 - n) % 256) as u8) % 256 == (cell - n) % 256,
{
}

/// At a pointer or value instruction, the processor does to the tape what the
/// machine does.
proof fn lemma_mirror_arithmetic(
    instrs: Seq<Instruction>,
    host: HostRoutines,
    machine: MachineView,
    native: NativeView,
)
    requires
        compiles(instrs),
        mirrors(instrs, machine, native),
        machine.pc < instrs.len(),
        instrs[machine.pc] is PointerIncrement || instrs[machine.pc] is PointerDecrement
            || instrs[machine.pc] is ValueIncrement || instrs[machine.pc] is ValueDecrement,
        machine.step().1 == Step::Continue,
    ensures
        native.step(machine_code(instrs, host), host).1 == NativeStep::Continue,
        mirrors(instrs, machine.step().0, native.step(machine_code(instrs, host), host).0),
{
    let code = machine_code(instrs, host);
    let i = machine.pc;
    let at = native.at;
    lemma_machine_code_layout(instrs, host, i);
    assert(supported(instrs[i]));
    match instrs[i] {
        Instruction::PointerIncrement(n) => {
            lemma_decode_add_cursor(code, at, host, n as int);
        },
        Instruction::PointerDecrement(n) => {
            lemma_decode_add_cursor(code, at, host, -(n as int));
        },
        Instruction::ValueIncrement(n) => {
            lemma_decode_add_cell(code, at, host, n);
        },
        Instruction::ValueDecrement(n) => {
            lemma_decode_add_cell(code, at, host, ((256 - n) % 256) as u8);
            lemma_add_negated(machine.tape.current(), n);
        },
        _ => {},
    }
}

/// At an output or input instruction, the processor calls the host routine.
proof fn lemma_mirror_call(
    instrs: Seq<Instruction>,
    host: HostRoutines,
    machine: MachineView,
    native: NativeView,
    byte: u8,
)
    requires
        compiles(instrs),
        mirrors(instrs, machine, native),
        machine.pc < instrs.len(),
        instrs[machine.pc] is PutChar || instrs[machine.pc] is ReadChar,
    ensures
        instrs[machine.pc] is PutChar ==> {
            &&& machine.step().1 == Step::Output(machine.tape.current())
            &&& native.step(machine_code(instrs, host), host).1 == NativeStep::Output(
                machine.tape.current(),
            )
            &&& mirrors(
                instrs,
                machine.step().0,
                native.step(machine_code(instrs, host), host).0,
            )
        },
        instrs[machine.pc] is ReadChar ==> {
            &&& machine.step() == (machine, Step::Input)
            &&& native.step(machine_code(instrs, host), host) == (native, NativeStep::Input)
            &&& mirrors(
                instrs,
                machine.feed(byte),
                native.feed(machine_code(instrs, host), host, byte),
            )
        },
{
    let code = machine_code(instrs, host);
    let i = machine.pc;
    lemma_machine_code_layout(instrs, host, i);
    if instrs[i] is PutChar {
        lemma_decode_putchar(code, native.at, host);
    } else {
        lemma_decode_readchar(code, native.at, host);
    }
}

/// At a loop instruction, the processor jumps to the code of the instruction that
/// the machine goes to.
proof fn lemma_mirror_loop(
    instrs: Seq<Instruction>,
    host: HostRoutines,
    machine: MachineView,
    native: NativeView,
)
    requires
        compiles(instrs),
        mirrors(instrs, machine, native),
        machine.pc < instrs.len(),
        instrs[machine.pc] is LoopStart || instrs[machine.pc] is LoopEnd,
    ensures
        machine.step().1 == Step::Continue,
        native.step(machine_code(instrs, host), host).1 == NativeStep::Continue,
        mirrors(instrs, machine.step().0, native.step(machine_code(instrs, host), host).0),
{
    let code = machine_code(instrs, host);
    let i = machine.pc;
    let count = instrs.len() as int;
    lemma_machine_code_layout(instrs, host, i);
    assert(opening_matched(instrs, i));
    assert(closing_nested(instrs, i));
    match instrs[i] {
        Instruction::LoopStart { end } => {
            crate::encoding::lemma_code_offset_monotonic(instrs, i + 1, end + 1);
            crate::encoding::lemma_code_offset_monotonic(instrs, end + 1, count);
            lemma_decode_branch(
                code,
                native.at,
                host,
                true,
                code_offset(instrs, end + 1) - code_offset(instrs, i + 1),
            );
        },
        Instruction::LoopEnd { start } => {
            crate::encoding::lemma_code_offset_monotonic(instrs, start + 1, i + 1);
            crate::encoding::lemma_code_offset_monotonic(instrs, i + 1, count);
            lemma_decode_branch(
                code,
                native.at,
                host,
                false,
                code_offset(instrs, start + 1) - code_offset(instrs, i + 1),
            );
        },
        _ => {},
    }
}

/// At the end of the sequence, the processor returns.
proof fn lemma_mirror_end(
    instrs: Seq<Instruction>,
    host: HostRoutines,
    machine: MachineView,
    native: NativeView,
)
    requires
        compiles(instrs),
        mirrors(instrs, machine, native),
        machine.pc == instrs.len() || instrs[machine.pc] is End,
    ensures
        machine.step() == (machine, Step::Halt),
        native.step(machine_code(instrs, host), host) == (native, NativeStep::Return),
{
    let code = machine_code(instrs, host);
    let count = instrs.len() as int;
    lemma_machine_code_layout(instrs, host, count - 1);
    assert(end_is_last(instrs, count - 1));
    if machine.pc < count {
        assert(end_is_last(instrs, machine.pc));
    }
    lemma_decode_return(code, native.at, host);
}

/// From states in which the processor mirrors the machine, an execution of the
/// machine that ends with the program or for want of input is matched by the
/// processor step by step.
proof fn lemma_mirroring(
    instrs: Seq<Instruction>,
    host: HostRoutines,
    machine: MachineView,
    native: NativeView,
    input: Seq<u8>,
    steps: nat,
)
    requires
        compiles(instrs),
        mirrors(instrs, machine, native),
        execution_of(machine, input, steps).end == RunEnd::Finished || execution_of(
            machine,
            input,
            steps,
        ).end == RunEnd::InputExhausted,
    ensures
        agree(
            native_run(machine_code(instrs, host), host, native, input, steps),
            execution_of(machine, input, steps),
        ),
    decreases steps,
{
    let code = machine_code(instrs, host);
    let fewer = (steps - 1) as nat;
    let i = machine.pc;
    if i == instrs.len() || instrs[i] is End {
        lemma_mirror_end(instrs, host, machine, native);
    } else if instrs[i] is PutChar {
        lemma_mirror_call(instrs, host, machine, native, 0);
        lemma_mirroring(instrs, host, machine.step().0, native.step(code, host).0, input, fewer);
    } else if instrs[i] is ReadChar {
        if input.len() > 0 {
            lemma_mirror_call(instrs, host, machine, native, input[0]);
            lemma_mirroring(
                instrs,
                host,
                machine.feed(input[0]),
                native.feed(code, host, input[0]),
                input.drop_first(),
                fewer,
            );
        } else {
            lemma_mirror_call(instrs, host, machine, native, 0);
        }
    } else if instrs[i] is LoopStart || instrs[i] is LoopEnd {
        lemma_mirror_loop(instrs, host, machine, native);
        lemma_mirroring(instrs, host, machine.step().0, native.step(code, host).0, input, fewer);
    } else {
        lemma_mirror_arithmetic(instrs, host, machine, native);
        lemma_mirroring(instrs, host, machine.step().0, native.step(code, host).0, input, fewer);
    }
}

/// Generated code does what its instruction sequence says. Whenever the machine,
/// started on a sequence that compiles, comes to the end of the program or stops
/// for want of input within `steps` steps, the processor of the model, entering the
/// sequence's machine code with the same input, returns or stops for want of input
/// within one step more, having written the same bytes, on the same tape.
pub proof fn lemma_code_runs_like_machine(
    instrs: Seq<Instruction>,
    host: HostRoutines,
    input: Seq<u8>,
    steps: nat,
)
    requires
        compiles(instrs),
        execution_of(MachineView::initial(instrs), input, steps).end == RunEnd::Finished
            || execution_of(MachineView::initial(instrs), input, steps).end
            == RunEnd::InputExhausted,
    ensures
        agree(
            native_run(machine_code(instrs, host), host, NativeView::initial(), input, steps + 1),
            execution_of(MachineView::initial(instrs), input, steps),
        ),
{
    let code = machine_code(instrs, host);
    lemma_machine_code_layout(instrs, host, 0);
    assert(bytes_at(code, 0, prologue()));
    let entered = NativeView { at: 12, tape: Tape::fresh() };
    assert(NativeView::initial().step(code, host) == (entered, NativeStep::Continue));
    lemma_mirroring(instrs, host, MachineView::initial(instrs), entered, input, steps);
}

/// Compiling keeps the meaning of a program. Whenever the interpreter, started on a
/// text whose instruction sequence compiles, comes to the end of the program or
/// stops for want of input within `steps` steps, the processor of the model,
/// entering the program's machine code with the same input, returns or stops for
/// want of input within one step more, having written the same bytes, on the same
/// tape.
pub proof fn lemma_code_runs_like_interpreter(
    text: Seq<char>,
    host: HostRoutines,
    input: Seq<u8>,
    steps: nat,
)
    requires
        text.len() <= usize::MAX,
        compiles(program_instructions(text)),
        run_of(RuntimeView::initial(text), input, steps).end == RunEnd::Finished || run_of(
            RuntimeView::initial(text),
            input,
            steps,
        ).end == RunEnd::InputExhausted,
    ensures
        ({
            let direct = run_of(RuntimeView::initial(text), input, steps);
            let native = native_run(
                machine_code(program_instructions(text), host),
                host,
                NativeView::initial(),
                input,
                steps + 1,
            );
            &&& direct.end == RunEnd::Finished ==> native.end == NativeEnd::Returned
            &&& direct.end == RunEnd::InputExhausted ==> native.end == NativeEnd::InputExhausted
            &&& native.output == direct.output
            &&& native.consumed == direct.consumed
            &&& native.state.tape == direct.state.tape
        }),
{
    lemma_folded_program_runs_alike(text, input, steps);
    lemma_code_runs_like_machine(program_instructions(text), host, input, steps);
}

/// From states in which the processor mirrors the machine, whatever the machine
/// has written and read after `steps` steps, the processor has written and read
/// after some number of steps that is no greater, however the execution goes on or
/// ends.
proof fn lemma_mirroring_so_far(
    instrs: Seq<Instruction>,
    host: HostRoutines,
    machine: MachineView,
    native: NativeView,
    input: Seq<u8>,
    steps: nat,
) -> (taken: nat)
    requires
        compiles(instrs),
        mirrors(instrs, machine, native),
    ensures
        taken <= steps,
        native_run(machine_code(instrs, host), host, native, input, taken).output == execution_of(
            machine,
            input,
            steps,
        ).output,
        native_run(machine_code(instrs, host), host, native, input, taken).consumed
            == execution_of(machine, input, steps).consumed,
    decreases steps,
{
    let code = machine_code(instrs, host);
    let fewer = (steps - 1) as nat;
    let i = machine.pc;
    let mut taken: nat = 0;
    if steps == 0 {
    } else if i == instrs.len() || instrs[i] is End {
        lemma_mirror_end(instrs, host, machine, native);
    } else if instrs[i] is PutChar {
        lemma_mirror_call(instrs, host, machine, native, 0);
        let later = lemma_mirroring_so_far(
            instrs,
            host,
            machine.step().0,
            native.step(code, host).0,
            input,
            fewer,
        );
        taken = later + 1;
    } else if instrs[i] is ReadChar {
        if input.len() > 0 {
            lemma_mirror_call(instrs, host, machine, native, input[0]);
            let later = lemma_mirroring_so_far(
                instrs,
                host,
                machine.feed(input[0]),
                native.feed(code, host, input[0]),
                input.drop_first(),
                fewer,
            );
            taken = later + 1;
        } else {
            lemma_mirror_call(instrs, host, machine, native, 0);
        }
    } else if instrs[i] is LoopStart || instrs[i] is LoopEnd {
        lemma_mirror_loop(instrs, host, machine, native);
        let later = lemma_mirroring_so_far(
            instrs,
            host,
            machine.step().0,
            native.step(code, host).0,
            input,
            fewer,
        );
        taken = later + 1;
    } else if machine.step().1 == Step::Continue {
        lemma_mirror_arithmetic(instrs, host, machine, native);
        let later = lemma_mirroring_so_far(
            instrs,
            host,
            machine.step().0,
            native.step(code, host).0,
            input,
            fewer,
        );
        taken = later + 1;
    }
    taken
}

/// A number of processor steps after which the processor of the model, entering
/// the machine code of a text whose instruction sequence compiles, has written and
/// read what the interpreter has after `steps` steps.
pub proof fn lemma_native_steps_so_far(
    text: Seq<char>,
    host: HostRoutines,
    input: Seq<u8>,
    steps: nat,
) -> (taken: nat)
    requires
        text.len() <= usize::MAX,
        compiles(program_instructions(text)),
    ensures
        taken <= steps + 1,
        native_run(
            machine_code(program_instructions(text), host),
            host,
            NativeView::initial(),
            input,
            taken,
        ).output == run_of(RuntimeView::initial(text), input, steps).output,
        native_run(
            machine_code(program_instructions(text), host),
            host,
            NativeView::initial(),
            input,
            taken,
        ).consumed == run_of(RuntimeView::initial(text), input, steps).consumed,
{
    let instrs = program_instructions(text);
    let code = machine_code(instrs, host);
    let on_machine = lemma_machine_steps_so_far(text, input, steps);
    lemma_machine_code_layout(instrs, host, 0);
    assert(bytes_at(code, 0, prologue()));
    let entered = NativeView { at: 12, tape: Tape::fresh() };
    assert(NativeView::initial().step(code, host) == (entered, NativeStep::Continue));
    let later = lemma_mirroring_so_far(
        instrs,
        host,
        MachineView::initial(instrs),
        entered,
        input,
        on_machine,
    );
    later + 1
}

/// Compiling keeps what a program writes, also where the program does not end.
/// Whatever the interpreter, started on a text whose instruction sequence compiles,
/// has written and read after `steps` steps, the processor of the model, entering
/// the program's machine code with the same input, has written and read after some
/// number of steps that is at most one greater.
pub proof fn lemma_code_writes_like_interpreter(
    text: Seq<char>,
    host: HostRoutines,
    input: Seq<u8>,
    steps: nat,
)
    requires
        text.len() <= usize::MAX,
        compiles(program_instructions(text)),
    ensures
        exists|taken: nat|
            {
                &&& taken <= steps + 1
                &&& (#[trigger] native_run(
                    machine_code(program_instructions(text), host),
                    host,
                    NativeView::initial(),
                    input,
                    taken,
                )).output == run_of(RuntimeView::initial(text), input, steps).output
                &&& native_run(
                    machine_code(program_instructions(text), host),
                    host,
                    NativeView::initial(),
                    input,
                    taken,
                ).consumed == run_of(RuntimeView::initial(text), input, steps).consumed
            },
{
    let taken = lemma_native_steps_so_far(text, host, input, steps);
}

} // verus!
