//! The machine code of an instruction sequence, byte by byte.
//!
//! The generated function keeps the tape cursor in `rbx` for its whole body. It is
//! entered with the initial cursor in `rdi` and reaches the two host routines
//! through their absolute addresses.

use vstd::prelude::*;
use crate::parser::Instruction;

verus! {

/// The addresses of the two host routines that generated code calls.
#[derive(Debug, Clone, Copy, PartialEq, Eq, Structural)]
pub struct HostRoutines {
    /// The routine that takes one byte and writes it out.
    pub putchar: u64,
    /// The routine that waits for one byte of input and returns it.
    pub readchar: u64,
}

/// The four bytes of `value`, least significant first.
pub open spec fn le32(value: u32) -> Seq<u8> {
    seq![
        (value % 256) as u8,
        (value / 256 % 256) as u8,
        (value / 65536 % 256) as u8,
        (value / 16777216) as u8,
    ]
}

/// The eight bytes of `value`, least significant first.
pub open spec fn le64(value: u64) -> Seq<u8> {
    le32((value % 0x1_0000_0000) as u32) + le32((value / 0x1_0000_0000) as u32)
}

/// The four bytes of a signed 32-bit `value` in two's complement, least significant
/// first.
pub open spec fn signed_le32(value: int) -> Seq<u8> {
    le32(((value + 0x1_0000_0000) % 0x1_0000_0000) as u32)
}

/// `push rbp; mov rbp, rsp; push rbx; mov rbx, rdi; add rsp, -8`
pub open spec fn prologue() -> Seq<u8> {
    seq![0x55, 0x48, 0x89, 0xe5, 0x53, 0x48, 0x89, 0xfb, 0x48, 0x83, 0xc4, 0xf8]
}

/// `add rsp, 8; pop rbx; mov rsp, rbp; pop rbp; ret`
pub open spec fn epilogue() -> Seq<u8> {
    seq![0x48, 0x83, 0xc4, 0x08, 0x5b, 0x48, 0x89, 0xec, 0x5d, 0xc3]
}

/// Whether the code generator takes `instr`: the count of a pointer motion,
/// forward or backward, must fit a signed 32-bit immediate, so it is at most
/// `0x7fff_ffff`.
pub open spec fn supported(instr: Instruction) -> bool {
    match instr {
        Instruction::PointerIncrement(n) => n <= 0x7fff_ffff,
        Instruction::PointerDecrement(n) => n <= 0x7fff_ffff,
        _ => true,
    }
}

/// The number of bytes of code that `instr` takes.
pub open spec fn code_size(instr: Instruction) -> int {
    match instr {
        Instruction::PointerIncrement(_) | Instruction::PointerDecrement(_) => 7,
        Instruction::ValueIncrement(_) | Instruction::ValueDecrement(_) => 3,
        Instruction::PutChar => 16,
        Instruction::ReadChar => 15,
        Instruction::LoopStart { .. } | Instruction::LoopEnd { .. } => 9,
        Instruction::End => 0,
    }
}

/// Where the code of instruction `i` begins, counted from the start of the
/// function; for `i == instrs.len()`, where the epilogue begins.
pub open spec fn code_offset(instrs: Seq<Instruction>, i: int) -> int
    decreases i,
{
    if i <= 0 {
        prologue().len() as int
    } else {
        code_offset(instrs, i - 1) + code_size(instrs[i - 1])
    }
}

/// The code of instruction `i` at the time when the first `seen` instructions have
/// been emitted. The forward branch of a loop opening carries a displacement of
/// zero until its closing has been emitted.
///
/// | instruction | code |
/// |---|---|
/// | `PointerIncrement(n)` | `add rbx, n` |
/// | `PointerDecrement(n)` | `add rbx, -n` |
/// | `ValueIncrement(n)` | `add byte [rbx], n` |
/// | `ValueDecrement(n)` | `add byte [rbx], -n` |
/// | `PutChar` | `mov dil, [rbx]; mov r10, putchar; call r10` |
/// | `ReadChar` | `mov r10, readchar; call r10; mov [rbx], al` |
/// | `LoopStart` | `cmp byte [rbx], 0; je` past the closing |
/// | `LoopEnd` | `cmp byte [rbx], 0; jne` past the opening |
/// | `End` | nothing |
pub open spec fn instruction_code(
    instrs: Seq<Instruction>,
    i: int,
    seen: int,
    host: HostRoutines,
) -> Seq<u8> {
    match instrs[i] {
        Instruction::PointerIncrement(n) => seq![0x48u8, 0x81, 0xc3] + signed_le32(n as int),
        Instruction::PointerDecrement(n) => seq![0x48u8, 0x81, 0xc3] + signed_le32(-(n as int)),
        Instruction::ValueIncrement(n) => seq![0x80u8, 0x03, n],
        Instruction::ValueDecrement(n) => seq![0x80u8, 0x03, ((256 - n) % 256) as u8],
        Instruction::PutChar => seq![0x40u8, 0x8a, 0x3b, 0x49, 0xba] + le64(host.putchar)
            + seq![0x41u8, 0xff, 0xd2],
        Instruction::ReadChar => seq![0x49u8, 0xba] + le64(host.readchar) + seq![
            0x41u8,
            0xff,
            0xd2,
            0x88,
            0x03,
        ],
        Instruction::LoopStart { end } => seq![0x80u8, 0x3b, 0x00, 0x0f, 0x84] + signed_le32(
            if end < seen {
                code_offset(instrs, end + 1) - code_offset(instrs, i + 1)
            } else {
                0
            },
        ),
        Instruction::LoopEnd { start } => seq![0x80u8, 0x3b, 0x00, 0x0f, 0x85] + signed_le32(
            code_offset(instrs, start + 1) - code_offset(instrs, i + 1),
        ),
        Instruction::End => Seq::empty(),
    }
}

/// The prologue and the code of the first `upto` instructions, at the time when the
/// first `seen` instructions have been emitted.
pub open spec fn code_through(
    instrs: Seq<Instruction>,
    upto: int,
    seen: int,
    host: HostRoutines,
) -> Seq<u8>
    decreases upto,
{
    if upto <= 0 {
        prologue()
    } else {
        code_through(instrs, upto - 1, seen, host) + instruction_code(instrs, upto - 1, seen, host)
    }
}

/// The code area's gain once the prologue and the first `count` instructions have
/// been emitted.
pub open spec fn partial_code(instrs: Seq<Instruction>, count: int, host: HostRoutines) -> Seq<u8> {
    code_through(instrs, count, count, host)
}

/// The whole function: prologue, the code of every instruction, epilogue.
pub open spec fn machine_code(instrs: Seq<Instruction>, host: HostRoutines) -> Seq<u8> {
    partial_code(instrs, instrs.len() as int, host) + epilogue()
}

/// Every instruction's code has the size that `code_size` gives.
pub proof fn lemma_instruction_code_len(instrs: Seq<Instruction>, i: int, seen: int, host: HostRoutines)
    requires
        0 <= i < instrs.len(),
    ensures
        instruction_code(instrs, i, seen, host).len() == code_size(instrs[i]),
{
}

/// The code of the first `upto` instructions ends where the next one begins.
pub proof fn lemma_code_through_len(instrs: Seq<Instruction>, upto: int, seen: int, host: HostRoutines)
    requires
        0 <= upto <= instrs.len(),
    ensures
        code_through(instrs, upto, seen, host).len() == code_offset(instrs, upto),
    decreases upto,
{
    if upto > 0 {
        lemma_code_through_len(instrs, upto - 1, seen, host);
        lemma_instruction_code_len(instrs, upto - 1, seen, host);
    }
}

/// Code offsets grow with the index.
pub proof fn lemma_code_offset_monotonic(instrs: Seq<Instruction>, i: int, j: int)
    requires
        0 <= i <= j,
    ensures
        12 <= code_offset(instrs, i) <= code_offset(instrs, j),
    decreases j,
{
    if i < j {
        lemma_code_offset_monotonic(instrs, i, j - 1);
    } else if i > 0 {
        lemma_code_offset_monotonic(instrs, 0, i - 1);
    }
}

} // verus!
