//! The native code generator: emits the machine code of an instruction sequence
//! into a code area of fixed size, resolving the forward branch of every loop once
//! its closing has been emitted.

use vstd::prelude::*;
use crate::encoding::{
    code_offset, code_through, epilogue, instruction_code, le32, le64,
    lemma_code_offset_monotonic, lemma_code_through_len, lemma_instruction_code_len,
    machine_code, partial_code, prologue, signed_le32, supported, HostRoutines,
};
use crate::loops::lemma_open_loops_bounds;
use crate::parser::{
    balanced, closes_unopened, closing_nested, is_well_formed, loop_depth, open_loops,
    opening_matched, parser, program_instructions, well_formed, Instruction, ParseError,
};

verus! {

/// The size of the code area, in bytes.
pub const CODE_AREA_SIZE: usize = 65536;

/// Why code generation stopped.
#[derive(Debug, Clone, Copy, PartialEq, Eq, Structural)]
pub enum CompileError {
    /// The code area has no room for the next piece of code.
    CodeAreaExhausted,
    /// The count of a pointer motion is above `0x7fff_ffff` and does not fit a signed
    /// 32-bit immediate.
    UnsupportedPointerMotion,
}

/// A code generator: an instruction sequence, the code emitted for it so far, and
/// the host routines that the code calls.
#[derive(Debug)]
pub struct Compiler {
    instructions: Vec<Instruction>,
    code: Vec<u8>,
    host: HostRoutines,
}

/// What a code generator holds.
pub ghost struct CompilerView {
    pub instructions: Seq<Instruction>,
    pub code: Seq<u8>,
    pub host: HostRoutines,
}

impl View for Compiler {
    type V = CompilerView;

    closed spec fn view(&self) -> CompilerView {
        CompilerView { instructions: self.instructions@, code: self.code@, host: self.host }
    }
}

/// The four bytes of `value`, least significant first.
fn le_bytes_u32(value: u32) -> (bytes: [u8; 4])
    ensures
        bytes@ == le32(value),
{
    let bytes = [
        (value % 256) as u8,
        (value / 256 % 256) as u8,
        (value / 65536 % 256) as u8,
        (value / 16777216) as u8,
    ];
    assert(bytes@ =~= le32(value));
    bytes
}

/// The eight bytes of `value`, least significant first.
fn le_bytes_u64(value: u64) -> (bytes: [u8; 8])
    ensures
        bytes@ == le64(value),
{
    let low = le_bytes_u32((value % 0x1_0000_0000) as u32);
    let high = le_bytes_u32((value / 0x1_0000_0000) as u32);
    let bytes = [low[0], low[1], low[2], low[3], high[0], high[1], high[2], high[3]];
    assert(bytes@ =~= le64(value));
    bytes
}

/// The four bytes of `value` in two's complement, least significant first.
fn signed_le_bytes(value: i64) -> (bytes: [u8; 4])
    requires
        -0x8000_0000 <= value < 0x8000_0000,
    ensures
        bytes@ == signed_le32(value as int),
{
    let unsigned: u32 = if value >= 0 {
        value as u32
    } else {
        (value + 0x1_0000_0000) as u32
    };
    le_bytes_u32(unsigned)
}

impl Compiler {
    /// The instruction sequence is well formed, and the code fits the code area.
    #[verifier::type_invariant]
    spec fn wf(&self) -> bool {
        &&& well_formed(self.instructions@)
        &&& self.code@.len() <= CODE_AREA_SIZE
    }

    /// A code generator for the program `program`, with an empty code area.
    ///
    /// The text is turned down, as by [`parser`], if its loops do not balance.
    pub fn new(program: &str, host: HostRoutines) -> (result: Result<Compiler, ParseError>)
        ensures
            match result {
                Ok(compiler) => {
                    &&& balanced(program@)
                    &&& compiler@ == (CompilerView {
                        instructions: program_instructions(program@),
                        code: Seq::empty(),
                        host,
                    })
                },
                Err(ParseError::UnmatchedLoopEnd) => closes_unopened(program@),
                Err(ParseError::UnclosedLoopStart) => !closes_unopened(program@) && loop_depth(
                    program@,
                ) > 0,
            },
    {
        match parser(program) {
            Ok(instructions) => Ok(Compiler { instructions, code: Vec::new(), host }),
            Err(e) => Err(e),
        }
    }

    /// A code generator for a given instruction sequence, with an empty code area;
    /// `None` if the sequence is not well formed.
    pub fn from_instructions(instructions: Vec<Instruction>, host: HostRoutines) -> (result: Option<
        Compiler,
    >)
        ensures
            match result {
                Some(compiler) => {
                    &&& well_formed(instructions@)
                    &&& compiler@ == (CompilerView {
                        instructions: instructions@,
                        code: Seq::empty(),
                        host,
                    })
                },
                None => !well_formed(instructions@),
            },
    {
        if is_well_formed(&instructions) {
            Some(Compiler { instructions, code: Vec::new(), host })
        } else {
            None
        }
    }

    /// The instruction sequence that code is generated for.
    pub fn instructions(&self) -> (instructions: &Vec<Instruction>)
        ensures
            instructions@ == self@.instructions,
    {
        &self.instructions
    }

    /// The code emitted so far.
    pub fn code(&self) -> (code: &Vec<u8>)
        ensures
            code@ == self@.code,
    {
        &self.code
    }

    /// The host routines that the code calls.
    pub fn host(&self) -> (host: HostRoutines)
        ensures
            host == self@.host,
    {
        self.host
    }

    /// Appends `code` to the code area, or leaves the area as it is if `code` does
    /// not fit.
    fn emit_code(&mut self, code: &[u8]) -> (result: Result<(), CompileError>)
        ensures
            final(self)@.instructions == old(self)@.instructions,
            final(self)@.host == old(self)@.host,
            match result {
                Ok(()) => {
                    &&& old(self)@.code.len() + code@.len() <= CODE_AREA_SIZE
                    &&& final(self)@.code == old(self)@.code + code@
                },
                Err(e) => {
                    &&& e == CompileError::CodeAreaExhausted
                    &&& old(self)@.code.len() + code@.len() > CODE_AREA_SIZE
                    &&& final(self)@.code == old(self)@.code
                },
            },
    {
        proof {
            use_type_invariant(&*self);
        }
        if code.len() > CODE_AREA_SIZE - self.code.len() {
            return Err(CompileError::CodeAreaExhausted);
        }
        let ghost before = self.code@;
        let mut area: Vec<u8> = Vec::new();
        core::mem::swap(&mut self.code, &mut area);
        let mut i: usize = 0;
        while i < code.len()
            invariant
                i <= code.len(),
                before.len() + code@.len() <= CODE_AREA_SIZE,
                area@ == before + code@.take(i as int),
            decreases code.len() - i,
        {
            area.push(code[i]);
            i = i + 1;
            assert(area@ =~= before + code@.take(i as int));
        }
        assert(code@.take(i as int) =~= code@);
        self.code = area;
        Ok(())
    }

    /// Overwrites the four bytes that end at `site`.
    fn patch(&mut self, site: usize, value: [u8; 4])
        requires
            4 <= site <= old(self)@.code.len(),
        ensures
            final(self)@.instructions == old(self)@.instructions,
            final(self)@.host == old(self)@.host,
            final(self)@.code == patched(old(self)@.code, site - 4, value@),
    {
        proof {
            use_type_invariant(&*self);
        }
        self.code[site - 4] = value[0];
        self.code[site - 3] = value[1];
        self.code[site - 2] = value[2];
        self.code[site - 1] = value[3];
        assert(self.code@ =~= patched(old(self).code@, site - 4, value@));
    }

    /// Emits the code of instruction `k`, and resolves the forward branch of the
    /// loop's opening if the instruction closes a loop. `patch_stack` holds, for
    /// every open loop, the position just behind its forward branch.
    fn emit_instruction(&mut self, k: usize, patch_stack: &mut Vec<usize>, base: Ghost<int>) -> (result:
        Result<(), CompileError>)
        requires
            k < old(self)@.instructions.len(),
            0 <= base@,
            old(self)@.code.len() == base@ + code_offset(old(self)@.instructions, k as int),
            patch_sites(old(patch_stack)@, old(self)@.instructions, k as int, base@),
        ensures
            final(self)@.instructions == old(self)@.instructions,
            final(self)@.host == old(self)@.host,
            match result {
                Ok(()) => {
                    &&& supported(old(self)@.instructions[k as int])
                    &&& base@ + code_offset(old(self)@.instructions, k + 1) <= CODE_AREA_SIZE
                    &&& final(self)@.code == with_instruction(
                        old(self)@.code,
                        old(self)@.instructions,
                        k as int,
                        old(self)@.host,
                        base@,
                    )
                    &&& patch_sites(final(patch_stack)@, old(self)@.instructions, k + 1, base@)
                },
                Err(e) => {
                    &&& final(self)@.code == old(self)@.code
                    &&& e == if supported(old(self)@.instructions[k as int]) {
                        CompileError::CodeAreaExhausted
                    } else {
                        CompileError::UnsupportedPointerMotion
                    }
                    &&& supported(old(self)@.instructions[k as int]) ==> base@ + code_offset(
                        old(self)@.instructions,
                        k + 1,
                    ) > CODE_AREA_SIZE
                },
            },
    {
        let ghost instrs = self.instructions@;
        let ghost open = open_loops(instrs.take(k as int));
        let host = self.host;
        let instr = self.instructions[k];
        proof {
            use_type_invariant(&*self);
            reveal(patch_sites);
            assert(instrs.take(k + 1).drop_last() =~= instrs.take(k as int));
            lemma_instruction_code_len(instrs, k as int, k + 1, host);
            lemma_open_loops_bounds(instrs.take(k as int));
            assert(opening_matched(instrs, k as int));
            assert(closing_nested(instrs, k as int));
        }
        match instr {
            Instruction::PointerIncrement(n) => {
                if n > 0x7fff_ffff {
                    return Err(CompileError::UnsupportedPointerMotion);
                }
                let bytes = pointer_code(n as i64);
                self.emit_code(bytes.as_slice())
            },
            Instruction::PointerDecrement(n) => {
                if n > 0x7fff_ffff {
                    return Err(CompileError::UnsupportedPointerMotion);
                }
                let bytes = pointer_code(-(n as i64));
                self.emit_code(bytes.as_slice())
            },
            Instruction::ValueIncrement(n) => {
                let bytes = value_code(n);
                self.emit_code(bytes.as_slice())
            },
            Instruction::ValueDecrement(n) => {
                let bytes = value_code((0xff - n).wrapping_add(1));
                self.emit_code(bytes.as_slice())
            },
            Instruction::PutChar => {
                let bytes = putchar_code(host.putchar);
                self.emit_code(bytes.as_slice())
            },
            Instruction::ReadChar => {
                let bytes = readchar_code(host.readchar);
                self.emit_code(bytes.as_slice())
            },
            Instruction::LoopStart { .. } => {
                let bytes = branch_code(0x84, 0);
                match self.emit_code(bytes.as_slice()) {
                    Ok(()) => {
                        patch_stack.push(self.code.len());
                        Ok(())
                    },
                    Err(e) => Err(e),
                }
            },
            Instruction::LoopEnd { .. } => {
                let here = self.code.len();
                // The stack is never empty here: the loops are properly nested.
                let site = match patch_stack.pop() {
                    Some(site) => site,
                    None => here,
                };
                proof {
                    lemma_code_offset_monotonic(instrs, open.last() + 1, k as int);
                    lemma_code_offset_monotonic(instrs, 0, open.last() + 1);
                }
                let bytes = branch_code(0x85, site as i64 - (here as i64 + 9));
                match self.emit_code(bytes.as_slice()) {
                    Ok(()) => {
                        let forward = signed_le_bytes(self.code.len() as i64 - site as i64);
                        self.patch(site, forward);
                        Ok(())
                    },
                    Err(e) => Err(e),
                }
            },
            Instruction::End => {
                assert(self.code@ =~= self.code@ + instruction_code(instrs, k as int, k + 1, host));
                Ok(())
            },
        }
    }

    /// Emits the whole function for the instruction sequence at the end of the code
    /// area: prologue, the code of every instruction, epilogue.
    ///
    /// Generation stops with `UnsupportedPointerMotion` at a pointer motion, forward
    /// or backward, whose count is above `0x7fff_ffff` and so does not fit a signed
    /// 32-bit immediate, and with `CodeAreaExhausted` at a piece of code that the
    /// code area has no room for. The pieces before that one stay in the code area,
    /// whole; nothing of that one is emitted.
    pub fn compile(&mut self) -> (result: Result<(), CompileError>)
        ensures
            final(self)@.instructions == old(self)@.instructions,
            final(self)@.host == old(self)@.host,
            (result, final(self)@.code) == compile_outcome(old(self)@),
    {
        let ghost instrs = self.instructions@;
        let ghost before = self.code@;
        let ghost base = self.code@.len() as int;
        let ghost host = self.host;
        proof {
            use_type_invariant(&*self);
        }
        let mut patch_stack: Vec<usize> = Vec::new();
        let entry: [u8; 12] = [0x55, 0x48, 0x89, 0xe5, 0x53, 0x48, 0x89, 0xfb, 0x48, 0x83, 0xc4, 0xf8];
        assert(entry@ =~= prologue());
        match self.emit_code(entry.as_slice()) {
            Err(e) => {
                return Err(e);
            },
            Ok(()) => {},
        }
        let count = self.instructions.len();
        let mut k: usize = 0;
        proof {
            reveal(patch_sites);
            assert(instrs.take(0) =~= Seq::<Instruction>::empty());
        }
        while k < count
            invariant
                instrs == old(self)@.instructions,
                before == old(self)@.code,
                host == old(self)@.host,
                self@.instructions == instrs,
                self@.host == host,
                well_formed(instrs),
                count == instrs.len(),
                k <= count,
                base == before.len(),
                base + prologue().len() <= CODE_AREA_SIZE,
                self@.code == before + partial_code(instrs, k as int, host),
                self@.code.len() == base + code_offset(instrs, k as int),
                self@.code.len() <= CODE_AREA_SIZE,
                stop_index(instrs, base, 0) == stop_index(instrs, base, k as int),
                patch_sites(patch_stack@, instrs, k as int, base),
            decreases count - k,
        {
            match self.emit_instruction(k, &mut patch_stack, Ghost(base)) {
                Err(e) => {
                    return Err(e);
                },
                Ok(()) => {},
            }
            proof {
                if instrs[k as int] is LoopEnd {
                    lemma_emitted_closing(instrs, k as int, host, before);
                } else {
                    lemma_emitted_plain(instrs, k as int, host, before);
                }
                lemma_code_through_len(instrs, k + 1, k + 1, host);
            }
            k = k + 1;
        }
        let exit: [u8; 10] = [0x48, 0x83, 0xc4, 0x08, 0x5b, 0x48, 0x89, 0xec, 0x5d, 0xc3];
        assert(exit@ =~= epilogue());
        match self.emit_code(exit.as_slice()) {
            Err(e) => Err(e),
            Ok(()) => {
                assert(self.code@ =~= before + machine_code(instrs, host));
                Ok(())
            },
        }
    }
}

/// `patch_stack` holds, for every loop that is open after `count` instructions, the
/// position in the code area just behind the loop's forward branch.
#[verifier::opaque]
spec fn patch_sites(patch_stack: Seq<usize>, instrs: Seq<Instruction>, count: int, base: int) -> bool {
    let open = open_loops(instrs.take(count));
    &&& patch_stack.len() == open.len()
    &&& forall|p: int|
        0 <= p < patch_stack.len() ==> (#[trigger] patch_stack[p]) == base + code_offset(
            instrs,
            open[p] + 1,
        )
}

/// The code area `code` once the code of instruction `k` has been emitted behind
/// it: the code is appended, and if the instruction closes a loop, the forward
/// branch of the loop's opening is made to reach past it.
spec fn with_instruction(
    code: Seq<u8>,
    instrs: Seq<Instruction>,
    k: int,
    host: HostRoutines,
    base: int,
) -> Seq<u8> {
    let longer = code + instruction_code(instrs, k, k + 1, host);
    match instrs[k] {
        Instruction::LoopEnd { start } => patched(
            longer,
            base + code_offset(instrs, start + 1) - 4,
            signed_le32(code_offset(instrs, k + 1) - code_offset(instrs, start + 1)),
        ),
        _ => longer,
    }
}

/// `add rbx, delta`
fn pointer_code(delta: i64) -> (bytes: [u8; 7])
    requires
        -0x8000_0000 <= delta < 0x8000_0000,
    ensures
        bytes@ == seq![0x48u8, 0x81, 0xc3] + signed_le32(delta as int),
{
    let imm = signed_le_bytes(delta);
    let bytes: [u8; 7] = [0x48, 0x81, 0xc3, imm[0], imm[1], imm[2], imm[3]];
    assert(bytes@ =~= seq![0x48u8, 0x81, 0xc3] + signed_le32(delta as int));
    bytes
}

/// `add byte [rbx], amount`
fn value_code(amount: u8) -> (bytes: [u8; 3])
    ensures
        bytes@ == seq![0x80u8, 0x03, amount],
{
    let bytes: [u8; 3] = [0x80, 0x03, amount];
    assert(bytes@ =~= seq![0x80u8, 0x03, amount]);
    bytes
}

/// `mov dil, [rbx]; mov r10, address; call r10`
fn putchar_code(address: u64) -> (bytes: [u8; 16])
    ensures
        bytes@ == seq![0x40u8, 0x8a, 0x3b, 0x49, 0xba] + le64(address) + seq![0x41u8, 0xff, 0xd2],
{
    let imm = le_bytes_u64(address);
    let bytes: [u8; 16] = [
        0x40,
        0x8a,
        0x3b,
        0x49,
        0xba,
        imm[0],
        imm[1],
        imm[2],
        imm[3],
        imm[4],
        imm[5],
        imm[6],
        imm[7],
        0x41,
        0xff,
        0xd2,
    ];
    assert(bytes@ =~= seq![0x40u8, 0x8a, 0x3b, 0x49, 0xba] + le64(address) + seq![
        0x41u8,
        0xff,
        0xd2,
    ]);
    bytes
}

/// `mov r10, address; call r10; mov [rbx], al`
fn readchar_code(address: u64) -> (bytes: [u8; 15])
    ensures
        bytes@ == seq![0x49u8, 0xba] + le64(address) + seq![0x41u8, 0xff, 0xd2, 0x88, 0x03],
{
    let imm = le_bytes_u64(address);
    let bytes: [u8; 15] = [
        0x49,
        0xba,
        imm[0],
        imm[1],
        imm[2],
        imm[3],
        imm[4],
        imm[5],
        imm[6],
        imm[7],
        0x41,
        0xff,
        0xd2,
        0x88,
        0x03,
    ];
    assert(bytes@ =~= seq![0x49u8, 0xba] + le64(address) + seq![0x41u8, 0xff, 0xd2, 0x88, 0x03]);
    bytes
}

/// `cmp byte [rbx], 0`, then the near conditional jump with second opcode byte
/// `opcode` over `displacement` bytes.
fn branch_code(opcode: u8, displacement: i64) -> (bytes: [u8; 9])
    requires
        -0x8000_0000 <= displacement < 0x8000_0000,
    ensures
        bytes@ == seq![0x80u8, 0x3b, 0x00, 0x0f, opcode] + signed_le32(displacement as int),
{
    let rel = signed_le_bytes(displacement);
    let bytes: [u8; 9] = [0x80, 0x3b, 0x00, 0x0f, opcode, rel[0], rel[1], rel[2], rel[3]];
    assert(bytes@ =~= seq![0x80u8, 0x3b, 0x00, 0x0f, opcode] + signed_le32(displacement as int));
    bytes
}

/// `code` with the four bytes from `at` on replaced by `field`.
pub open spec fn patched(code: Seq<u8>, at: int, field: Seq<u8>) -> Seq<u8> {
    code.subrange(0, at) + field + code.subrange(at + 4, code.len() as int)
}

/// The index of the first instruction at or after `from` that is not emitted, for
/// being unsupported or for want of room in a code area that held `base` bytes
/// before the function; `instrs.len()` if every instruction is emitted.
pub open spec fn stop_index(instrs: Seq<Instruction>, base: int, from: int) -> int
    decreases instrs.len() - from,
{
    if from < 0 || from >= instrs.len() {
        instrs.len() as int
    } else if !supported(instrs[from]) || base + code_offset(instrs, from + 1) > CODE_AREA_SIZE {
        from
    } else {
        stop_index(instrs, base, from + 1)
    }
}

/// How code generation ends for a generator in state `before`, and the code area
/// that it leaves.
///
/// Code is emitted piece by piece: the prologue, each instruction in turn, the
/// epilogue. Generation stops at the first unsupported instruction and at the first
/// piece that the code area has no room for; every piece before that one has been
/// emitted whole, and nothing of that one.
pub open spec fn compile_outcome(before: CompilerView) -> (Result<(), CompileError>, Seq<u8>) {
    let instrs = before.instructions;
    let base = before.code.len() as int;
    let count = instrs.len() as int;
    let stop = stop_index(instrs, base, 0);
    if base + prologue().len() > CODE_AREA_SIZE {
        (Err(CompileError::CodeAreaExhausted), before.code)
    } else if stop < count {
        (
            Err(
                if supported(instrs[stop]) {
                    CompileError::CodeAreaExhausted
                } else {
                    CompileError::UnsupportedPointerMotion
                },
            ),
            before.code + partial_code(instrs, stop, before.host),
        )
    } else if base + code_offset(instrs, count) + epilogue().len() > CODE_AREA_SIZE {
        (Err(CompileError::CodeAreaExhausted), before.code + partial_code(instrs, count, before.host))
    } else {
        (Ok(()), before.code + machine_code(instrs, before.host))
    }
}

/// The code generator can emit the whole function for `instrs` into an empty code
/// area: the sequence is well formed, every instruction is supported, and the code
/// fits.
pub open spec fn compiles(instrs: Seq<Instruction>) -> bool {
    &&& well_formed(instrs)
    &&& forall|i: int| 0 <= i < instrs.len() ==> supported(#[trigger] instrs[i])
    &&& code_offset(instrs, instrs.len() as int) + epilogue().len() <= CODE_AREA_SIZE
}

/// A pointer motion whose count is above `0x7fff_ffff`, in either direction, stops
/// generation with `UnsupportedPointerMotion` if it is reached: if the prologue and
/// the code of every instruction before it were emitted. The code area then ends
/// where the code of that instruction would begin; nothing of it is emitted.
pub proof fn lemma_over_limit_motion_is_unsupported(before: CompilerView, k: int)
    requires
        0 <= k < before.instructions.len(),
        match before.instructions[k] {
            Instruction::PointerIncrement(n) => n > 0x7fff_ffff,
            Instruction::PointerDecrement(n) => n > 0x7fff_ffff,
            _ => false,
        },
        before.code.len() + prologue().len() <= CODE_AREA_SIZE,
        stop_index(before.instructions, before.code.len() as int, 0) == k,
    ensures
        compile_outcome(before).0 == Err::<(), CompileError>(CompileError::UnsupportedPointerMotion),
        compile_outcome(before).1 == before.code + partial_code(before.instructions, k, before.host),
        compile_outcome(before).1.len() == before.code.len() + code_offset(before.instructions, k),
{
    lemma_code_through_len(before.instructions, k, k, before.host);
}

/// No instruction at or after `from` stops generation exactly if each of them is
/// supported and its code fits.
proof fn lemma_stop_index(instrs: Seq<Instruction>, base: int, from: int)
    requires
        0 <= from <= instrs.len(),
    ensures
        stop_index(instrs, base, from) == instrs.len() <==> forall|i: int|
            from <= i < instrs.len() ==> supported(#[trigger] instrs[i]) && base + code_offset(
                instrs,
                i + 1,
            ) <= CODE_AREA_SIZE,
        from <= stop_index(instrs, base, from) <= instrs.len(),
    decreases instrs.len() - from,
{
    if from < instrs.len() {
        lemma_stop_index(instrs, base, from + 1);
        if !supported(instrs[from]) || base + code_offset(instrs, from + 1) > CODE_AREA_SIZE {
            assert(stop_index(instrs, base, from) == from);
        }
    }
}

/// Generation into an empty code area succeeds exactly for the sequences that
/// compile.
pub proof fn lemma_compiles(instrs: Seq<Instruction>, host: HostRoutines)
    requires
        well_formed(instrs),
    ensures
        compile_outcome(CompilerView { instructions: instrs, code: Seq::empty(), host }).0 is Ok
            <==> compiles(instrs),
        compiles(instrs) ==> compile_outcome(
            CompilerView { instructions: instrs, code: Seq::empty(), host },
        ).1 == machine_code(instrs, host),
{
    let count = instrs.len() as int;
    lemma_stop_index(instrs, 0, 0);
    if compiles(instrs) {
        assert forall|i: int| 0 <= i < count implies supported(#[trigger] instrs[i]) && code_offset(
            instrs,
            i + 1,
        ) <= CODE_AREA_SIZE by {
            lemma_code_offset_monotonic(instrs, i + 1, count);
        }
    }
    assert(Seq::<u8>::empty() + machine_code(instrs, host) =~= machine_code(instrs, host));
}

/// The code of an instruction is settled once it is emitted, unless it opens the
/// loop that instruction `k` closes.
proof fn lemma_instruction_code_settled(instrs: Seq<Instruction>, i: int, k: int, host: HostRoutines)
    requires
        0 <= i < instrs.len(),
        instrs[i] is LoopStart ==> instrs[i]->end != k,
    ensures
        instruction_code(instrs, i, k + 1, host) == instruction_code(instrs, i, k, host),
{
}

/// Only the partner of a loop closing names it as its end.
proof fn lemma_one_opening(instrs: Seq<Instruction>, i: int, k: int)
    requires
        well_formed(instrs),
        0 <= i < instrs.len(),
        0 <= k < instrs.len(),
        instrs[i] is LoopStart,
        instrs[i]->end == k,
    ensures
        instrs[k] == (Instruction::LoopEnd { start: i as usize }),
{
    assert(opening_matched(instrs, i));
}

/// What lies behind a patched field is not touched by the patch.
proof fn lemma_patched_append(code: Seq<u8>, more: Seq<u8>, at: int, field: Seq<u8>)
    requires
        0 <= at,
        at + 4 <= code.len(),
        field.len() == 4,
    ensures
        patched(code + more, at, field) == patched(code, at, field) + more,
{
    assert(patched(code + more, at, field) =~= patched(code, at, field) + more);
}

/// Patching the last four bytes replaces them.
proof fn lemma_patched_last(code: Seq<u8>, old_field: Seq<u8>, field: Seq<u8>)
    requires
        old_field.len() == 4,
        field.len() == 4,
    ensures
        patched(code + old_field, code.len() as int, field) == code + field,
{
    assert(patched(code + old_field, code.len() as int, field) =~= code + field);
}

/// Emitting an instruction that closes no loop leaves the code before it as it is.
proof fn lemma_code_through_unchanged(
    instrs: Seq<Instruction>,
    upto: int,
    k: int,
    host: HostRoutines,
)
    requires
        well_formed(instrs),
        0 <= upto <= k < instrs.len(),
        !(instrs[k] is LoopEnd),
    ensures
        code_through(instrs, upto, k + 1, host) == code_through(instrs, upto, k, host),
    decreases upto,
{
    if upto > 0 {
        lemma_code_through_unchanged(instrs, upto - 1, k, host);
        let i = upto - 1;
        if instrs[i] is LoopStart && instrs[i]->end == k {
            lemma_one_opening(instrs, i, k);
        }
        lemma_instruction_code_settled(instrs, i, k, host);
    }
}

/// The code of a loop opening whose closing has just been emitted differs from its
/// code before in the displacement only.
proof fn lemma_opening_code(instrs: Seq<Instruction>, s: int, k: int, host: HostRoutines)
    requires
        0 <= s < k < instrs.len(),
        instrs[s] == (Instruction::LoopStart { end: k as usize }),
        k <= usize::MAX,
    ensures
        instruction_code(instrs, s, k, host) == seq![0x80u8, 0x3b, 0x00, 0x0f, 0x84] + signed_le32(0),
        instruction_code(instrs, s, k + 1, host) == seq![0x80u8, 0x3b, 0x00, 0x0f, 0x84]
            + signed_le32(code_offset(instrs, k + 1) - code_offset(instrs, s + 1)),
{
}

/// Emitting the closing of a loop changes the code before it in one place only: the
/// displacement of the opening's forward branch, which now reaches past the
/// closing.
proof fn lemma_code_through_patched(
    instrs: Seq<Instruction>,
    upto: int,
    k: int,
    host: HostRoutines,
)
    requires
        well_formed(instrs),
        0 <= upto <= k < instrs.len(),
        instrs[k] is LoopEnd,
        k <= usize::MAX,
    ensures
        upto <= instrs[k]->start ==> code_through(instrs, upto, k + 1, host) == code_through(
            instrs,
            upto,
            k,
            host,
        ),
        upto > instrs[k]->start ==> code_through(instrs, upto, k + 1, host) == patched(
            code_through(instrs, upto, k, host),
            code_offset(instrs, instrs[k]->start + 1) - 4,
            signed_le32(
                code_offset(instrs, k + 1) - code_offset(instrs, instrs[k]->start + 1),
            ),
        ),
    decreases upto,
{
    let s = instrs[k]->start as int;
    assert(closing_nested(instrs, k));
    if upto > 0 {
        let i = upto - 1;
        let before = code_through(instrs, i, k, host);
        let field = signed_le32(code_offset(instrs, k + 1) - code_offset(instrs, s + 1));
        let at = code_offset(instrs, s + 1) - 4;
        lemma_code_through_patched(instrs, i, k, host);
        lemma_code_through_len(instrs, i, k, host);
        if i == s {
            assert(closing_nested(instrs, k));
            lemma_opening_code(instrs, s, k, host);
            let head = seq![0x80u8, 0x3b, 0x00, 0x0f, 0x84];
            assert(code_through(instrs, upto, k, host) == (before + head) + signed_le32(0)) by {
                assert(before + (head + signed_le32(0)) =~= (before + head) + signed_le32(0));
            }
            assert(code_through(instrs, upto, k + 1, host) == (before + head) + field) by {
                assert(before + (head + field) =~= (before + head) + field);
            }
            lemma_patched_last(before + head, signed_le32(0), field);
        } else {
            if instrs[i] is LoopStart && instrs[i]->end == k {
                lemma_one_opening(instrs, i, k);
            }
            lemma_instruction_code_settled(instrs, i, k, host);
            if i > s {
                lemma_code_offset_monotonic(instrs, s + 1, i);
                lemma_patched_append(before, instruction_code(instrs, i, k, host), at, field);
            }
        }
    }
}

/// A patch behind a prefix is a patch of what follows the prefix.
proof fn lemma_patched_prepend(prefix: Seq<u8>, code: Seq<u8>, at: int, field: Seq<u8>)
    requires
        0 <= at,
        at + 4 <= code.len(),
        field.len() == 4,
    ensures
        patched(prefix + code, prefix.len() + at, field) == prefix + patched(code, at, field),
{
    assert(patched(prefix + code, prefix.len() + at, field) =~= prefix + patched(code, at, field));
}

/// The code area after instruction `k`, which closes no loop, has been emitted.
proof fn lemma_emitted_plain(instrs: Seq<Instruction>, k: int, host: HostRoutines, before: Seq<u8>)
    requires
        well_formed(instrs),
        0 <= k < instrs.len(),
        !(instrs[k] is LoopEnd),
    ensures
        before + partial_code(instrs, k + 1, host) == with_instruction(
            before + partial_code(instrs, k, host),
            instrs,
            k,
            host,
            before.len() as int,
        ),
{
    lemma_code_through_unchanged(instrs, k, k, host);
    assert(before + (partial_code(instrs, k, host) + instruction_code(instrs, k, k + 1, host)) =~= (
    before + partial_code(instrs, k, host)) + instruction_code(instrs, k, k + 1, host));
}

/// The code area after instruction `k`, which closes a loop, has been emitted and
/// the forward branch of the loop's opening has been patched.
proof fn lemma_emitted_closing(instrs: Seq<Instruction>, k: int, host: HostRoutines, before: Seq<u8>)
    requires
        well_formed(instrs),
        0 <= k < instrs.len(),
        instrs[k] is LoopEnd,
        k <= usize::MAX,
    ensures
        before + partial_code(instrs, k + 1, host) == with_instruction(
            before + partial_code(instrs, k, host),
            instrs,
            k,
            host,
            before.len() as int,
        ),
{
    let s = instrs[k]->start as int;
    let at = code_offset(instrs, s + 1) - 4;
    let field = signed_le32(code_offset(instrs, k + 1) - code_offset(instrs, s + 1));
    let body = partial_code(instrs, k, host);
    let last = instruction_code(instrs, k, k + 1, host);
    assert(closing_nested(instrs, k));
    lemma_code_through_patched(instrs, k, k, host);
    lemma_code_through_len(instrs, k, k, host);
    lemma_code_offset_monotonic(instrs, s + 1, k);
    lemma_code_offset_monotonic(instrs, 0, s + 1);
    lemma_patched_append(body, last, at, field);
    lemma_patched_prepend(before, body + last, at, field);
    assert((before + body) + last =~= before + (body + last));
}

} // verus!
