//! The tape and what the pointer and value instructions do to it.

use vstd::prelude::*;
use crate::parser::Instruction;

verus! {

/// The number of cells of the tape.
pub const MEMORY_SIZE: usize = 30000;

/// The tape and its cursor.
pub ghost struct Tape {
    /// The cells, one byte each.
    pub cells: Seq<u8>,
    /// The index of the current cell.
    pub cursor: int,
}

impl Tape {
    /// A tape of `MEMORY_SIZE` zero cells with the cursor at its midpoint.
    pub open spec fn fresh() -> Tape {
        Tape { cells: Seq::new(MEMORY_SIZE as nat, |i: int| 0u8), cursor: MEMORY_SIZE as int / 2 }
    }

    /// The cursor addresses a cell of the tape.
    pub open spec fn in_range(self) -> bool {
        0 <= self.cursor < self.cells.len()
    }

    /// The current cell.
    pub open spec fn current(self) -> u8 {
        self.cells[self.cursor]
    }

    /// The tape with `value` stored in the current cell.
    pub open spec fn store(self, value: u8) -> Tape {
        if self.in_range() {
            Tape { cells: self.cells.update(self.cursor, value), ..self }
        } else {
            self
        }
    }
}

/// The cells of a fresh tape: `MEMORY_SIZE` zeros.
pub fn fresh_memory() -> (memory: Vec<u8>)
    ensures
        memory@ == Tape::fresh().cells,
{
    let mut memory: Vec<u8> = Vec::new();
    let mut i: usize = 0;
    while i < MEMORY_SIZE
        invariant
            i <= MEMORY_SIZE,
            memory@.len() == i,
            forall|j: int| 0 <= j < i ==> memory@[j] == 0,
        decreases MEMORY_SIZE - i,
    {
        memory.push(0);
        i = i + 1;
    }
    assert(memory@ =~= Tape::fresh().cells);
    memory
}

/// The tape after a pointer or value instruction. A pointer instruction moves the
/// cursor by its count. A value instruction adds its count to the current cell, or
/// subtracts it, modulo 256. The other instructions leave the tape as it is.
pub open spec fn apply(instr: Instruction, tape: Tape) -> Tape {
    match instr {
        Instruction::PointerIncrement(n) => Tape { cursor: tape.cursor + n, ..tape },
        Instruction::PointerDecrement(n) => Tape { cursor: tape.cursor - n, ..tape },
        Instruction::ValueIncrement(n) => tape.store(((tape.current() + n) % 256) as u8),
        Instruction::ValueDecrement(n) => tape.store(((tape.current() - n) % 256) as u8),
        _ => tape,
    }
}

/// The step of which a counted instruction is a run: the same instruction with
/// count 1. Any other instruction is its own single step.
pub open spec fn unit_of(instr: Instruction) -> Instruction {
    match instr {
        Instruction::PointerIncrement(_) => Instruction::PointerIncrement(1),
        Instruction::PointerDecrement(_) => Instruction::PointerDecrement(1),
        Instruction::ValueIncrement(_) => Instruction::ValueIncrement(1),
        Instruction::ValueDecrement(_) => Instruction::ValueDecrement(1),
        other => other,
    }
}

/// The number of unit steps that an instruction stands for.
pub open spec fn count_of(instr: Instruction) -> nat {
    match instr {
        Instruction::PointerIncrement(n) => n as nat,
        Instruction::PointerDecrement(n) => n as nat,
        Instruction::ValueIncrement(n) => n as nat,
        Instruction::ValueDecrement(n) => n as nat,
        _ => 1,
    }
}

/// The tape after `times` applications of `unit`.
pub open spec fn repeated(unit: Instruction, times: nat, tape: Tape) -> Tape
    decreases times,
{
    if times == 0 {
        tape
    } else {
        apply(unit, repeated(unit, (times - 1) as nat, tape))
    }
}

/// A run of unit pointer steps moves the cursor by the length of the run.
proof fn lemma_repeated_pointer(forward: bool, times: nat, tape: Tape)
    ensures
        repeated(
            if forward {
                Instruction::PointerIncrement(1)
            } else {
                Instruction::PointerDecrement(1)
            },
            times,
            tape,
        ) == (Tape {
            cursor: if forward {
                tape.cursor + times
            } else {
                tape.cursor - times
            },
            ..tape
        }),
    decreases times,
{
    if times > 0 {
        lemma_repeated_pointer(forward, (times - 1) as nat, tape);
    }
}

/// A run of unit value steps changes the current cell by the length of the run,
/// modulo 256.
proof fn lemma_repeated_value(up: bool, times: nat, tape: Tape)
    ensures
        repeated(
            if up {
                Instruction::ValueIncrement(1)
            } else {
                Instruction::ValueDecrement(1)
            },
            times,
            tape,
        ) == if times == 0 {
            tape
        } else {
            tape.store(
                (if up {
                    (tape.current() + times) % 256
                } else {
                    (tape.current() - times) % 256
                }) as u8,
            )
        },
    decreases times,
{
    if times > 1 {
        lemma_repeated_value(up, (times - 1) as nat, tape);
        let before = repeated(
            if up {
                Instruction::ValueIncrement(1)
            } else {
                Instruction::ValueDecrement(1)
            },
            (times - 1) as nat,
            tape,
        );
        if tape.in_range() {
            assert(before.cells.update(before.cursor, before.current()) =~= before.cells);
            assert(tape.cells.update(tape.cursor, before.current()).update(
                tape.cursor,
                apply(
                    if up {
                        Instruction::ValueIncrement(1)
                    } else {
                        Instruction::ValueDecrement(1)
                    },
                    before,
                ).current(),
            ) =~= tape.cells.update(
                tape.cursor,
                apply(
                    if up {
                        Instruction::ValueIncrement(1)
                    } else {
                        Instruction::ValueDecrement(1)
                    },
                    before,
                ).current(),
            ));
        }
    } else if times == 1 {
        assert(repeated(
            if up {
                Instruction::ValueIncrement(1)
            } else {
                Instruction::ValueDecrement(1)
            },
            0,
            tape,
        ) == tape);
    }
}

/// Folding is transparent: an instruction does to the tape what its unit step does
/// when it is applied as many times as the instruction counts. A count of zero,
/// which a run reaches by wrapping, leaves the tape as it is.
pub proof fn lemma_fold_transparency(instr: Instruction, tape: Tape)
    ensures
        apply(instr, tape) == repeated(unit_of(instr), count_of(instr), tape),
{
    match instr {
        Instruction::PointerIncrement(n) => {
            lemma_repeated_pointer(true, n as nat, tape);
        },
        Instruction::PointerDecrement(n) => {
            lemma_repeated_pointer(false, n as nat, tape);
        },
        Instruction::ValueIncrement(n) => {
            lemma_repeated_value(true, n as nat, tape);
            if n == 0 && tape.in_range() {
                assert(tape.cells.update(tape.cursor, tape.current()) =~= tape.cells);
            }
        },
        Instruction::ValueDecrement(n) => {
            lemma_repeated_value(false, n as nat, tape);
            if n == 0 && tape.in_range() {
                assert(tape.cells.update(tape.cursor, tape.current()) =~= tape.cells);
            }
        },
        _ => {
            assert(repeated(instr, 0, tape) == tape);
        },
    }
}

} // verus!
