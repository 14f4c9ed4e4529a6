//! The front end: source text to a folded instruction sequence with resolved loops.
//!
//! The eight symbols `> < + - . , [ ]` are the whole language; every other character
//! is commentary. Runs of the same pointer or value symbol are folded into one counted
//! instruction, and every loop opening and closing is told where its partner stands.

use vstd::prelude::*;
use crate::loops::{
    lemma_open_loops_bounds, lemma_open_loops_same_loops, lemma_scan_push_closed,
    lemma_scan_same_loops, lemma_stays_open_push, lemma_stays_open_same_loops,
    lemma_stays_open_scan, same_loops, stays_open,
};

verus! {

/// One operation of the machine, after folding and loop resolution.
#[derive(Debug, Clone, Copy, PartialEq, Eq, Structural)]
pub enum Instruction {
    /// Move the cursor forward by the given number of cells.
    PointerIncrement(u32),
    /// Move the cursor backward by the given number of cells.
    PointerDecrement(u32),
    /// Add the given amount to the current cell, modulo 256.
    ValueIncrement(u8),
    /// Subtract the given amount from the current cell, modulo 256.
    ValueDecrement(u8),
    /// Write the current cell to the output.
    PutChar,
    /// Read one byte of input into the current cell.
    ReadChar,
    /// If the current cell is zero, continue just past the `LoopEnd` at index `end`.
    LoopStart { end: usize },
    /// If the current cell is not zero, continue just past the `LoopStart` at index `start`.
    LoopEnd { start: usize },
    /// Marks the end of the sequence.
    End,
}

/// Why a source text has no instruction sequence.
#[derive(Debug, Clone, Copy, PartialEq, Eq, Structural)]
pub enum ParseError {
    /// A `]` stands where no loop is open.
    UnmatchedLoopEnd,
    /// The text ends while a `[` is still open.
    UnclosedLoopStart,
}

impl Instruction {
    /// How the instruction changes the number of open loops: +1, -1 or 0.
    pub open spec fn loop_delta(self) -> int {
        match self {
            Instruction::LoopStart { .. } => 1,
            Instruction::LoopEnd { .. } => -1,
            _ => 0,
        }
    }

    /// The instruction with its loop partner forgotten.
    pub open spec fn unresolved(self) -> Instruction {
        match self {
            Instruction::LoopStart { .. } => Instruction::LoopStart { end: 0 },
            Instruction::LoopEnd { .. } => Instruction::LoopEnd { start: 0 },
            other => other,
        }
    }
}

/// The instruction that a single character stands for, with loop partners still
/// unknown; `None` for commentary.
pub open spec fn unit_instruction(c: char) -> Option<Instruction> {
    if c == '>' {
        Some(Instruction::PointerIncrement(1))
    } else if c == '<' {
        Some(Instruction::PointerDecrement(1))
    } else if c == '+' {
        Some(Instruction::ValueIncrement(1))
    } else if c == '-' {
        Some(Instruction::ValueDecrement(1))
    } else if c == '.' {
        Some(Instruction::PutChar)
    } else if c == ',' {
        Some(Instruction::ReadChar)
    } else if c == '[' {
        Some(Instruction::LoopStart { end: 0 })
    } else if c == ']' {
        Some(Instruction::LoopEnd { start: 0 })
    } else {
        None
    }
}

/// Whether `unit` is a pointer or value step that folds into a preceding `last`.
pub open spec fn folds_into(unit: Instruction, last: Instruction) -> bool {
    match (last, unit) {
        (Instruction::PointerIncrement(_), Instruction::PointerIncrement(_)) => true,
        (Instruction::PointerDecrement(_), Instruction::PointerDecrement(_)) => true,
        (Instruction::ValueIncrement(_), Instruction::ValueIncrement(_)) => true,
        (Instruction::ValueDecrement(_), Instruction::ValueDecrement(_)) => true,
        _ => false,
    }
}

/// A counted instruction with one more step folded in; the count wraps at its width.
pub open spec fn one_more(instr: Instruction) -> Instruction {
    match instr {
        Instruction::PointerIncrement(n) => Instruction::PointerIncrement(n.wrapping_add(1)),
        Instruction::PointerDecrement(n) => Instruction::PointerDecrement(n.wrapping_add(1)),
        Instruction::ValueIncrement(n) => Instruction::ValueIncrement(n.wrapping_add(1)),
        Instruction::ValueDecrement(n) => Instruction::ValueDecrement(n.wrapping_add(1)),
        other => other,
    }
}

/// `prev` with one more unit instruction taken in: folded into the last instruction
/// where that is a run of the same kind, appended otherwise.
pub open spec fn take_in(prev: Seq<Instruction>, unit: Instruction) -> Seq<Instruction> {
    if prev.len() > 0 && folds_into(unit, prev.last()) {
        prev.update(prev.len() - 1, one_more(prev.last()))
    } else {
        prev.push(unit)
    }
}

/// The folded instructions of `text`, loop partners still unknown.
pub open spec fn folded(text: Seq<char>) -> Seq<Instruction>
    decreases text.len(),
{
    if text.len() == 0 {
        Seq::empty()
    } else {
        let prev = folded(text.drop_last());
        match unit_instruction(text.last()) {
            Some(unit) => take_in(prev, unit),
            None => prev,
        }
    }
}

/// The indices of the loop openings in `shape` that have not been closed, outermost
/// first. A closing with nothing open is passed over.
pub open spec fn open_loops(shape: Seq<Instruction>) -> Seq<int>
    decreases shape.len(),
{
    if shape.len() == 0 {
        Seq::empty()
    } else {
        let before = open_loops(shape.drop_last());
        let d = shape.last().loop_delta();
        if d > 0 {
            before.push(shape.len() - 1)
        } else if d < 0 && before.len() > 0 {
            before.drop_last()
        } else {
            before
        }
    }
}

/// The index of the first loop closing at or after `from` that is not the partner of
/// an opening met on the way, `nesting` openings being already underway;
/// `shape.len()` if there is none.
pub open spec fn scan_to_close(shape: Seq<Instruction>, from: int, nesting: nat) -> int
    decreases shape.len() - from,
{
    if from < 0 || from >= shape.len() {
        shape.len() as int
    } else {
        let d = shape[from].loop_delta();
        if d < 0 && nesting == 0 {
            from
        } else {
            scan_to_close(shape, from + 1, (nesting + d) as nat)
        }
    }
}

/// The index of the closing that belongs to the loop opening at `i`.
pub open spec fn loop_end_of(shape: Seq<Instruction>, i: int) -> int {
    scan_to_close(shape, i + 1, 0)
}

/// The index of the opening that belongs to the loop closing at `j`: the innermost
/// loop that is open before `j`.
pub open spec fn loop_start_of(shape: Seq<Instruction>, j: int) -> int {
    open_loops(shape.take(j)).last()
}

/// `shape` with every loop instruction told where its partner stands.
pub open spec fn resolved(shape: Seq<Instruction>) -> Seq<Instruction> {
    Seq::new(
        shape.len(),
        |i: int|
            match shape[i] {
                Instruction::LoopStart { .. } => Instruction::LoopStart {
                    end: loop_end_of(shape, i) as usize,
                },
                Instruction::LoopEnd { .. } => Instruction::LoopEnd {
                    start: loop_start_of(shape, i) as usize,
                },
                other => other,
            },
    )
}

/// The instruction sequence of a source text: folded, resolved, and closed by `End`.
pub open spec fn program_instructions(text: Seq<char>) -> Seq<Instruction> {
    resolved(folded(text)).push(Instruction::End)
}

/// The number of `[` in `text` minus the number of `]`.
pub open spec fn loop_depth(text: Seq<char>) -> int
    decreases text.len(),
{
    if text.len() == 0 {
        0
    } else {
        let c = text.last();
        loop_depth(text.drop_last()) + if c == '[' {
            1int
        } else if c == ']' {
            -1int
        } else {
            0int
        }
    }
}

/// Some `]` in `text` stands where no loop is open.
pub open spec fn closes_unopened(text: Seq<char>) -> bool {
    exists|k: int| 0 <= k <= text.len() && #[trigger] loop_depth(text.take(k)) < 0
}

/// Every `]` of `text` closes a `[` before it, and every `[` is closed.
pub open spec fn balanced(text: Seq<char>) -> bool {
    !closes_unopened(text) && loop_depth(text) == 0
}

/// If a loop opens at `i`, it names a later closing that names it back.
pub open spec fn opening_matched(instrs: Seq<Instruction>, i: int) -> bool {
    instrs[i] matches Instruction::LoopStart { end } ==> {
        &&& i < end < instrs.len()
        &&& instrs[end as int] == Instruction::LoopEnd { start: i as usize }
    }
}

/// If a loop closes at `j`, it names an earlier opening that names it back, and that
/// opening is the innermost loop open before `j`.
pub open spec fn closing_nested(instrs: Seq<Instruction>, j: int) -> bool {
    instrs[j] matches Instruction::LoopEnd { start } ==> {
        &&& start < j
        &&& instrs[start as int] == Instruction::LoopStart { end: j as usize }
        &&& open_loops(instrs.take(j)).len() > 0
        &&& open_loops(instrs.take(j)).last() == start
    }
}

/// Every loop opening names a later closing that names it back.
pub open spec fn loops_matched(instrs: Seq<Instruction>) -> bool {
    forall|i: int| 0 <= i < instrs.len() ==> #[trigger] opening_matched(instrs, i)
}

/// Every loop closing names an earlier opening that names it back, and loops do not
/// overlap: a closing always belongs to the innermost open loop.
pub open spec fn loops_nested(instrs: Seq<Instruction>) -> bool {
    forall|j: int| 0 <= j < instrs.len() ==> #[trigger] closing_nested(instrs, j)
}

/// `End` stands at index `i` if and only if `i` is the last index.
pub open spec fn end_is_last(instrs: Seq<Instruction>, i: int) -> bool {
    instrs[i] is End <==> i == instrs.len() - 1
}

/// What holds of every instruction sequence that the front end hands out: `End` is
/// its last instruction and stands nowhere else, and its loops are matched and
/// properly nested.
pub open spec fn well_formed(instrs: Seq<Instruction>) -> bool {
    &&& instrs.len() > 0
    &&& forall|i: int| 0 <= i < instrs.len() ==> #[trigger] end_is_last(instrs, i)
    &&& loops_matched(instrs)
    &&& loops_nested(instrs)
}

/// The loop opening at `i` has been closed, and both ends name each other.
spec fn loop_closed(instrs: Seq<Instruction>, shape: Seq<Instruction>, i: int) -> bool {
    let e = loop_end_of(shape, i);
    &&& i < e < shape.len()
    &&& instrs[i] == Instruction::LoopStart { end: e as usize }
    &&& instrs[e] == Instruction::LoopEnd { start: i as usize }
}

/// The loop closing at `j` names the innermost loop open before it, and is named
/// back.
spec fn loop_opened(instrs: Seq<Instruction>, shape: Seq<Instruction>, j: int) -> bool {
    let s = loop_start_of(shape, j);
    &&& open_loops(shape.take(j)).len() > 0
    &&& 0 <= s < j
    &&& instrs[j] == Instruction::LoopEnd { start: s as usize }
    &&& instrs[s] == Instruction::LoopStart { end: j as usize }
}

/// What the pass knows of the instruction at `i`: it is the folded instruction of
/// the text, a loop closing is resolved, and a loop opening is resolved unless it is
/// still open.
spec fn entry_ok(instrs: Seq<Instruction>, shape: Seq<Instruction>, stack: Seq<usize>, i: int) -> bool {
    &&& instrs[i].unresolved() == shape[i]
    &&& !(instrs[i] is End)
    &&& shape[i] is LoopStart ==> stack.contains(i as usize) || loop_closed(instrs, shape, i)
    &&& shape[i] is LoopEnd ==> loop_opened(instrs, shape, i)
}

/// What the pass knows of the open loop at depth `p`: it is an unresolved opening,
/// and the instructions after it close all but the loops opened since.
spec fn slot_ok(instrs: Seq<Instruction>, shape: Seq<Instruction>, stack: Seq<usize>, p: int) -> bool {
    &&& stack[p] as int == open_loops(shape)[p]
    &&& stack[p] < shape.len()
    &&& instrs[stack[p] as int] == Instruction::LoopStart { end: 0 }
    &&& stays_open(shape, stack[p] + 1, 0, (stack.len() - 1 - p) as nat)
}

/// What the pass has established once it has read `text`: `instrs` are the folded
/// instructions of `text`, `stack` holds the loops still open, every loop already
/// closed is resolved, and every open one still waits for its closing.
spec fn pass_state(text: Seq<char>, instrs: Seq<Instruction>, stack: Seq<usize>) -> bool {
    let shape = folded(text);
    &&& instrs.len() == shape.len()
    &&& stack.len() == loop_depth(text)
    &&& stack.len() == open_loops(shape).len()
    &&& forall|i: int| 0 <= i < instrs.len() ==> #[trigger] entry_ok(instrs, shape, stack, i)
    &&& forall|p: int| 0 <= p < stack.len() ==> #[trigger] slot_ok(instrs, shape, stack, p)
}

/// What one more character does to the folded instructions and to the loop depth.
proof fn lemma_folded_push(text: Seq<char>, c: char)
    ensures
        folded(text.push(c)) == match unit_instruction(c) {
            Some(unit) => take_in(folded(text), unit),
            None => folded(text),
        },
        loop_depth(text.push(c)) == loop_depth(text) + if c == '[' {
            1int
        } else if c == ']' {
            -1int
        } else {
            0int
        },
{
    assert(text.push(c).drop_last() =~= text);
    assert(text.push(c).last() == c);
}

/// Commentary changes nothing.
proof fn lemma_pass_skip(text: Seq<char>, c: char, instrs: Seq<Instruction>, stack: Seq<usize>)
    requires
        pass_state(text, instrs, stack),
        unit_instruction(c) is None,
    ensures
        pass_state(text.push(c), instrs, stack),
{
    lemma_folded_push(text, c);
}

/// A step that opens or closes no loop is folded in or appended; the loops stay as
/// they are.
proof fn lemma_pass_plain(text: Seq<char>, c: char, instrs: Seq<Instruction>, stack: Seq<usize>)
    requires
        pass_state(text, instrs, stack),
        unit_instruction(c) is Some,
        unit_instruction(c)->0.loop_delta() == 0,
    ensures
        pass_state(text.push(c), take_in(instrs, unit_instruction(c)->0), stack),
{
    lemma_folded_push(text, c);
    let unit = unit_instruction(c)->0;
    let shape = folded(text);
    let n = shape.len() as int;
    let shape2 = folded(text.push(c));
    let instrs2 = take_in(instrs, unit);
    if n > 0 {
        assert(entry_ok(instrs, shape, stack, n - 1));
    }
    if n > 0 && folds_into(unit, shape.last()) {
        assert(instrs.last() == shape.last());
        assert(same_loops(shape, shape2));
        lemma_open_loops_same_loops(shape, shape2);
        assert forall|p: int| 0 <= p < stack.len() implies #[trigger] slot_ok(
            instrs2,
            shape2,
            stack,
            p,
        ) by {
            assert(slot_ok(instrs, shape, stack, p));
            lemma_stays_open_same_loops(shape, shape2, stack[p] + 1, 0, (stack.len() - 1 - p) as nat);
        }
        assert forall|i: int| 0 <= i < instrs2.len() implies #[trigger] entry_ok(
            instrs2,
            shape2,
            stack,
            i,
        ) by {
            assert(entry_ok(instrs, shape, stack, i));
            if shape[i] is LoopStart {
                lemma_scan_same_loops(shape, shape2, i + 1, 0);
            }
            if shape[i] is LoopEnd {
                assert(shape2.take(i) =~= shape.take(i));
            }
        }
    } else {
        assert(shape2 == shape.push(unit));
        assert(instrs2 == instrs.push(unit));
        assert(shape2.drop_last() =~= shape);
        assert forall|p: int| 0 <= p < stack.len() implies #[trigger] slot_ok(
            instrs2,
            shape2,
            stack,
            p,
        ) by {
            assert(slot_ok(instrs, shape, stack, p));
            lemma_stays_open_push(shape, unit, stack[p] + 1, 0, (stack.len() - 1 - p) as nat);
        }
        assert forall|i: int| 0 <= i < instrs2.len() implies #[trigger] entry_ok(
            instrs2,
            shape2,
            stack,
            i,
        ) by {
            if i < n {
                assert(entry_ok(instrs, shape, stack, i));
                if shape[i] is LoopStart && !stack.contains(i as usize) {
                    lemma_scan_push_closed(shape, unit, i + 1, 0);
                }
                if shape[i] is LoopEnd {
                    assert(shape2.take(i) =~= shape.take(i));
                }
            }
        }
    }
}

/// A loop opening is appended unresolved and becomes the innermost open loop.
proof fn lemma_pass_open(text: Seq<char>, instrs: Seq<Instruction>, stack: Seq<usize>)
    requires
        pass_state(text, instrs, stack),
        instrs.len() <= usize::MAX,
    ensures
        pass_state(
            text.push('['),
            instrs.push(Instruction::LoopStart { end: 0 }),
            stack.push(instrs.len() as usize),
        ),
{
    lemma_folded_push(text, '[');
    let unit = Instruction::LoopStart { end: 0 };
    let shape = folded(text);
    let n = shape.len() as int;
    let shape2 = folded(text.push('['));
    let instrs2 = instrs.push(unit);
    let stack2 = stack.push(n as usize);
    assert(shape2 == shape.push(unit));
    assert(shape2.drop_last() =~= shape);
    assert forall|p: int| 0 <= p < stack2.len() implies #[trigger] slot_ok(
        instrs2,
        shape2,
        stack2,
        p,
    ) by {
        if p < stack.len() {
            assert(slot_ok(instrs, shape, stack, p));
            lemma_stays_open_push(shape, unit, stack[p] + 1, 0, (stack.len() - 1 - p) as nat);
        }
    }
    assert forall|i: int| 0 <= i < instrs2.len() implies #[trigger] entry_ok(
        instrs2,
        shape2,
        stack2,
        i,
    ) by {
        if i == n {
            assert(stack2[stack.len() as int] == n as usize);
        } else {
            assert(entry_ok(instrs, shape, stack, i));
            if shape[i] is LoopStart {
                if stack.contains(i as usize) {
                    let p = choose|p: int| 0 <= p < stack.len() && stack[p] == i as usize;
                    assert(stack2[p] == i as usize);
                } else {
                    lemma_scan_push_closed(shape, unit, i + 1, 0);
                }
            }
            if shape[i] is LoopEnd {
                assert(shape2.take(i) =~= shape.take(i));
            }
        }
    }
}

/// The open loops stand in increasing order.
proof fn lemma_open_loops_increasing(shape: Seq<Instruction>, p: int, q: int)
    requires
        0 <= p < q < open_loops(shape).len(),
    ensures
        open_loops(shape)[p] < open_loops(shape)[q],
    decreases shape.len(),
{
    lemma_open_loops_bounds(shape.drop_last());
    let before = open_loops(shape.drop_last());
    if shape.last().loop_delta() > 0 {
        if q < before.len() {
            lemma_open_loops_increasing(shape.drop_last(), p, q);
        }
    } else {
        lemma_open_loops_increasing(shape.drop_last(), p, q);
    }
}

/// A loop closing resolves the innermost open loop: both ends learn of each other,
/// and the loop is open no more.
proof fn lemma_pass_close(text: Seq<char>, instrs: Seq<Instruction>, stack: Seq<usize>)
    requires
        pass_state(text, instrs, stack),
        stack.len() > 0,
        instrs.len() <= usize::MAX,
    ensures
        pass_state(
            text.push(']'),
            instrs.update(
                stack.last() as int,
                Instruction::LoopStart { end: instrs.len() as usize },
            ).push(Instruction::LoopEnd { start: stack.last() }),
            stack.drop_last(),
        ),
{
    lemma_folded_push(text, ']');
    let unit = Instruction::LoopEnd { start: 0 };
    let shape = folded(text);
    let n = shape.len() as int;
    let top = stack.len() - 1;
    let s = stack[top] as int;
    let shape2 = folded(text.push(']'));
    let instrs2 = instrs.update(s, Instruction::LoopStart { end: n as usize }).push(
        Instruction::LoopEnd { start: s as usize },
    );
    let stack2 = stack.drop_last();
    assert(slot_ok(instrs, shape, stack, top));
    assert(entry_ok(instrs, shape, stack, s));
    assert(shape2 == shape.push(unit));
    assert(shape2.drop_last() =~= shape);
    assert(shape2.take(n) =~= shape);
    lemma_stays_open_push(shape, unit, s + 1, 0, 0);
    lemma_stays_open_scan(shape, s + 1, 0, 0);
    assert forall|p: int| 0 <= p < stack2.len() implies #[trigger] slot_ok(
        instrs2,
        shape2,
        stack2,
        p,
    ) by {
        assert(slot_ok(instrs, shape, stack, p));
        lemma_open_loops_increasing(shape, p, top);
        lemma_stays_open_push(shape, unit, stack[p] + 1, 0, (stack.len() - 1 - p) as nat);
    }
    assert forall|i: int| 0 <= i < instrs2.len() implies #[trigger] entry_ok(
        instrs2,
        shape2,
        stack2,
        i,
    ) by {
        if i < n {
            assert(entry_ok(instrs, shape, stack, i));
            if i == s {
            } else if shape[i] is LoopStart {
                if stack.contains(i as usize) {
                    let p = choose|p: int| 0 <= p < stack.len() && stack[p] == i as usize;
                    assert(stack2[p] == i as usize);
                } else {
                    lemma_scan_push_closed(shape, unit, i + 1, 0);
                    let e = loop_end_of(shape, i);
                    assert(entry_ok(instrs, shape, stack, e));
                }
            } else if shape[i] is LoopEnd {
                assert(shape2.take(i) =~= shape.take(i));
            }
        }
    }
}

/// When the pass ends with no loop open, what it has built is the resolved, folded
/// program.
proof fn lemma_pass_done(text: Seq<char>, instrs: Seq<Instruction>, stack: Seq<usize>)
    requires
        pass_state(text, instrs, stack),
        stack.len() == 0,
    ensures
        instrs.push(Instruction::End) == program_instructions(text),
{
    let shape = folded(text);
    assert forall|i: int| 0 <= i < instrs.len() implies instrs[i] == resolved(shape)[i] by {
        assert(entry_ok(instrs, shape, stack, i));
    }
    assert(instrs =~= resolved(shape));
}

/// When the pass ends with no loop open, what it has built is well formed once
/// `End` is appended.
proof fn lemma_pass_well_formed(text: Seq<char>, instrs: Seq<Instruction>, stack: Seq<usize>)
    requires
        pass_state(text, instrs, stack),
        stack.len() == 0,
        instrs.len() <= usize::MAX,
    ensures
        well_formed(instrs.push(Instruction::End)),
{
    let shape = folded(text);
    let full = instrs.push(Instruction::End);
    assert forall|i: int| 0 <= i < full.len() implies #[trigger] end_is_last(full, i) by {
        if i < instrs.len() {
            assert(entry_ok(instrs, shape, stack, i));
        }
    }
    assert forall|i: int| 0 <= i < full.len() implies #[trigger] opening_matched(full, i) by {
        if i < instrs.len() {
            assert(entry_ok(instrs, shape, stack, i));
        }
    }
    assert forall|j: int| 0 <= j < full.len() implies #[trigger] closing_nested(full, j) by {
        if j < instrs.len() {
            assert(entry_ok(instrs, shape, stack, j));
            if shape[j] is LoopEnd {
                assert(same_loops(full.take(j), shape.take(j))) by {
                    assert forall|i: int| 0 <= i < j implies (#[trigger] full.take(j)[i]).loop_delta()
                        == shape.take(j)[i].loop_delta() by {
                        assert(entry_ok(instrs, shape, stack, i));
                    }
                }
                lemma_open_loops_same_loops(full.take(j), shape.take(j));
            }
        }
    }
}

/// The state that the pass reaches on a text in which no `]` closes a loop that
/// is not open.
proof fn lemma_pass(text: Seq<char>) -> (state: (Seq<Instruction>, Seq<usize>))
    requires
        !closes_unopened(text),
        text.len() <= usize::MAX,
    ensures
        pass_state(text, state.0, state.1),
        state.0.len() <= text.len(),
    decreases text.len(),
{
    if text.len() == 0 {
        (Seq::empty(), Seq::empty())
    } else {
        let shorter = text.drop_last();
        let c = text.last();
        assert(shorter.push(c) =~= text);
        assert(text.take(text.len() as int) =~= text);
        assert(loop_depth(text.take(text.len() as int)) >= 0);
        assert forall|k: int| 0 <= k <= shorter.len() implies loop_depth(#[trigger] shorter.take(k))
            >= 0 by {
            assert(shorter.take(k) =~= text.take(k));
            assert(loop_depth(text.take(k)) >= 0);
        }
        let (instrs, stack) = lemma_pass(shorter);
        lemma_folded_push(shorter, c);
        if c == '[' {
            lemma_pass_open(shorter, instrs, stack);
            (instrs.push(Instruction::LoopStart { end: 0 }), stack.push(instrs.len() as usize))
        } else if c == ']' {
            lemma_pass_close(shorter, instrs, stack);
            (
                instrs.update(
                    stack.last() as int,
                    Instruction::LoopStart { end: instrs.len() as usize },
                ).push(Instruction::LoopEnd { start: stack.last() }),
                stack.drop_last(),
            )
        } else if unit_instruction(c) is Some {
            lemma_pass_plain(shorter, c, instrs, stack);
            (take_in(instrs, unit_instruction(c)->0), stack)
        } else {
            lemma_pass_skip(shorter, c, instrs, stack);
            (instrs, stack)
        }
    }
}

/// The instruction sequence of every balanced text is well formed. In particular
/// every loop opening in it names a later closing that names it back.
pub proof fn lemma_balanced_program_is_well_formed(text: Seq<char>)
    requires
        balanced(text),
        text.len() < usize::MAX,
    ensures
        well_formed(program_instructions(text)),
        loops_matched(program_instructions(text)),
{
    let (instrs, stack) = lemma_pass(text);
    lemma_pass_done(text, instrs, stack);
    lemma_pass_well_formed(text, instrs, stack);
}

/// Takes one pointer or value step into `instrs`: into the run at its end where that
/// is of the same kind, as a new instruction otherwise.
fn fold_in(instrs: &mut Vec<Instruction>, unit: Instruction)
    ensures
        final(instrs)@ == take_in(old(instrs)@, unit),
{
    let n = instrs.len();
    if n > 0 {
        let merged = match (instrs[n - 1], unit) {
            (Instruction::PointerIncrement(k), Instruction::PointerIncrement(_)) => Some(
                Instruction::PointerIncrement(k.wrapping_add(1)),
            ),
            (Instruction::PointerDecrement(k), Instruction::PointerDecrement(_)) => Some(
                Instruction::PointerDecrement(k.wrapping_add(1)),
            ),
            (Instruction::ValueIncrement(k), Instruction::ValueIncrement(_)) => Some(
                Instruction::ValueIncrement(k.wrapping_add(1)),
            ),
            (Instruction::ValueDecrement(k), Instruction::ValueDecrement(_)) => Some(
                Instruction::ValueDecrement(k.wrapping_add(1)),
            ),
            _ => None,
        };
        if let Some(run) = merged {
            instrs[n - 1] = run;
            return ;
        }
    }
    instrs.push(unit);
}

/// Turns source text into its instruction sequence in one pass from left to right.
///
/// Characters other than the eight symbols are passed over. Runs of `>`, `<`, `+` or
/// `-` become one counted instruction each, the count wrapping at its width. Every
/// `[` and `]` is told the index of its partner, and `End` closes the sequence.
///
/// The text is turned down if its loops do not balance: with `UnmatchedLoopEnd` if
/// some `]` has no `[` open before it, else with `UnclosedLoopStart` if a `[` is
/// never closed.
pub fn parser(program: &str) -> (result: Result<Vec<Instruction>, ParseError>)
    ensures
        match result {
            Ok(instrs) => {
                &&& balanced(program@)
                &&& instrs@ == program_instructions(program@)
                &&& well_formed(instrs@)
            },
            Err(ParseError::UnmatchedLoopEnd) => closes_unopened(program@),
            Err(ParseError::UnclosedLoopStart) => !closes_unopened(program@) && loop_depth(
                program@,
            ) > 0,
        },
{
    let mut instrs: Vec<Instruction> = Vec::new();
    let mut jump_stack: Vec<usize> = Vec::new();
    for c in it: program.chars()
        invariant
            it.seq() == program@,
            pass_state(program@.take(it.index() as int), instrs@, jump_stack@),
            forall|k: int| 0 <= k <= it.index() ==> #[trigger] loop_depth(program@.take(k)) >= 0,
    {
        let ghost read = program@.take(it.index() as int);
        proof {
            assert(program@.take(it.index() + 1) =~= read.push(c));
            lemma_folded_push(read, c);
        }
        if c == '>' {
            proof {
                lemma_pass_plain(read, c, instrs@, jump_stack@);
            }
            fold_in(&mut instrs, Instruction::PointerIncrement(1));
        } else if c == '<' {
            proof {
                lemma_pass_plain(read, c, instrs@, jump_stack@);
            }
            fold_in(&mut instrs, Instruction::PointerDecrement(1));
        } else if c == '+' {
            proof {
                lemma_pass_plain(read, c, instrs@, jump_stack@);
            }
            fold_in(&mut instrs, Instruction::ValueIncrement(1));
        } else if c == '-' {
            proof {
                lemma_pass_plain(read, c, instrs@, jump_stack@);
            }
            fold_in(&mut instrs, Instruction::ValueDecrement(1));
        } else if c == '.' {
            proof {
                lemma_pass_plain(read, c, instrs@, jump_stack@);
            }
            instrs.push(Instruction::PutChar);
        } else if c == ',' {
            proof {
                lemma_pass_plain(read, c, instrs@, jump_stack@);
            }
            instrs.push(Instruction::ReadChar);
        } else if c == '[' {
            proof {
                assert(instrs.len() <= usize::MAX);
                lemma_pass_open(read, instrs@, jump_stack@);
            }
            jump_stack.push(instrs.len());
            instrs.push(Instruction::LoopStart { end: 0 });
        } else if c == ']' {
            let ghost open = jump_stack@;
            match jump_stack.pop() {
                Some(start) => {
                    proof {
                        assert(instrs.len() <= usize::MAX);
                        assert(slot_ok(instrs@, folded(read), open, open.len() - 1));
                        lemma_pass_close(read, instrs@, open);
                    }
                    let end = instrs.len();
                    instrs[start] = Instruction::LoopStart { end };
                    instrs.push(Instruction::LoopEnd { start });
                },
                None => {
                    proof {
                        assert(loop_depth(program@.take(it.index() + 1)) < 0);
                    }
                    return Err(ParseError::UnmatchedLoopEnd);
                },
            }
        } else {
            proof {
                lemma_pass_skip(read, c, instrs@, jump_stack@);
            }
        }
    }
    proof {
        assert(program@.take(program@.len() as int) =~= program@);
    }
    if jump_stack.len() > 0 {
        return Err(ParseError::UnclosedLoopStart);
    }
    proof {
        assert(instrs.len() <= usize::MAX);
        lemma_pass_done(program@, instrs@, jump_stack@);
        lemma_pass_well_formed(program@, instrs@, jump_stack@);
    }
    instrs.push(Instruction::End);
    Ok(instrs)
}

/// Whether `instructions` is a well-formed instruction sequence: `End` last and
/// nowhere else, loops matched and properly nested.
pub fn is_well_formed(instructions: &Vec<Instruction>) -> (ok: bool)
    ensures
        ok == well_formed(instructions@),
{
    let ghost instrs = instructions@;
    let count = instructions.len();
    if count == 0 {
        return false;
    }
    let mut open: Vec<usize> = Vec::new();
    let mut j: usize = 0;
    assert(instrs.take(0) =~= Seq::<Instruction>::empty());
    while j < count
        invariant
            instrs == instructions@,
            count == instrs.len(),
            j <= count,
            open@.len() == open_loops(instrs.take(j as int)).len(),
            forall|p: int|
                0 <= p < open@.len() ==> (#[trigger] open@[p]) as int == open_loops(
                    instrs.take(j as int),
                )[p],
            forall|i: int| 0 <= i < j ==> #[trigger] end_is_last(instrs, i),
            forall|i: int| 0 <= i < j ==> #[trigger] opening_matched(instrs, i),
            forall|i: int| 0 <= i < j ==> #[trigger] closing_nested(instrs, i),
        decreases count - j,
    {
        proof {
            assert(instrs.take(j + 1).drop_last() =~= instrs.take(j as int));
            lemma_open_loops_bounds(instrs.take(j as int));
        }
        let ghost before = open_loops(instrs.take(j as int));
        match instructions[j] {
            Instruction::LoopStart { end } => {
                if end <= j || end >= count {
                    assert(!opening_matched(instrs, j as int));
                    return false;
                }
                let closes_this = match instructions[end] {
                    Instruction::LoopEnd { start } => start == j,
                    _ => false,
                };
                if !closes_this {
                    assert(!opening_matched(instrs, j as int));
                    return false;
                }
                open.push(j);
            },
            Instruction::LoopEnd { start } => {
                if j == count - 1 {
                    assert(!end_is_last(instrs, j as int));
                    return false;
                }
                let innermost = match open.pop() {
                    Some(innermost) => innermost,
                    None => {
                        assert(!closing_nested(instrs, j as int));
                        return false;
                    },
                };
                if innermost != start {
                    assert(!closing_nested(instrs, j as int));
                    return false;
                }
                let opens_this = match instructions[start] {
                    Instruction::LoopStart { end } => end == j,
                    _ => false,
                };
                if !opens_this {
                    assert(!closing_nested(instrs, j as int));
                    return false;
                }
            },
            Instruction::End => {
                if j != count - 1 {
                    assert(!end_is_last(instrs, j as int));
                    return false;
                }
            },
            _ => {
                if j == count - 1 {
                    assert(!end_is_last(instrs, j as int));
                    return false;
                }
            },
        }
        j = j + 1;
    }
    true
}

} // verus!
