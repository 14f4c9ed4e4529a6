//! Commentary: a text without symbols is a program that does nothing, whichever way
//! it is run.

use vstd::prelude::*;
use crate::compiler::compiles;
use crate::encoding::{
    code_offset, code_through, epilogue, instruction_code, machine_code, prologue, HostRoutines,
};
use crate::interpreter::{is_symbol, run_of, symbols, RuntimeView};
use crate::machine::{execution_of, MachineView};
use crate::native::{bytes_at, decode, native_run, NativeOp, NativeStep, NativeView};
use crate::parser::{
    balanced, closing_nested, end_is_last, folded, loop_depth, opening_matched,
    program_instructions, Instruction,
};
use crate::tape::Tape;

verus! {

/// No character of `text` is a symbol of the language.
pub open spec fn is_commentary(text: Seq<char>) -> bool {
    forall|i: int| 0 <= i < text.len() ==> !is_symbol(#[trigger] text[i])
}

/// Commentary holds no symbols, folds to nothing, and opens no loop.
proof fn lemma_commentary_is_empty(text: Seq<char>)
    requires
        is_commentary(text),
    ensures
        symbols(text) == Seq::<char>::empty(),
        folded(text) == Seq::<Instruction>::empty(),
        loop_depth(text) == 0,
    decreases text.len(),
{
    if text.len() > 0 {
        assert(!is_symbol(text[text.len() - 1]));
        assert forall|i: int| 0 <= i < text.drop_last().len() implies !is_symbol(
            #[trigger] text.drop_last()[i],
        ) by {
            assert(!is_symbol(text[i]));
        }
        lemma_commentary_is_empty(text.drop_last());
    }
}

/// A program that holds only commentary does nothing. It is balanced and its
/// instruction sequence is `End` alone, so that its machine code is the prologue
/// followed by the epilogue; and however long the interpreter or the machine runs
/// it on whatever input, nothing is written and the tape stays fresh. So it is with
/// the processor of the model on the machine code.
pub proof fn lemma_commentary_does_nothing(
    text: Seq<char>,
    input: Seq<u8>,
    steps: nat,
    host: HostRoutines,
)
    requires
        is_commentary(text),
    ensures
        balanced(text),
        program_instructions(text) == seq![Instruction::End],
        machine_code(program_instructions(text), host) == prologue() + epilogue(),
        run_of(RuntimeView::initial(text), input, steps).output == Seq::<u8>::empty(),
        run_of(RuntimeView::initial(text), input, steps).state.tape == Tape::fresh(),
        execution_of(MachineView::initial(program_instructions(text)), input, steps).output
            == Seq::<u8>::empty(),
        execution_of(MachineView::initial(program_instructions(text)), input, steps).state.tape
            == Tape::fresh(),
        compiles(program_instructions(text)),
        native_run(
            machine_code(program_instructions(text), host),
            host,
            NativeView::initial(),
            input,
            steps,
        ).output == Seq::<u8>::empty(),
        native_run(
            machine_code(program_instructions(text), host),
            host,
            NativeView::initial(),
            input,
            steps,
        ).state.tape == Tape::fresh(),
{
    lemma_commentary_is_empty(text);
    assert forall|k: int| 0 <= k <= text.len() implies #[trigger] loop_depth(text.take(k)) >= 0 by {
        assert forall|i: int| 0 <= i < text.take(k).len() implies !is_symbol(
            #[trigger] text.take(k)[i],
        ) by {
            assert(!is_symbol(text[i]));
        }
        lemma_commentary_is_empty(text.take(k));
    }
    let instrs = program_instructions(text);
    assert(instrs =~= seq![Instruction::End]);
    assert(machine_code(instrs, host) =~= prologue() + epilogue()) by {
        reveal_with_fuel(code_through, 2);
        assert(instruction_code(instrs, 0, 1, host) =~= Seq::<u8>::empty());
    }
    assert(compiles(instrs)) by {
        assert(end_is_last(instrs, 0));
        assert(opening_matched(instrs, 0));
        assert(closing_nested(instrs, 0));
        reveal_with_fuel(code_offset, 2);
    }
    lemma_empty_function(host, input, steps);
}

/// The function that is nothing but prologue and epilogue writes nothing and leaves
/// the tape as it is.
proof fn lemma_empty_function(host: HostRoutines, input: Seq<u8>, steps: nat)
    ensures
        native_run(prologue() + epilogue(), host, NativeView::initial(), input, steps).output
            == Seq::<u8>::empty(),
        native_run(prologue() + epilogue(), host, NativeView::initial(), input, steps).state.tape
            == Tape::fresh(),
{
    let code = prologue() + epilogue();
    let entered = NativeView { at: 12, tape: Tape::fresh() };
    assert(code.subrange(0, 12) =~= prologue());
    assert(code.subrange(12, 22) =~= epilogue());
    assert(decode(code, 0, host) == Some(NativeOp::Enter));
    assert(!bytes_at(code, 12, prologue())) by {
        if 12 + prologue().len() <= code.len() {
            assert(code.subrange(12, 24)[0] == code[12]);
        }
    }
    assert(decode(code, 12, host) == Some(NativeOp::Return));
    assert(NativeView::initial().step(code, host) == (entered, NativeStep::Continue));
    assert(entered.step(code, host) == (entered, NativeStep::Return));
    if steps > 0 {
        assert(native_run(code, host, NativeView::initial(), input, steps) == native_run(
            code,
            host,
            entered,
            input,
            (steps - 1) as nat,
        ));
    }
}

} // verus!
