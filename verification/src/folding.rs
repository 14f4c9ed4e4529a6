//! Facts about folding: how the folded instructions of a text of symbols grow with
//! the text, and where the instruction of each symbol stands.

use vstd::prelude::*;
use crate::interpreter::{is_symbol, symbols};
use crate::parser::{folded, folds_into, one_more, unit_instruction};
use crate::tape::unit_of;

verus! {

/// Every character of `text` is a symbol of the language.
pub open spec fn all_symbols(text: Seq<char>) -> bool {
    forall|i: int| 0 <= i < text.len() ==> is_symbol(#[trigger] text[i])
}

/// Whether `c` is a pointer or value symbol, of which runs are folded.
pub open spec fn foldable(c: char) -> bool {
    c == '>' || c == '<' || c == '+' || c == '-'
}

/// The symbol at `p` continues the run of the symbol before it.
pub open spec fn continues_run(text: Seq<char>, p: int) -> bool {
    0 < p < text.len() && foldable(text[p]) && text[p - 1] == text[p]
}

/// The number of instructions that the first `p` symbols of `text` fold to.
pub open spec fn folded_len(text: Seq<char>, p: int) -> int {
    folded(text.take(p)).len() as int
}

/// Folding passes over commentary, and what is left of a text without its
/// commentary is symbols.
pub proof fn lemma_symbols(text: Seq<char>)
    ensures
        all_symbols(symbols(text)),
        folded(symbols(text)) == folded(text),
        symbols(text).len() <= text.len(),
    decreases text.len(),
{
    if text.len() > 0 {
        lemma_symbols(text.drop_last());
        let kept = symbols(text.drop_last());
        if is_symbol(text.last()) {
            assert(kept.push(text.last()).drop_last() =~= kept);
        }
    }
}

/// A prefix of a text of symbols is a text of symbols.
pub proof fn lemma_all_symbols_take(text: Seq<char>, p: int)
    requires
        all_symbols(text),
        0 <= p <= text.len(),
    ensures
        all_symbols(text.take(p)),
{
    assert forall|i: int| 0 <= i < text.take(p).len() implies is_symbol(#[trigger] text.take(p)[i]) by {
        assert(is_symbol(text[i]));
    }
}

/// The last folded instruction of a text of symbols is of the kind of the text's
/// last symbol, and folding makes a text no longer.
pub proof fn lemma_folded_last(text: Seq<char>)
    requires
        all_symbols(text),
    ensures
        folded(text).len() <= text.len(),
        text.len() > 0 ==> folded(text).len() > 0 && unit_of(folded(text).last())
            == unit_instruction(text.last())->0,
    decreases text.len(),
{
    if text.len() > 0 {
        lemma_all_symbols_take(text, text.len() - 1);
        assert(text.take(text.len() - 1) =~= text.drop_last());
        lemma_folded_last(text.drop_last());
        assert(is_symbol(text[text.len() - 1]));
    }
}

/// One more symbol either makes the last instruction one longer, if it continues a
/// run, or adds its own instruction.
pub proof fn lemma_folded_step(text: Seq<char>, p: int)
    requires
        all_symbols(text),
        0 <= p < text.len(),
    ensures
        folded(text.take(p + 1)) == if continues_run(text, p) {
            folded(text.take(p)).update(folded_len(text, p) - 1, one_more(folded(text.take(p)).last()))
        } else {
            folded(text.take(p)).push(unit_instruction(text[p])->0)
        },
        continues_run(text, p) ==> folded_len(text, p) > 0 && folds_into(
            unit_instruction(text[p])->0,
            folded(text.take(p)).last(),
        ),
{
    let before = text.take(p);
    let after = text.take(p + 1);
    assert(after.drop_last() =~= before);
    assert(after.last() == text[p]);
    assert(is_symbol(text[p]));
    lemma_all_symbols_take(text, p);
    lemma_folded_last(before);
    if p > 0 {
        assert(before.last() == text[p - 1]);
        assert(is_symbol(text[p - 1]));
    }
}

/// The folded instructions of a longer prefix are no fewer.
pub proof fn lemma_folded_len_monotonic(text: Seq<char>, a: int, b: int)
    requires
        all_symbols(text),
        0 <= a <= b <= text.len(),
    ensures
        folded_len(text, a) <= folded_len(text, b),
    decreases b - a,
{
    if a < b {
        lemma_folded_len_monotonic(text, a, b - 1);
        lemma_folded_step(text, b - 1);
    }
}

/// What has been folded before the start of an instruction is not touched by what
/// is folded later.
pub proof fn lemma_folded_prefix(text: Seq<char>, p: int, b: int)
    requires
        all_symbols(text),
        0 <= p <= b <= text.len(),
        !continues_run(text, p),
    ensures
        folded_len(text, p) <= folded_len(text, b),
        folded(text.take(b)).take(folded_len(text, p)) == folded(text.take(p)),
    decreases b - p,
{
    lemma_folded_len_monotonic(text, p, b);
    if p == b {
        assert(folded(text.take(b)).take(folded_len(text, p)) =~= folded(text.take(p)));
    } else {
        lemma_folded_prefix(text, p, b - 1);
        lemma_folded_step(text, b - 1);
        lemma_folded_len_monotonic(text, p, b - 1);
        if continues_run(text, b - 1) {
            lemma_folded_step(text, p);
            lemma_folded_len_monotonic(text, p + 1, b - 1);
        }
        assert(folded(text.take(b)).take(folded_len(text, p)) =~= folded(text.take(b - 1)).take(
            folded_len(text, p),
        ));
    }
}

/// The instruction of a symbol that is not folded stands where the instructions of
/// the symbols before it end, and is the symbol's unit instruction.
pub proof fn lemma_folded_single(text: Seq<char>, p: int)
    requires
        all_symbols(text),
        0 <= p < text.len(),
        !foldable(text[p]),
    ensures
        !continues_run(text, p),
        !continues_run(text, p + 1),
        folded_len(text, p + 1) == folded_len(text, p) + 1,
        folded_len(text, p) < folded(text).len(),
        folded(text)[folded_len(text, p)] == unit_instruction(text[p])->0,
        folded(text).take(folded_len(text, p)) == folded(text.take(p)),
{
    lemma_folded_step(text, p);
    lemma_folded_prefix(text, p + 1, text.len() as int);
    lemma_folded_prefix(text, p, text.len() as int);
    assert(text.take(text.len() as int) =~= text);
    assert(folded(text).take(folded_len(text, p + 1))[folded_len(text, p)] == folded(text)[folded_len(
        text,
        p,
    )]);
}

/// The index of the instruction that the symbol at `a` is folded into.
pub open spec fn index_of(text: Seq<char>, a: int) -> int {
    folded_len(text, a + 1) - 1
}

/// The instruction that a symbol is folded into is of the symbol's kind.
pub proof fn lemma_instruction_kind(text: Seq<char>, a: int)
    requires
        all_symbols(text),
        0 <= a < text.len(),
    ensures
        0 <= index_of(text, a) < folded(text).len(),
        unit_of(folded(text)[index_of(text, a)]) == unit_instruction(text[a])->0,
        a + 1 < text.len() ==> index_of(text, a + 1) == index_of(text, a) + if continues_run(
            text,
            a + 1,
        ) {
            0int
        } else {
            1int
        },
    decreases text.len() - a,
{
    assert(text.take(text.len() as int) =~= text);
    lemma_folded_step(text, a);
    lemma_folded_len_monotonic(text, a + 1, text.len() as int);
    if a + 1 < text.len() {
        lemma_folded_step(text, a + 1);
    }
    if continues_run(text, a + 1) {
        lemma_instruction_kind(text, a + 1);
    } else {
        lemma_folded_prefix(text, a + 1, text.len() as int);
        lemma_all_symbols_take(text, a + 1);
        lemma_folded_last(text.take(a + 1));
        assert(text.take(a + 1).last() == text[a]);
        assert(folded(text).take(folded_len(text, a + 1))[index_of(text, a)] == folded(text)[index_of(
            text,
            a,
        )]);
    }
}

} // verus!
