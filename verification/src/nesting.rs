//! Facts about the loops of a text of symbols: which are open where, how the scan
//! for a `]` moves through them, and how both agree with the loops of the folded
//! instructions.

use vstd::prelude::*;
use crate::folding::{
    all_symbols, continues_run, folded_len, index_of, lemma_all_symbols_take, lemma_folded_step,
    lemma_instruction_kind,
};
use crate::interpreter::{is_symbol, matching_close};
use crate::loops::{lemma_open_loops_same_loops, same_loops};
use crate::parser::{folded, open_loops, scan_to_close};

verus! {

/// The positions of the `[` in `text` that have not been closed, outermost first. A
/// `]` with nothing open is passed over.
pub open spec fn text_open(text: Seq<char>) -> Seq<usize>
    decreases text.len(),
{
    if text.len() == 0 {
        Seq::empty()
    } else {
        let before = text_open(text.drop_last());
        if text.last() == '[' {
            before.push((text.len() - 1) as usize)
        } else if text.last() == ']' && before.len() > 0 {
            before.drop_last()
        } else {
            before
        }
    }
}

/// How the open loops change over one symbol.
pub proof fn lemma_text_open_step(text: Seq<char>, p: int)
    requires
        0 <= p < text.len(),
    ensures
        text_open(text.take(p + 1)) == if text[p] == '[' {
            text_open(text.take(p)).push(p as usize)
        } else if text[p] == ']' && text_open(text.take(p)).len() > 0 {
            text_open(text.take(p)).drop_last()
        } else {
            text_open(text.take(p))
        },
{
    assert(text.take(p + 1).drop_last() =~= text.take(p));
    assert(text.take(p + 1).last() == text[p]);
}

/// Every open loop is the position of a `[`.
pub proof fn lemma_text_open_bounds(text: Seq<char>)
    requires
        text.len() <= usize::MAX,
    ensures
        text_open(text).len() <= text.len(),
        forall|k: int|
            0 <= k < text_open(text).len() ==> (#[trigger] text_open(text)[k]) < text.len()
                && text[text_open(text)[k] as int] == '[',
    decreases text.len(),
{
    if text.len() > 0 {
        lemma_text_open_bounds(text.drop_last());
        let before = text_open(text.drop_last());
        assert forall|k: int| 0 <= k < text_open(text).len() implies (#[trigger] text_open(text)[k])
            < text.len() && text[text_open(text)[k] as int] == '[' by {
            if k < before.len() {
                assert(text_open(text)[k] == before[k]);
                assert(text.drop_last()[before[k] as int] == text[before[k] as int]);
            }
        }
    }
}

/// Just behind the `[` of an open loop, the open loops are the loops around it and
/// itself.
pub proof fn lemma_text_open_behind(text: Seq<char>, k: int)
    requires
        text.len() <= usize::MAX,
        0 <= k < text_open(text).len(),
    ensures
        text_open(text)[k] < text.len(),
        text_open(text.take(text_open(text)[k] + 1)) == text_open(text).take(k + 1),
    decreases text.len(),
{
    lemma_text_open_bounds(text);
    let shorter = text.drop_last();
    let before = text_open(shorter);
    let at = text_open(text)[k] as int;
    if text.last() == '[' && k == before.len() {
        assert(text.take(at + 1) =~= text);
        assert(text_open(text).take(k + 1) =~= text_open(text));
    } else {
        lemma_text_open_bounds(shorter);
        assert(text_open(text)[k] == before[k]);
        lemma_text_open_behind(shorter, k);
        assert(text.take(at + 1) =~= shorter.take(at + 1));
        assert(text_open(text).take(k + 1) =~= before.take(k + 1));
    }
}

/// Behind the `]` that a scan finds, the open loops are those of the scan's start
/// less the loops that it was to close.
pub proof fn lemma_text_open_after_close(text: Seq<char>, a: int, nesting: nat)
    requires
        0 <= a <= text.len(),
        matching_close(text, a, nesting) < text.len(),
        text_open(text.take(a)).len() > nesting,
    ensures
        a <= matching_close(text, a, nesting),
        text[matching_close(text, a, nesting)] == ']',
        text_open(text.take(matching_close(text, a, nesting) + 1)) == text_open(text.take(a)).take(
            text_open(text.take(a)).len() - nesting - 1,
        ),
    decreases text.len() - a,
{
    let open = text_open(text.take(a));
    if a < text.len() {
        lemma_text_open_step(text, a);
        if text[a] == ']' && nesting == 0 {
            assert(open.drop_last() =~= open.take(open.len() - 1));
        } else if text[a] == ']' {
            lemma_text_open_after_close(text, a + 1, (nesting - 1) as nat);
            assert(open.drop_last().take(open.len() - nesting - 1) =~= open.take(
                open.len() - nesting - 1,
            ));
        } else if text[a] == '[' {
            lemma_text_open_after_close(text, a + 1, nesting + 1);
            assert(open.push(a as usize).take(open.len() - nesting - 1) =~= open.take(
                open.len() - nesting - 1,
            ));
        } else {
            lemma_text_open_after_close(text, a + 1, nesting);
        }
    }
}

/// The open loops of the folded instructions are the instructions of the text's
/// open `[`.
pub proof fn lemma_open_loops_folded(text: Seq<char>)
    requires
        all_symbols(text),
        text.len() <= usize::MAX,
    ensures
        open_loops(folded(text)).len() == text_open(text).len(),
        forall|k: int|
            0 <= k < text_open(text).len() ==> (#[trigger] open_loops(folded(text))[k])
                == folded_len(text, text_open(text)[k] as int),
    decreases text.len(),
{
    if text.len() > 0 {
        let p = text.len() - 1;
        let shorter = text.drop_last();
        let shape = folded(shorter);
        assert(text.take(p) =~= shorter);
        assert(text.take(p + 1) =~= text);
        lemma_all_symbols_take(text, p);
        lemma_open_loops_folded(shorter);
        lemma_text_open_bounds(shorter);
        lemma_folded_step(text, p);
        assert(is_symbol(text[p]));
        if continues_run(text, p) {
            assert(same_loops(folded(text), shape));
            lemma_open_loops_same_loops(folded(text), shape);
        } else {
            assert(folded(text).drop_last() =~= shape);
        }
        assert forall|k: int| 0 <= k < text_open(text).len() implies (#[trigger] open_loops(
            folded(text),
        )[k]) == folded_len(text, text_open(text)[k] as int) by {
            if k < text_open(shorter).len() {
                let at = text_open(shorter)[k] as int;
                assert(text.take(at) =~= shorter.take(at));
            }
        }
    }
}

/// Scanning the text for a `]` and scanning the folded instructions for a loop
/// closing find the same loop end.
pub proof fn lemma_scan_folded(text: Seq<char>, a: int, nesting: nat)
    requires
        all_symbols(text),
        0 <= a < text.len(),
        matching_close(text, a, nesting) < text.len(),
    ensures
        scan_to_close(folded(text), index_of(text, a), nesting) == index_of(
            text,
            matching_close(text, a, nesting),
        ),
    decreases text.len() - a,
{
    lemma_instruction_kind(text, a);
    assert(is_symbol(text[a]));
    let shape = folded(text);
    let here = shape[index_of(text, a)];
    if text[a] == ']' && nesting == 0 {
    } else {
        let deeper = if text[a] == ']' {
            (nesting - 1) as nat
        } else if text[a] == '[' {
            nesting + 1
        } else {
            nesting
        };
        assert(deeper == (nesting + here.loop_delta()) as nat);
        assert(matching_close(text, a, nesting) == matching_close(text, a + 1, deeper));
        lemma_scan_folded(text, a + 1, deeper);
    }
}

} // verus!
