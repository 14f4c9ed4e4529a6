//! Facts about loop structure: how the open loops and the scan for a closing behave
//! when an instruction sequence grows at its end or changes in ways that leave its
//! loop instructions where they are.

use vstd::prelude::*;
use crate::parser::{open_loops, scan_to_close, Instruction};

verus! {

/// `a` and `b` have their loop openings and closings at the same indices.
pub open spec fn same_loops(a: Seq<Instruction>, b: Seq<Instruction>) -> bool {
    &&& a.len() == b.len()
    &&& forall|i: int| 0 <= i < a.len() ==> (#[trigger] a[i]).loop_delta() == b[i].loop_delta()
}

/// A scan that starts at `from` with `nesting` openings underway reaches the end of
/// `shape` without meeting its closing, and `left` openings are underway there.
pub open spec fn stays_open(shape: Seq<Instruction>, from: int, nesting: nat, left: nat) -> bool
    decreases shape.len() - from,
{
    if from < 0 || from >= shape.len() {
        nesting == left
    } else {
        let d = shape[from].loop_delta();
        if d < 0 && nesting == 0 {
            false
        } else {
            stays_open(shape, from + 1, (nesting + d) as nat, left)
        }
    }
}

/// The scan for a closing sees nothing of a sequence but where its loops are.
pub proof fn lemma_scan_same_loops(a: Seq<Instruction>, b: Seq<Instruction>, from: int, nesting: nat)
    requires
        same_loops(a, b),
    ensures
        scan_to_close(a, from, nesting) == scan_to_close(b, from, nesting),
    decreases a.len() - from,
{
    if 0 <= from < a.len() {
        let d = a[from].loop_delta();
        if !(d < 0 && nesting == 0) {
            lemma_scan_same_loops(a, b, from + 1, (nesting + d) as nat);
        }
    }
}

/// Whether a scan stays open depends only on where the loops are.
pub proof fn lemma_stays_open_same_loops(
    a: Seq<Instruction>,
    b: Seq<Instruction>,
    from: int,
    nesting: nat,
    left: nat,
)
    requires
        same_loops(a, b),
    ensures
        stays_open(a, from, nesting, left) == stays_open(b, from, nesting, left),
    decreases a.len() - from,
{
    if 0 <= from < a.len() {
        let d = a[from].loop_delta();
        if !(d < 0 && nesting == 0) {
            lemma_stays_open_same_loops(a, b, from + 1, (nesting + d) as nat, left);
        }
    }
}

/// The open loops depend only on where the loops are.
pub proof fn lemma_open_loops_same_loops(a: Seq<Instruction>, b: Seq<Instruction>)
    requires
        same_loops(a, b),
    ensures
        open_loops(a) == open_loops(b),
    decreases a.len(),
{
    if a.len() > 0 {
        assert(a.last().loop_delta() == b.last().loop_delta());
        assert(same_loops(a.drop_last(), b.drop_last())) by {
            assert forall|i: int| 0 <= i < a.drop_last().len() implies (
            #[trigger] a.drop_last()[i]).loop_delta()
                == b.drop_last()[i].loop_delta() by {
                assert(a[i].loop_delta() == b[i].loop_delta());
            }
        }
        lemma_open_loops_same_loops(a.drop_last(), b.drop_last());
    }
}

/// Every open loop is the index of an opening, and the open loops stand in
/// increasing order.
pub proof fn lemma_open_loops_bounds(shape: Seq<Instruction>)
    ensures
        open_loops(shape).len() <= shape.len(),
        forall|p: int|
            0 <= p < open_loops(shape).len() ==> {
                &&& 0 <= (#[trigger] open_loops(shape)[p]) < shape.len()
                &&& shape[open_loops(shape)[p]].loop_delta() > 0
            },
    decreases shape.len(),
{
    if shape.len() > 0 {
        lemma_open_loops_bounds(shape.drop_last());
        let before = open_loops(shape.drop_last());
        assert forall|p: int| 0 <= p < open_loops(shape).len() implies {
            &&& 0 <= (#[trigger] open_loops(shape)[p]) < shape.len()
            &&& shape[open_loops(shape)[p]].loop_delta() > 0
        } by {
            if p < before.len() {
                assert(open_loops(shape)[p] == before[p]);
                assert(shape.drop_last()[before[p]] == shape[before[p]]);
            }
        }
    }
}

/// A closing that the scan has found stays found when the sequence grows.
pub proof fn lemma_scan_push_closed(shape: Seq<Instruction>, x: Instruction, from: int, nesting: nat)
    requires
        scan_to_close(shape, from, nesting) < shape.len(),
    ensures
        scan_to_close(shape.push(x), from, nesting) == scan_to_close(shape, from, nesting),
    decreases shape.len() - from,
{
    if 0 <= from < shape.len() {
        let d = shape[from].loop_delta();
        assert(shape.push(x)[from] == shape[from]);
        if !(d < 0 && nesting == 0) {
            lemma_scan_push_closed(shape, x, from + 1, (nesting + d) as nat);
        }
    }
}

/// A scan that stays open finds no closing.
pub proof fn lemma_stays_open_scan(shape: Seq<Instruction>, from: int, nesting: nat, left: nat)
    requires
        stays_open(shape, from, nesting, left),
    ensures
        scan_to_close(shape, from, nesting) == shape.len(),
    decreases shape.len() - from,
{
    if 0 <= from < shape.len() {
        let d = shape[from].loop_delta();
        lemma_stays_open_scan(shape, from + 1, (nesting + d) as nat, left);
    }
}

/// How a scan that stays open goes on when one more instruction is appended: it
/// meets its closing there if that is a closing and nothing else is underway, and
/// stays open with the count adjusted otherwise.
pub proof fn lemma_stays_open_push(
    shape: Seq<Instruction>,
    x: Instruction,
    from: int,
    nesting: nat,
    left: nat,
)
    requires
        0 <= from <= shape.len(),
        stays_open(shape, from, nesting, left),
    ensures
        x.loop_delta() < 0 && left == 0 ==> scan_to_close(shape.push(x), from, nesting)
            == shape.len(),
        !(x.loop_delta() < 0 && left == 0) ==> stays_open(
            shape.push(x),
            from,
            nesting,
            (left + x.loop_delta()) as nat,
        ),
    decreases shape.len() - from,
{
    let longer = shape.push(x);
    if from < shape.len() {
        let d = shape[from].loop_delta();
        assert(longer[from] == shape[from]);
        lemma_stays_open_push(shape, x, from + 1, (nesting + d) as nat, left);
    } else {
        assert(longer[from] == x);
        assert(nesting == left);
        if !(x.loop_delta() < 0 && left == 0) {
            assert(stays_open(
                longer,
                from + 1,
                (nesting + x.loop_delta()) as nat,
                (left + x.loop_delta()) as nat,
            ));
        }
    }
}

} // verus!
