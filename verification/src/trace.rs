//! The record of a scan: what happened at each position that the scan
//! stopped at, in order. The contracts of `find_all` and `find_many_till`
//! say that such a record exists and fix the result in terms of it.

use crate::cursor::advance_of;
use crate::input::Input;
use crate::parser::{fails_at, matches_at};
use vstd::prelude::*;

verus! {

/// One step of a scan, taken where the scan had not yet reached the end of
/// the input.
pub enum Step<O> {
    /// The parser failed and one unit was discarded.
    Skip,
    /// The parser succeeded with `value` and consumed `width` units.
    Match { value: O, width: nat },
}

impl<O> Step<O> {
    /// The number of units that the scan moves on by: the units that a match
    /// consumed, and one unit after a skip or after a match that consumed
    /// nothing.
    pub open spec fn advance(self) -> nat {
        match self {
            Step::Skip => 1,
            Step::Match { value, width } => advance_of(width),
        }
    }
}

/// The number of units that the steps moved over, matches and discarded units
/// together.
pub open spec fn consumed<O>(steps: Seq<Step<O>>) -> nat
    decreases steps.len(),
{
    if steps.len() == 0 {
        0
    } else {
        consumed(steps.drop_last()) + steps.last().advance()
    }
}

/// The values of the matches among the steps, in order.
pub open spec fn values<O>(steps: Seq<Step<O>>) -> Seq<O>
    decreases steps.len(),
{
    if steps.len() == 0 {
        Seq::empty()
    } else {
        match steps.last() {
            Step::Skip => values(steps.drop_last()),
            Step::Match { value, width } => values(steps.drop_last()).push(value),
        }
    }
}

/// The position at which step `i` was taken: the units that the steps before
/// it moved over.
pub open spec fn position<O>(steps: Seq<Step<O>>, i: int) -> nat {
    consumed(steps.take(i))
}

/// `step`, taken at position `at` of `inp`, is what the parser `f` did there:
/// a skip where `f` failed, a match where `f` succeeded with that value and
/// width. Either way the scan stays within the input: a skip, and a match
/// that consumed nothing, need a unit to discard.
pub open spec fn step_taken<I, O, E, F>(f: F, inp: I, at: nat, step: Step<O>) -> bool where
    I: Input,
    F: FnMut(I) -> Result<(I, O), nom::Err<E>>,
 {
    &&& at + step.advance() <= inp.units().len()
    &&& match step {
        Step::Skip => fails_at(f, inp, at),
        Step::Match { value, width } => exists|rest: I| #[trigger]
            matches_at(f, inp, at, width, rest, value),
    }
}

/// Every step of the record is what `f` did at the position of that step.
pub open spec fn steps_taken<I, O, E, F>(f: F, inp: I, steps: Seq<Step<O>>) -> bool where
    I: Input,
    F: FnMut(I) -> Result<(I, O), nom::Err<E>>,
 {
    forall|i: int|
        0 <= i < steps.len() ==> step_taken(f, inp, #[trigger] position(steps, i), steps[i])
}

/// Adding a step moves the scan on by what that step advances.
pub proof fn lemma_consumed_push<O>(steps: Seq<Step<O>>, step: Step<O>)
    ensures
        consumed(steps.push(step)) == consumed(steps) + step.advance(),
        position(steps.push(step), steps.len() as int) == consumed(steps),
        forall|i: int|
            0 <= i <= steps.len() ==> #[trigger] position(steps.push(step), i) == position(
                steps,
                i,
            ),
{
    assert(steps.push(step).drop_last() =~= steps);
    assert(steps.push(step).take(steps.len() as int) =~= steps);
    assert(steps.take(steps.len() as int) =~= steps);
    assert forall|i: int| 0 <= i <= steps.len() implies #[trigger] position(steps.push(step), i)
        == position(steps, i) by {
        assert(steps.push(step).take(i) =~= steps.take(i));
    }
}

/// Adding a skip adds no value; adding a match adds its value at the end.
pub proof fn lemma_values_push<O>(steps: Seq<Step<O>>, step: Step<O>)
    ensures
        values(steps.push(step)) == match step {
            Step::Skip => values(steps),
            Step::Match { value, width } => values(steps).push(value),
        },
{
    assert(steps.push(step).drop_last() =~= steps);
}

} // verus!
