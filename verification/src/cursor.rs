//! Positions in an input, and how a scan moves on after a match.

use crate::input::Input;
use vstd::prelude::*;

verus! {

/// `c` is what is left of `whole` after its first `at` units.
pub open spec fn is_rest_at<I: Input>(c: I, whole: I, at: nat) -> bool {
    at <= whole.units().len() && c.units() == whole.units().skip(at as int)
}

/// The number of units that a scan moves on by after a match that consumed
/// `width` units: those units, and one unit where the match consumed nothing.
pub open spec fn advance_of(width: nat) -> nat {
    if width == 0 {
        1
    } else {
        width
    }
}

/// Where a scan goes on after a match on `cur` that left `rest`: at `rest`
/// where `rest` reports a smaller length than `cur`, as it does after a match
/// that consumed input, and one unit after `cur` otherwise. Fails, as taking
/// one unit does, where no unit is left to move over.
///
/// Whatever `rest` is, the input that is handed back reports a smaller length
/// than `cur` does, so a scan that moves on in this way comes to an end. Where
/// `rest` is what is left of `cur` after `width` units, the scan has moved on
/// by `advance_of(width)` units.
pub fn after_match<I: Input>(cur: I, rest: I) -> (r: Result<I, nom::Err<nom::error::Error<I>>>)
    ensures
        match r {
            Ok(next) => {
                &&& I::span(rest.units()) < I::span(cur.units()) ==> next == rest
                &&& I::span(rest.units()) >= I::span(cur.units()) ==> is_rest_at(next, cur, 1)
                &&& I::span(next.units()) < I::span(cur.units())
                &&& forall|width: nat| #[trigger]
                    is_rest_at(rest, cur, width) ==> is_rest_at(next, cur, advance_of(width))
            },
            Err(_) => I::span(rest.units()) >= I::span(cur.units()) && cur.units().len() == 0,
        },
{
    if rest.input_len() < cur.input_len() {
        proof {
            assert forall|width: nat| #[trigger] is_rest_at(rest, cur, width) implies is_rest_at(
                rest,
                cur,
                advance_of(width),
            ) by {
                if width == 0 {
                    assert(rest.units() =~= cur.units());
                }
            }
        }
        Ok(rest)
    } else {
        match cur.take_units(1) {
            Ok((next, _)) => {
                proof {
                    I::lemma_span_shrinks(cur.units(), 1);
                    assert forall|width: nat| #[trigger]
                        is_rest_at(rest, cur, width) implies is_rest_at(
                        next,
                        cur,
                        advance_of(width),
                    ) by {
                        if width > 0 {
                            I::lemma_span_shrinks(cur.units(), width as int);
                        }
                    }
                }
                Ok(next)
            },
            Err(e) => Err(e),
        }
    }
}

} // verus!
