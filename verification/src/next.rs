//! `find_next`: skip input until a parser succeeds.

use crate::cursor::is_rest_at;
use crate::input::Input;
use crate::outside::fail;
use crate::parser::{callable_on, fails_at, lemma_returns_is_match, matches_at, returns_at, well_behaved_on};
use vstd::prelude::*;

verus! {

/// What `find_next` returns on `inp`: the first success of the parser, or a
/// failure when the parser failed at every position that holds a unit.
///
/// - `Ok((rest, value))`: there is a position `at`, with at least one unit
///   left there, at which the parser returned `value` and `rest`; at every
///   position before it the parser failed.
/// - `Err(_)`: the parser failed at every position with at least one unit
///   left. The parser is not tried on the empty end of the input, so an empty
///   input always gives `Err`.
pub open spec fn found_next<I, O, F>(f: F, inp: I, r: nom::IResult<I, O>) -> bool where
    I: Input,
    F: FnMut(I) -> nom::IResult<I, O>,
 {
    match r {
        Ok((rest, value)) => exists|at: nat|
            {
                &&& at < inp.units().len()
                &&& #[trigger] returns_at(f, inp, at, rest, value)
                &&& forall|j: nat| j < at ==> #[trigger] fails_at(f, inp, j)
            },
        Err(_) => forall|j: nat| j < inp.units().len() ==> #[trigger] fails_at(f, inp, j),
    }
}

/// How much input `find_next` leaves, with a parser that keeps the contract of
/// a parser on `inp`: what it hands back is what is left of `inp` after the
/// units that were skipped, at each of which the parser failed, and the units
/// that the match consumed. Its length is the length of `inp` less those two
/// numbers, and so no greater than the length of `inp`.
pub open spec fn next_progress<I, O, F>(f: F, inp: I, r: nom::IResult<I, O>) -> bool where
    I: Input,
    F: FnMut(I) -> nom::IResult<I, O>,
 {
    match r {
        Ok(found) => {
            &&& found.0.units().len() <= inp.units().len()
            &&& exists|skipped: nat, width: nat|
                {
                    &&& #[trigger] matches_at(f, inp, skipped, width, found.0, found.1)
                    &&& forall|j: nat| j < skipped ==> #[trigger] fails_at(f, inp, j)
                    &&& found.0.units().len() + skipped + width == inp.units().len()
                }
        },
        Err(_) => true,
    }
}

/// A success of a well-behaved parser at position `at`, after failures at
/// every position before it, accounts for the input that `find_next` leaves.
proof fn lemma_next_progress<I, O, F>(f: F, inp: I, at: nat, found: (I, O)) where
    I: Input,
    F: FnMut(I) -> nom::IResult<I, O>,

    requires
        well_behaved_on(f, inp),
        returns_at(f, inp, at, found.0, found.1),
        forall|j: nat| j < at ==> #[trigger] fails_at(f, inp, j),
    ensures
        next_progress(f, inp, Ok::<(I, O), nom::Err<nom::error::Error<I>>>(found)),
{
    lemma_returns_is_match(f, inp, at, found.0, found.1);
    let width = choose|width: nat| #[trigger] matches_at(f, inp, at, width, found.0, found.1);
    assert(matches_at(f, inp, at, width, found.0, found.1));
    let r = Ok::<(I, O), nom::Err<nom::error::Error<I>>>(found);
    assert(r->Ok_0 == found);
}

/// Skips input one unit at a time until `f` succeeds, and returns what `f`
/// returned there: its value and the input that it left. Fails when `f`
/// succeeds nowhere before the input runs out.
pub fn find_next<I, O, F>(f: F, inp: I) -> (r: nom::IResult<I, O>) where
    I: Input,
    F: FnMut(I) -> nom::IResult<I, O>,

    requires
        callable_on(f, inp),
    ensures
        found_next(f, inp, r),
        well_behaved_on(f, inp) ==> next_progress(f, inp, r),
{
    let mut cur = inp;
    let ghost mut at: nat = 0;
    let mut parser = f;
    proof {
        assert(inp.units().skip(0) =~= inp.units());
    }
    while cur.input_len() > 0
        invariant
            parser == f,
            callable_on(f, inp),
            is_rest_at(cur, inp, at),
            forall|j: nat| j < at ==> #[trigger] fails_at(f, inp, j),
        decreases inp.units().len() - at,
    {
        proof {
            if cur.units().len() == 0 {
                I::lemma_span_empty();
                assert(cur.units() =~= Seq::<I::Item>::empty());
            }
        }
        match parser(cur) {
            Ok(found) => {
                proof {
                    assert(returns_at(f, inp, at, found.0, found.1));
                    if well_behaved_on(f, inp) {
                        lemma_next_progress(f, inp, at, found);
                    }
                }
                return Ok(found);
            },
            Err(_) => {
                match cur.take_units(1) {
                    Ok((rest, _)) => {
                        proof {
                            assert(fails_at(f, inp, at));
                            assert(rest.units() =~= inp.units().skip((at + 1) as int));
                            at = at + 1;
                        }
                        cur = rest;
                    },
                    Err(e) => {
                        // Not reached: a unit is left to take.
                        return Err(e);
                    },
                }
            },
        }
    }
    proof {
        if at < inp.units().len() {
            I::lemma_span_shrinks(cur.units(), cur.units().len() as int);
        }
    }
    fail(cur)
}

} // verus!
