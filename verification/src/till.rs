//! `find_many_till`: collect the matches of one parser until another
//! succeeds.

use crate::cursor::{advance_of, after_match, is_rest_at};
use crate::input::Input;
use crate::parser::{callable, fails_at, lemma_returns_is_match, matches_at, returns_at, well_behaved_on};
use crate::trace::{
    consumed, lemma_consumed_push, lemma_values_push, position, steps_taken, values, Step,
};
use vstd::prelude::*;

verus! {

/// Every step of the record was taken where the terminator `g` had failed,
/// and is what the filler `f` did at its position.
pub open spec fn steps_until<I, O, P, F, G>(f: F, g: G, inp: I, steps: Seq<Step<O>>) -> bool where
    I: Input,
    F: FnMut(I) -> nom::IResult<I, O>,
    G: FnMut(I) -> nom::IResult<I, P>,
 {
    &&& steps_taken(f, inp, steps)
    &&& forall|i: int| 0 <= i < steps.len() ==> fails_at(g, inp, #[trigger] position(steps, i))
}

/// `steps` records a scan that ended with a success of the terminator and
/// handed back `done`: where the steps end, `g` returned the input and the
/// value in `done`, and the list in `done` holds the values of the filler
/// matches among the steps, in order.
pub open spec fn collected_till<I, O, P, F, G>(
    f: F,
    g: G,
    inp: I,
    steps: Seq<Step<O>>,
    done: (I, (Vec<O>, P)),
) -> bool where I: Input, F: FnMut(I) -> nom::IResult<I, O>, G: FnMut(I) -> nom::IResult<I, P> {
    &&& steps_until(f, g, inp, steps)
    &&& returns_at(g, inp, consumed(steps), done.0, done.1.1)
    &&& done.1.0@ == values(steps)
}

/// `steps` records a scan that reached the end of `inp` without a success of
/// the terminator: `g` failed at every position of a step and at the end.
pub open spec fn never_terminated<I, O, P, F, G>(
    f: F,
    g: G,
    inp: I,
    steps: Seq<Step<O>>,
) -> bool where I: Input, F: FnMut(I) -> nom::IResult<I, O>, G: FnMut(I) -> nom::IResult<I, P> {
    &&& steps_until(f, g, inp, steps)
    &&& consumed(steps) == inp.units().len()
    &&& fails_at(g, inp, inp.units().len())
}

/// What `find_many_till` returns for the filler `f` and the terminator `g` on
/// `inp`.
///
/// - `Ok((rest, (found, end)))`: some record of steps, each taken where `g`
///   had failed, leads from the front of `inp` to a position at which `g`
///   returned `end` and `rest`; `found` holds the values of the matches of
///   `f` among the steps, in order.
/// - `Err(_)`: some such record leads to the end of `inp`, where `g` failed
///   as well. Nothing of what was collected is handed back.
///
/// At each position `g` is tried first. Units that neither parser matched are
/// discarded one at a time.
pub open spec fn found_many_till<I, O, P, F, G>(
    f: F,
    g: G,
    inp: I,
    r: nom::IResult<I, (Vec<O>, P)>,
) -> bool where I: Input, F: FnMut(I) -> nom::IResult<I, O>, G: FnMut(I) -> nom::IResult<I, P> {
    match r {
        Ok(done) => exists|steps: Seq<Step<O>>| #[trigger] collected_till(f, g, inp, steps, done),
        Err(_) => exists|steps: Seq<Step<O>>| #[trigger] never_terminated(f, g, inp, steps),
    }
}

/// How much input `find_many_till` leaves, with parsers that keep the contract
/// of a parser on `inp`: what it hands back is what is left of `inp` after the
/// units that the steps of the scan moved over and the units that the
/// terminator consumed. Its length is the length of `inp` less those two
/// numbers, and so no greater than the length of `inp`.
pub open spec fn till_progress<I, O, P, F, G>(
    f: F,
    g: G,
    inp: I,
    r: nom::IResult<I, (Vec<O>, P)>,
) -> bool where I: Input, F: FnMut(I) -> nom::IResult<I, O>, G: FnMut(I) -> nom::IResult<I, P> {
    match r {
        Ok(done) => {
            &&& done.0.units().len() <= inp.units().len()
            &&& exists|steps: Seq<Step<O>>, width: nat|
                {
                    &&& collected_till(f, g, inp, steps, done)
                    &&& #[trigger] matches_at(g, inp, consumed(steps), width, done.0, done.1.1)
                    &&& done.0.units().len() + consumed(steps) + width == inp.units().len()
                }
        },
        Err(_) => true,
    }
}

/// A record of a scan that ended with a success of a well-behaved terminator
/// accounts for the input that `find_many_till` leaves.
proof fn lemma_till_progress<I, O, P, F, G>(
    f: F,
    g: G,
    inp: I,
    steps: Seq<Step<O>>,
    done: (I, (Vec<O>, P)),
) where I: Input, F: FnMut(I) -> nom::IResult<I, O>, G: FnMut(I) -> nom::IResult<I, P>
    requires
        well_behaved_on(g, inp),
        collected_till(f, g, inp, steps, done),
    ensures
        till_progress(f, g, inp, Ok::<(I, (Vec<O>, P)), nom::Err<nom::error::Error<I>>>(done)),
{
    lemma_returns_is_match(g, inp, consumed(steps), done.0, done.1.1);
    let width = choose|width: nat| #[trigger]
        matches_at(g, inp, consumed(steps), width, done.0, done.1.1);
    assert(matches_at(g, inp, consumed(steps), width, done.0, done.1.1));
    let r = Ok::<(I, (Vec<O>, P)), nom::Err<nom::error::Error<I>>>(done);
    assert(r->Ok_0 == done);
}

/// A record of a scan that ended with a success of the terminator and handed
/// back `done` shows that `Ok(done)` is what `find_many_till` returns.
proof fn lemma_collected<I, O, P, F, G>(
    f: F,
    g: G,
    inp: I,
    steps: Seq<Step<O>>,
    done: (I, (Vec<O>, P)),
) where I: Input, F: FnMut(I) -> nom::IResult<I, O>, G: FnMut(I) -> nom::IResult<I, P>
    requires
        collected_till(f, g, inp, steps, done),
    ensures
        found_many_till(f, g, inp, Ok::<(I, (Vec<O>, P)), nom::Err<nom::error::Error<I>>>(done)),
{
    let r = Ok::<(I, (Vec<O>, P)), nom::Err<nom::error::Error<I>>>(done);
    assert(r->Ok_0 == done);
}

/// Greedily collects the matches of `f`, discarding whatever matches neither
/// parser, until `g` succeeds. Returns the collected values with the value of
/// `g` and the input that `g` left. Fails when `g` does not succeed before the
/// input runs out.
///
/// The scan ends for all parsers. What it returns is stated for a filler that
/// keeps the contract of a parser on `inp`.
pub fn find_many_till<I, O, P>(
    f: impl FnMut(I) -> nom::IResult<I, O>,
    g: impl FnMut(I) -> nom::IResult<I, P>,
    inp: I,
) -> (r: nom::IResult<I, (Vec<O>, P)>) where I: Input
    requires
        callable(f),
        callable(g),
    ensures
        well_behaved_on(f, inp) ==> found_many_till(f, g, inp, r),
        well_behaved_on(f, inp) && well_behaved_on(g, inp) ==> till_progress(f, g, inp, r),
{
    let mut filler = f;
    let mut terminator = g;
    let mut all_found: Vec<O> = Vec::new();
    let mut cur = inp;
    let ghost mut steps: Seq<Step<O>> = Seq::empty();
    proof {
        assert(inp.units().skip(0) =~= inp.units());
    }
    loop
        invariant
            filler == f,
            terminator == g,
            callable(f),
            callable(g),
            well_behaved_on(f, inp) ==> {
                &&& is_rest_at(cur, inp, consumed(steps))
                &&& steps_until(f, g, inp, steps)
                &&& all_found@ == values(steps)
            },
        decreases I::span(cur.units()),
    {
        let ghost at = consumed(steps);
        match terminator(cur) {
            Ok((rest, end)) => {
                let done = (rest, (all_found, end));
                proof {
                    if well_behaved_on(f, inp) {
                        assert(returns_at(g, inp, at, done.0, done.1.1));
                        lemma_collected(f, g, inp, steps, done);
                        if well_behaved_on(g, inp) {
                            lemma_till_progress(f, g, inp, steps, done);
                        }
                    }
                }
                return Ok(done);
            },
            Err(_) => {
                proof {
                    if well_behaved_on(f, inp) {
                        assert(fails_at(g, inp, at));
                    }
                }
                match filler(cur) {
                    Ok((rest, found)) => {
                        let ghost value = found;
                        let ghost width = choose|w: nat| is_rest_at(rest, cur, w);
                        proof {
                            if well_behaved_on(f, inp) {
                                assert(is_rest_at(rest, cur, width));
                                assert(rest.units() =~= inp.units().skip((at + width) as int));
                                assert(returns_at(f, inp, at, rest, value));
                                assert(matches_at(f, inp, at, width, rest, value));
                            }
                        }
                        all_found.push(found);
                        match after_match(cur, rest) {
                            Ok(next) => {
                                proof {
                                    if well_behaved_on(f, inp) {
                                        assert(is_rest_at(next, cur, advance_of(width)));
                                        assert(next.units() =~= inp.units().skip(
                                            (at + advance_of(width)) as int,
                                        ));
                                        let step = Step::Match { value, width };
                                        lemma_consumed_push(steps, step);
                                        lemma_values_push(steps, step);
                                        steps = steps.push(step);
                                    }
                                }
                                cur = next;
                            },
                            Err(e) => {
                                proof {
                                    if well_behaved_on(f, inp) {
                                        assert(never_terminated(f, g, inp, steps));
                                    }
                                }
                                return Err(e);
                            },
                        }
                    },
                    Err(_) => {
                        proof {
                            if well_behaved_on(f, inp) {
                                assert(fails_at(f, inp, at));
                            }
                        }
                        match cur.take_units(1) {
                            Ok((rest, _)) => {
                                proof {
                                    I::lemma_span_shrinks(cur.units(), 1);
                                    if well_behaved_on(f, inp) {
                                        assert(rest.units() =~= inp.units().skip((at + 1) as int));
                                        lemma_consumed_push(steps, Step::<O>::Skip);
                                        lemma_values_push(steps, Step::<O>::Skip);
                                        steps = steps.push(Step::Skip);
                                    }
                                }
                                cur = rest;
                            },
                            Err(e) => {
                                proof {
                                    if well_behaved_on(f, inp) {
                                        assert(never_terminated(f, g, inp, steps));
                                    }
                                }
                                return Err(e);
                            },
                        }
                    },
                }
            },
        }
    }
}

} // verus!
