//! `find_all`: every match of a parser in an input, left to right.

use crate::cursor::{advance_of, after_match, is_rest_at};
use crate::input::Input;
use crate::parser::{callable, fails_at, lemma_never_matches_is_well_behaved, matches_at, never_matches, returns_at, well_behaved_on};
use crate::trace::{
    consumed, lemma_consumed_push, lemma_values_push, steps_taken, values, Step,
};
use vstd::prelude::*;

verus! {

/// How a scan over all of `inp` ends. At the end of the input, with nothing
/// left, the pattern is tried once more: it fails there (`last` is `None`),
/// or it succeeds without consuming anything and `last` holds its value.
pub open spec fn ends_with<I, O, E, F>(pat: F, inp: I, last: Option<O>) -> bool where
    I: Input,
    F: FnMut(I) -> Result<(I, O), nom::Err<E>>,
 {
    match last {
        None => fails_at(pat, inp, inp.units().len()),
        Some(value) => exists|left: I| #[trigger]
            matches_at(pat, inp, inp.units().len(), 0, left, value),
    }
}

/// The values that the end of a scan adds to its result.
pub open spec fn last_values<O>(last: Option<O>) -> Seq<O> {
    match last {
        None => Seq::empty(),
        Some(value) => seq![value],
    }
}

/// `steps` and `last` record a scan of `pat` over all of `inp` that hands
/// back `done`, the input that is left and the values found: each step is
/// what `pat` did at its position, the steps move over all of `inp`, the scan
/// ends as `last` says, nothing of `inp` is left, and the values are those of
/// the matches among the steps in order, followed by the value of `last` if
/// there is one.
pub open spec fn scanned_all<I, O, E, F>(
    pat: F,
    inp: I,
    steps: Seq<Step<O>>,
    last: Option<O>,
    done: (I, Vec<O>),
) -> bool where I: Input, F: FnMut(I) -> Result<(I, O), nom::Err<E>> {
    &&& steps_taken(pat, inp, steps)
    &&& consumed(steps) == inp.units().len()
    &&& ends_with(pat, inp, last)
    &&& is_rest_at(done.0, inp, inp.units().len())
    &&& done.1@ == values(steps) + last_values(last)
}

/// What a `find_all` scanner with the pattern `pat` returns on `inp`: always
/// `Ok((rest, found))`, where some record of a scan of `pat` over all of
/// `inp` hands back that pair.
///
/// After a match the scan goes on where the match ended, so matches do not
/// overlap. After a failure, and after a match that consumed nothing, it goes
/// on one unit later.
pub open spec fn found_all<I, O, E, F>(pat: F, inp: I, r: Result<(I, Vec<O>), nom::Err<E>>) -> bool where
    I: Input,
    F: FnMut(I) -> Result<(I, O), nom::Err<E>>,
 {
    match r {
        Ok(done) => exists|steps: Seq<Step<O>>, last: Option<O>| #[trigger]
            scanned_all(pat, inp, steps, last, done),
        Err(_) => false,
    }
}

/// A record of a scan that hands back `done` shows that `Ok(done)` is what a
/// `find_all` scanner returns.
proof fn lemma_found_all<I, O, E, F>(
    pat: F,
    inp: I,
    steps: Seq<Step<O>>,
    last: Option<O>,
    done: (I, Vec<O>),
) where I: Input, F: FnMut(I) -> Result<(I, O), nom::Err<E>>
    requires
        scanned_all(pat, inp, steps, last, done),
    ensures
        found_all(pat, inp, Ok::<(I, Vec<O>), nom::Err<E>>(done)),
{
    let r = Ok::<(I, Vec<O>), nom::Err<E>>(done);
    assert(r->Ok_0 == done);
}

/// The scanner that `find_all` builds: it holds the pattern parser and can be
/// run on any number of inputs.
pub struct FindAll<F> {
    pat: F,
}

impl<F> FindAll<F> {
    /// The pattern parser that the scanner runs.
    pub closed spec fn pattern(self) -> F {
        self.pat
    }

    /// Collects every match of the pattern in `inp`, left to right and
    /// without overlap, and returns the matches with the input that is left,
    /// which is empty. Never fails: where the pattern matches nowhere, the
    /// list of matches is empty.
    ///
    /// The scan ends for every pattern. What it found is stated for a pattern
    /// that keeps the contract of a parser on `inp`.
    pub fn parse<I, O, E>(&mut self, inp: I) -> (r: nom::IResult<I, Vec<O>, E>) where
        I: Input,
        F: FnMut(I) -> nom::IResult<I, O, E>,

        requires
            callable(old(self).pattern()),
        ensures
            final(self).pattern() == old(self).pattern(),
            match r {
                Ok((rest, found)) => {
                    &&& rest.units().len() == 0
                    &&& never_matches(old(self).pattern(), inp) ==> found@.len() == 0
                },
                Err(_) => false,
            },
            well_behaved_on(old(self).pattern(), inp) ==> found_all(old(self).pattern(), inp, r),
    {
        let mut cur = inp;
        let mut all_found: Vec<O> = Vec::new();
        let ghost mut steps: Seq<Step<O>> = Seq::empty();
        proof {
            assert(inp.units().skip(0) =~= inp.units());
            if never_matches(self.pattern(), inp) {
                lemma_never_matches_is_well_behaved(self.pattern(), inp);
            }
        }
        loop
            invariant
                self.pattern() == old(self).pattern(),
                callable(self.pattern()),
                never_matches(self.pattern(), inp) ==> well_behaved_on(self.pattern(), inp),
                well_behaved_on(self.pattern(), inp) ==> {
                    &&& is_rest_at(cur, inp, consumed(steps))
                    &&& steps_taken(self.pattern(), inp, steps)
                    &&& all_found@ == values(steps)
                    &&& never_matches(self.pattern(), inp) ==> all_found@.len() == 0
                },
            decreases I::span(cur.units()),
        {
            let ghost pat = self.pattern();
            let ghost at = consumed(steps);
            match (self.pat)(cur) {
                Ok((rest, found)) => {
                    let ghost value = found;
                    let ghost width = choose|w: nat| is_rest_at(rest, cur, w);
                    proof {
                        if well_behaved_on(pat, inp) {
                            assert(is_rest_at(rest, cur, width));
                            assert(rest.units() =~= inp.units().skip((at + width) as int));
                            assert(returns_at(pat, inp, at, rest, value));
                            assert(matches_at(pat, inp, at, width, rest, value));
                        }
                    }
                    all_found.push(found);
                    match after_match(cur, rest) {
                        Ok(next) => {
                            proof {
                                if well_behaved_on(pat, inp) {
                                    assert(is_rest_at(next, cur, advance_of(width)));
                                    assert(next.units() =~= inp.units().skip(
                                        (at + advance_of(width)) as int,
                                    ));
                                    let step = Step::Match { value, width };
                                    lemma_consumed_push(steps, step);
                                    lemma_values_push(steps, step);
                                    steps = steps.push(step);
                                }
                            }
                            cur = next;
                        },
                        Err(_) => {
                            let done = (cur, all_found);
                            proof {
                                if well_behaved_on(pat, inp) {
                                    assert(matches_at(pat, inp, inp.units().len(), 0, rest, value));
                                    let last = Some(value);
                                    assert(last->Some_0 == value);
                                    assert(ends_with(pat, inp, last));
                                    assert(done.1@ =~= values(steps) + last_values(last));
                                    lemma_found_all(pat, inp, steps, last, done);
                                }
                            }
                            return Ok(done);
                        },
                    }
                },
                Err(_) => {
                    proof {
                        if well_behaved_on(pat, inp) {
                            assert(fails_at(pat, inp, at));
                        }
                    }
                    if cur.input_len() > 0 {
                        proof {
                            if cur.units().len() == 0 {
                                I::lemma_span_empty();
                                assert(cur.units() =~= Seq::<I::Item>::empty());
                            }
                        }
                        match cur.take_units(1) {
                            Ok((rest, _)) => {
                                proof {
                                    I::lemma_span_shrinks(cur.units(), 1);
                                    if well_behaved_on(pat, inp) {
                                        assert(rest.units() =~= inp.units().skip((at + 1) as int));
                                        lemma_consumed_push(steps, Step::<O>::Skip);
                                        lemma_values_push(steps, Step::<O>::Skip);
                                        steps = steps.push(Step::Skip);
                                    }
                                }
                                cur = rest;
                            },
                            Err(_) => {
                                // Not reached: a unit is left to take.
                                return Ok((cur, all_found));
                            },
                        }
                    } else {
                        let done = (cur, all_found);
                        proof {
                            if cur.units().len() > 0 {
                                I::lemma_span_shrinks(cur.units(), cur.units().len() as int);
                            }
                            if well_behaved_on(pat, inp) {
                                assert(ends_with(pat, inp, None::<O>));
                                assert(done.1@ =~= values(steps) + last_values(None::<O>));
                                lemma_found_all(pat, inp, steps, None, done);
                            }
                        }
                        return Ok(done);
                    }
                },
            }
        }
    }
}

/// Builds the scanner that finds all matches of `pat` in an input, without
/// overlap, until the input is exhausted.
pub fn find_all<I, O, E, F>(pat: F) -> (scanner: FindAll<F>) where
    I: Input,
    F: FnMut(I) -> nom::IResult<I, O, E>,

    ensures
        scanner.pattern() == pat,
{
    FindAll { pat }
}

} // verus!
