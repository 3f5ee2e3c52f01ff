//! What the contracts say of a parser: on which inputs it may be called, what
//! it was seen to return, and the contract that a well-behaved parser keeps.
//!
//! A parser is any `FnMut(I) -> Result<(I, O), nom::Err<E>>`. All that is
//! known of it is the relation between arguments and results that Verus
//! attaches to the function value, so every statement here is about results
//! that the parser may return. Positions are counted in units from the front
//! of the input that a scan started on.

use crate::cursor::is_rest_at;
use crate::input::Input;
use vstd::prelude::*;

verus! {

/// The parser may be called on every input.
pub open spec fn callable<I, O, E, F>(f: F) -> bool where
    I: Input,
    F: FnMut(I) -> Result<(I, O), nom::Err<E>>,
 {
    forall|c: I| call_requires(f, (c,))
}

/// The parser may be called on whatever is left of `inp` at any position.
pub open spec fn callable_on<I, O, E, F>(f: F, inp: I) -> bool where
    I: Input,
    F: FnMut(I) -> Result<(I, O), nom::Err<E>>,
 {
    forall|c: I, at: nat| #[trigger] is_rest_at(c, inp, at) ==> call_requires(f, (c,))
}

/// Given what is left of `inp` at position `at`, the parser may return
/// `value` together with `rest`.
pub open spec fn returns_at<I, O, E, F>(f: F, inp: I, at: nat, rest: I, value: O) -> bool where
    I: Input,
    F: FnMut(I) -> Result<(I, O), nom::Err<E>>,
 {
    exists|c: I| #[trigger]
        is_rest_at(c, inp, at) && call_ensures(f, (c,), Ok::<(I, O), nom::Err<E>>((rest, value)))
}

/// Given what is left of `inp` at position `at`, the parser may consume
/// `width` units and return `value` together with `rest`, which is what is
/// left of `inp` at position `at + width`.
pub open spec fn matches_at<I, O, E, F>(
    f: F,
    inp: I,
    at: nat,
    width: nat,
    rest: I,
    value: O,
) -> bool where I: Input, F: FnMut(I) -> Result<(I, O), nom::Err<E>> {
    returns_at(f, inp, at, rest, value) && is_rest_at(rest, inp, at + width)
}

/// Given what is left of `inp` at position `at`, the parser may fail.
pub open spec fn fails_at<I, O, E, F>(f: F, inp: I, at: nat) -> bool where
    I: Input,
    F: FnMut(I) -> Result<(I, O), nom::Err<E>>,
 {
    exists|c: I, e: nom::Err<E>|
        is_rest_at(c, inp, at) && #[trigger] call_ensures(f, (c,), Err::<(I, O), nom::Err<E>>(e))
}

/// The parser never succeeds on what is left of `inp`, at any position.
pub open spec fn never_matches<I, O, E, F>(f: F, inp: I) -> bool where
    I: Input,
    F: FnMut(I) -> Result<(I, O), nom::Err<E>>,
 {
    forall|at: nat, rest: I, value: O| !#[trigger] returns_at(f, inp, at, rest, value)
}

/// The contract that a parser keeps on `inp`: where it succeeds on what is
/// left of `inp` at some position, what it hands back as the rest is what it
/// was given without some number of units at the front. In particular a
/// success never yields more input than it was given, nor other input.
pub open spec fn well_behaved_on<I, O, E, F>(f: F, inp: I) -> bool where
    I: Input,
    F: FnMut(I) -> Result<(I, O), nom::Err<E>>,
 {
    forall|c: I, at: nat, rest: I, value: O|
        #[trigger] is_rest_at(c, inp, at) && #[trigger] call_ensures(
            f,
            (c,),
            Ok::<(I, O), nom::Err<E>>((rest, value)),
        ) ==> exists|width: nat| #[trigger] is_rest_at(rest, c, width)
}

/// A parser that never succeeds on what is left of `inp` keeps the contract of
/// a parser on `inp`: it hands back no rest at all.
pub proof fn lemma_never_matches_is_well_behaved<I, O, E, F>(f: F, inp: I) where
    I: Input,
    F: FnMut(I) -> Result<(I, O), nom::Err<E>>,

    requires
        never_matches(f, inp),
    ensures
        well_behaved_on(f, inp),
{
    assert forall|c: I, at: nat, rest: I, value: O|
        #[trigger] is_rest_at(c, inp, at) && #[trigger] call_ensures(
            f,
            (c,),
            Ok::<(I, O), nom::Err<E>>((rest, value)),
        ) implies exists|width: nat| #[trigger] is_rest_at(rest, c, width) by {
        assert(returns_at(f, inp, at, rest, value));
    }
}

/// Where a well-behaved parser returned `rest` at position `at`, it consumed
/// some number of units there, and `rest` is what is left of the input after
/// them.
pub proof fn lemma_returns_is_match<I, O, E, F>(f: F, inp: I, at: nat, rest: I, value: O) where
    I: Input,
    F: FnMut(I) -> Result<(I, O), nom::Err<E>>,

    requires
        well_behaved_on(f, inp),
        returns_at(f, inp, at, rest, value),
    ensures
        exists|width: nat| #[trigger] matches_at(f, inp, at, width, rest, value),
{
    let c = choose|c: I| #[trigger]
        is_rest_at(c, inp, at) && call_ensures(f, (c,), Ok::<(I, O), nom::Err<E>>((rest, value)));
    let width = choose|width: nat| #[trigger] is_rest_at(rest, c, width);
    assert(rest.units() =~= inp.units().skip((at + width) as int));
    assert(matches_at(f, inp, at, width, rest, value));
}

/// Two results of a parser agree: both fail, or both succeed with the same
/// value and leave the same units.
pub open spec fn same_outcome<I: Input, O, E>(
    a: Result<(I, O), nom::Err<E>>,
    b: Result<(I, O), nom::Err<E>>,
) -> bool {
    match (a, b) {
        (Ok((rest_a, value_a)), Ok((rest_b, value_b))) => value_a == value_b && rest_a.units()
            == rest_b.units(),
        (Err(_), Err(_)) => true,
        _ => false,
    }
}

/// The parser is a function of the units it is given: two calls on inputs
/// that hold the same units agree in their outcome.
pub open spec fn functional<I, O, E, F>(f: F) -> bool where
    I: Input,
    F: FnMut(I) -> Result<(I, O), nom::Err<E>>,
 {
    forall|c1: I, c2: I, r1: Result<(I, O), nom::Err<E>>, r2: Result<(I, O), nom::Err<E>>|
        c1.units() == c2.units() && #[trigger] call_ensures(f, (c1,), r1) && #[trigger] call_ensures(
            f,
            (c2,),
            r2,
        ) ==> same_outcome(r1, r2)
}

} // verus!
