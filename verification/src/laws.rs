//! Determinism of the combinators, proved from their contracts: with parsers
//! that are functions of the units they are given, the result of a scan is
//! fixed by the input and the parsers.

use crate::all::{found_all, scanned_all};
use crate::cursor::is_rest_at;
use crate::input::Input;
use crate::next::found_next;
use crate::parser::{fails_at, functional, matches_at, returns_at, same_outcome};
use crate::till::{collected_till, found_many_till, never_terminated, steps_until};
use crate::trace::{consumed, position, step_taken, steps_taken, Step};
use vstd::prelude::*;

verus! {

/// At one position a functional parser cannot both fail and succeed.
proof fn lemma_fail_excludes_match<I, O, E, F>(f: F, inp: I, at: nat, rest: I, value: O) where
    I: Input,
    F: FnMut(I) -> Result<(I, O), nom::Err<E>>,

    requires
        functional(f),
        fails_at(f, inp, at),
    ensures
        !returns_at(f, inp, at, rest, value),
{
    if returns_at(f, inp, at, rest, value) {
        let (c1, e) = choose|c: I, e: nom::Err<E>|
            is_rest_at(c, inp, at) && #[trigger] call_ensures(
                f,
                (c,),
                Err::<(I, O), nom::Err<E>>(e),
            );
        let c2 = choose|c: I| #[trigger]
            is_rest_at(c, inp, at) && call_ensures(
                f,
                (c,),
                Ok::<(I, O), nom::Err<E>>((rest, value)),
            );
        let r1 = Err::<(I, O), nom::Err<E>>(e);
        let r2 = Ok::<(I, O), nom::Err<E>>((rest, value));
        assert(call_ensures(f, (c1,), r1) && call_ensures(f, (c2,), r2));
        assert(same_outcome(r1, r2));
    }
}

/// Two successes of a functional parser at one position have the same value
/// and leave the same units.
proof fn lemma_matches_agree<I, O, E, F>(
    f: F,
    inp: I,
    at: nat,
    rest1: I,
    value1: O,
    rest2: I,
    value2: O,
) where I: Input, F: FnMut(I) -> Result<(I, O), nom::Err<E>>
    requires
        functional(f),
        returns_at(f, inp, at, rest1, value1),
        returns_at(f, inp, at, rest2, value2),
    ensures
        value1 == value2,
        rest1.units() == rest2.units(),
{
    let c1 = choose|c: I| #[trigger]
        is_rest_at(c, inp, at) && call_ensures(f, (c,), Ok::<(I, O), nom::Err<E>>((rest1, value1)));
    let c2 = choose|c: I| #[trigger]
        is_rest_at(c, inp, at) && call_ensures(f, (c,), Ok::<(I, O), nom::Err<E>>((rest2, value2)));
    let r1 = Ok::<(I, O), nom::Err<E>>((rest1, value1));
    let r2 = Ok::<(I, O), nom::Err<E>>((rest2, value2));
    assert(call_ensures(f, (c1,), r1) && call_ensures(f, (c2,), r2));
    assert(same_outcome(r1, r2));
}

/// What a functional parser did at one position is one step: two steps that
/// are both what the parser did there are equal.
proof fn lemma_step_unique<I, O, E, F>(f: F, inp: I, at: nat, a: Step<O>, b: Step<O>) where
    I: Input,
    F: FnMut(I) -> Result<(I, O), nom::Err<E>>,

    requires
        functional(f),
        step_taken(f, inp, at, a),
        step_taken(f, inp, at, b),
    ensures
        a == b,
{
    match (a, b) {
        (Step::Skip, Step::Skip) => {},
        (Step::Skip, Step::Match { value, width }) => {
            let rest = choose|rest: I| #[trigger] matches_at(f, inp, at, width, rest, value);
            lemma_fail_excludes_match(f, inp, at, rest, value);
        },
        (Step::Match { value, width }, Step::Skip) => {
            let rest = choose|rest: I| #[trigger] matches_at(f, inp, at, width, rest, value);
            lemma_fail_excludes_match(f, inp, at, rest, value);
        },
        (Step::Match { value: v1, width: w1 }, Step::Match { value: v2, width: w2 }) => {
            let rest1 = choose|rest: I| #[trigger] matches_at(f, inp, at, w1, rest, v1);
            let rest2 = choose|rest: I| #[trigger] matches_at(f, inp, at, w2, rest, v2);
            lemma_matches_agree(f, inp, at, rest1, v1, rest2, v2);
            assert(rest1.units().len() == inp.units().len() - (at + w1));
            assert(rest2.units().len() == inp.units().len() - (at + w2));
        },
    }
}

/// Two records of scans with one functional parser over one input agree as
/// far as both go.
proof fn lemma_steps_agree<I, O, E, F>(
    f: F,
    inp: I,
    a: Seq<Step<O>>,
    b: Seq<Step<O>>,
    n: int,
) where I: Input, F: FnMut(I) -> Result<(I, O), nom::Err<E>>
    requires
        functional(f),
        steps_taken(f, inp, a),
        steps_taken(f, inp, b),
        0 <= n <= a.len(),
        n <= b.len(),
    ensures
        a.take(n) == b.take(n),
    decreases n,
{
    if n == 0 {
        assert(a.take(0) =~= b.take(0));
    } else {
        lemma_steps_agree(f, inp, a, b, n - 1);
        assert(position(a, n - 1) == position(b, n - 1));
        assert(step_taken(f, inp, position(a, n - 1), a[n - 1]));
        assert(step_taken(f, inp, position(b, n - 1), b[n - 1]));
        lemma_step_unique(f, inp, position(a, n - 1), a[n - 1], b[n - 1]);
        assert(a.take(n) =~= a.take(n - 1).push(a[n - 1]));
        assert(b.take(n) =~= b.take(n - 1).push(b[n - 1]));
    }
}

/// A record of a scan that has moved over all of the input has no further
/// step: a record that agrees with it as far as it goes is no longer.
proof fn lemma_no_step_at_end<I, O, E, F>(f: F, inp: I, a: Seq<Step<O>>, b: Seq<Step<O>>) where
    I: Input,
    F: FnMut(I) -> Result<(I, O), nom::Err<E>>,

    requires
        steps_taken(f, inp, b),
        a.len() <= b.len(),
        a == b.take(a.len() as int),
        consumed(a) == inp.units().len(),
    ensures
        a.len() == b.len(),
{
    if a.len() < b.len() {
        assert(step_taken(f, inp, position(b, a.len() as int), b[a.len() as int]));
    }
}

/// Two results that a `find_all` scanner may return agree: both hold the same
/// values and leave the same units.
pub open spec fn same_scan<I: Input, O, E>(
    a: Result<(I, Vec<O>), nom::Err<E>>,
    b: Result<(I, Vec<O>), nom::Err<E>>,
) -> bool {
    match (a, b) {
        (Ok(done_a), Ok(done_b)) => done_a.1@ == done_b.1@ && done_a.0.units()
            == done_b.0.units(),
        (Err(_), Err(_)) => true,
        _ => false,
    }
}

/// Two results that `find_many_till` may return agree: both fail, or both
/// hold the same collected values and the same value of the terminator, and
/// leave the same units.
pub open spec fn same_collection<I: Input, O, P>(
    a: nom::IResult<I, (Vec<O>, P)>,
    b: nom::IResult<I, (Vec<O>, P)>,
) -> bool {
    match (a, b) {
        (Ok(done_a), Ok(done_b)) => {
            &&& done_a.1.0@ == done_b.1.0@
            &&& done_a.1.1 == done_b.1.1
            &&& done_a.0.units() == done_b.0.units()
        },
        (Err(_), Err(_)) => true,
        _ => false,
    }
}

/// `find_next` is deterministic: with a functional parser, any two results
/// that its contract admits on one input agree.
pub proof fn lemma_find_next_deterministic<I, O, F>(
    f: F,
    inp: I,
    r1: nom::IResult<I, O>,
    r2: nom::IResult<I, O>,
) where I: Input, F: FnMut(I) -> nom::IResult<I, O>
    requires
        functional(f),
        found_next(f, inp, r1),
        found_next(f, inp, r2),
    ensures
        same_outcome(r1, r2),
{
    match (r1, r2) {
        (Ok((rest1, value1)), Ok((rest2, value2))) => {
            let at1 = choose|at: nat|
                {
                    &&& at < inp.units().len()
                    &&& #[trigger] returns_at(f, inp, at, rest1, value1)
                    &&& forall|j: nat| j < at ==> #[trigger] fails_at(f, inp, j)
                };
            let at2 = choose|at: nat|
                {
                    &&& at < inp.units().len()
                    &&& #[trigger] returns_at(f, inp, at, rest2, value2)
                    &&& forall|j: nat| j < at ==> #[trigger] fails_at(f, inp, j)
                };
            if at1 < at2 {
                assert(fails_at(f, inp, at1));
                lemma_fail_excludes_match(f, inp, at1, rest1, value1);
            }
            if at2 < at1 {
                assert(fails_at(f, inp, at2));
                lemma_fail_excludes_match(f, inp, at2, rest2, value2);
            }
            lemma_matches_agree(f, inp, at1, rest1, value1, rest2, value2);
        },
        (Ok((rest1, value1)), Err(_)) => {
            let at1 = choose|at: nat|
                {
                    &&& at < inp.units().len()
                    &&& #[trigger] returns_at(f, inp, at, rest1, value1)
                    &&& forall|j: nat| j < at ==> #[trigger] fails_at(f, inp, j)
                };
            assert(fails_at(f, inp, at1));
            lemma_fail_excludes_match(f, inp, at1, rest1, value1);
        },
        (Err(_), Ok((rest2, value2))) => {
            let at2 = choose|at: nat|
                {
                    &&& at < inp.units().len()
                    &&& #[trigger] returns_at(f, inp, at, rest2, value2)
                    &&& forall|j: nat| j < at ==> #[trigger] fails_at(f, inp, j)
                };
            assert(fails_at(f, inp, at2));
            lemma_fail_excludes_match(f, inp, at2, rest2, value2);
        },
        (Err(_), Err(_)) => {},
    }
}

/// Two records of scans of one functional parser over all of one input are
/// equal.
proof fn lemma_full_records_equal<I, O, E, F>(f: F, inp: I, a: Seq<Step<O>>, b: Seq<Step<O>>) where
    I: Input,
    F: FnMut(I) -> Result<(I, O), nom::Err<E>>,

    requires
        functional(f),
        steps_taken(f, inp, a),
        steps_taken(f, inp, b),
        consumed(a) == inp.units().len(),
        consumed(b) == inp.units().len(),
    ensures
        a == b,
{
    if a.len() <= b.len() {
        lemma_steps_agree(f, inp, a, b, a.len() as int);
        assert(a.take(a.len() as int) =~= a);
        lemma_no_step_at_end(f, inp, a, b);
        assert(b.take(b.len() as int) =~= b);
    } else {
        lemma_steps_agree(f, inp, a, b, b.len() as int);
        assert(b.take(b.len() as int) =~= b);
        lemma_no_step_at_end(f, inp, b, a);
        assert(a.take(a.len() as int) =~= a);
    }
}

/// A `find_all` scanner is deterministic: with a functional pattern, any two
/// results that its contract admits on one input agree.
pub proof fn lemma_find_all_deterministic<I, O, E, F>(
    pat: F,
    inp: I,
    r1: Result<(I, Vec<O>), nom::Err<E>>,
    r2: Result<(I, Vec<O>), nom::Err<E>>,
) where I: Input, F: FnMut(I) -> Result<(I, O), nom::Err<E>>
    requires
        functional(pat),
        found_all(pat, inp, r1),
        found_all(pat, inp, r2),
    ensures
        same_scan(r1, r2),
{
    let done1 = r1->Ok_0;
    let done2 = r2->Ok_0;
    let (steps1, last1) = choose|steps: Seq<Step<O>>, last: Option<O>| #[trigger]
        scanned_all(pat, inp, steps, last, done1);
    let (steps2, last2) = choose|steps: Seq<Step<O>>, last: Option<O>| #[trigger]
        scanned_all(pat, inp, steps, last, done2);
    lemma_full_records_equal(pat, inp, steps1, steps2);
    let end = inp.units().len();
    match (last1, last2) {
        (None, None) => {},
        (None, Some(value)) => {
            let left = choose|left: I| #[trigger] matches_at(pat, inp, end, 0, left, value);
            lemma_fail_excludes_match(pat, inp, end, left, value);
        },
        (Some(value), None) => {
            let left = choose|left: I| #[trigger] matches_at(pat, inp, end, 0, left, value);
            lemma_fail_excludes_match(pat, inp, end, left, value);
        },
        (Some(value1), Some(value2)) => {
            let left1 = choose|left: I| #[trigger] matches_at(pat, inp, end, 0, left, value1);
            let left2 = choose|left: I| #[trigger] matches_at(pat, inp, end, 0, left, value2);
            lemma_matches_agree(pat, inp, end, left1, value1, left2, value2);
        },
    }
}

/// In a record of a scan with the terminator `g`, no step was taken where a
/// functional `g` succeeds: a record that agrees with `b` as far as it goes
/// and ends where `g` returned is no shorter than `b`.
proof fn lemma_no_step_past_terminator<I, O, P, F, G>(
    f: F,
    g: G,
    inp: I,
    a: Seq<Step<O>>,
    b: Seq<Step<O>>,
    rest: I,
    end: P,
) where I: Input, F: FnMut(I) -> nom::IResult<I, O>, G: FnMut(I) -> nom::IResult<I, P>
    requires
        functional(g),
        steps_until(f, g, inp, b),
        a.len() <= b.len(),
        a == b.take(a.len() as int),
        returns_at(g, inp, consumed(a), rest, end),
    ensures
        a.len() == b.len(),
{
    if a.len() < b.len() {
        assert(fails_at(g, inp, position(b, a.len() as int)));
        lemma_fail_excludes_match(g, inp, consumed(a), rest, end);
    }
}

/// `find_many_till` is deterministic: with a functional filler and a
/// functional terminator, any two results that its contract admits on one
/// input agree.
pub proof fn lemma_find_many_till_deterministic<I, O, P, F, G>(
    f: F,
    g: G,
    inp: I,
    r1: nom::IResult<I, (Vec<O>, P)>,
    r2: nom::IResult<I, (Vec<O>, P)>,
) where I: Input, F: FnMut(I) -> nom::IResult<I, O>, G: FnMut(I) -> nom::IResult<I, P>
    requires
        functional(f),
        functional(g),
        found_many_till(f, g, inp, r1),
        found_many_till(f, g, inp, r2),
    ensures
        same_collection(r1, r2),
{
    match (r1, r2) {
        (Ok(done1), Ok(done2)) => {
            let a = choose|steps: Seq<Step<O>>| #[trigger] collected_till(f, g, inp, steps, done1);
            let b = choose|steps: Seq<Step<O>>| #[trigger] collected_till(f, g, inp, steps, done2);
            if a.len() <= b.len() {
                lemma_steps_agree(f, inp, a, b, a.len() as int);
                assert(a.take(a.len() as int) =~= a);
                lemma_no_step_past_terminator(f, g, inp, a, b, done1.0, done1.1.1);
                assert(b.take(b.len() as int) =~= b);
            } else {
                lemma_steps_agree(f, inp, a, b, b.len() as int);
                assert(b.take(b.len() as int) =~= b);
                lemma_no_step_past_terminator(f, g, inp, b, a, done2.0, done2.1.1);
                assert(a.take(a.len() as int) =~= a);
            }
            lemma_matches_agree(g, inp, consumed(a), done1.0, done1.1.1, done2.0, done2.1.1);
        },
        (Ok(done), Err(_)) => {
            let a = choose|steps: Seq<Step<O>>| #[trigger] collected_till(f, g, inp, steps, done);
            let b = choose|steps: Seq<Step<O>>| #[trigger] never_terminated(f, g, inp, steps);
            lemma_terminated_excludes_end(f, g, inp, a, b, done.0, done.1.1);
        },
        (Err(_), Ok(done)) => {
            let a = choose|steps: Seq<Step<O>>| #[trigger] collected_till(f, g, inp, steps, done);
            let b = choose|steps: Seq<Step<O>>| #[trigger] never_terminated(f, g, inp, steps);
            lemma_terminated_excludes_end(f, g, inp, a, b, done.0, done.1.1);
        },
        (Err(_), Err(_)) => {},
    }
}

/// With functional parsers, no record of a scan ends where the terminator
/// returned while another reaches the end of the input with the terminator
/// failing throughout.
proof fn lemma_terminated_excludes_end<I, O, P, F, G>(
    f: F,
    g: G,
    inp: I,
    a: Seq<Step<O>>,
    b: Seq<Step<O>>,
    rest: I,
    end: P,
) where I: Input, F: FnMut(I) -> nom::IResult<I, O>, G: FnMut(I) -> nom::IResult<I, P>
    requires
        functional(f),
        functional(g),
        steps_until(f, g, inp, a),
        never_terminated(f, g, inp, b),
    ensures
        !returns_at(g, inp, consumed(a), rest, end),
{
    if returns_at(g, inp, consumed(a), rest, end) {
        if a.len() <= b.len() {
            lemma_steps_agree(f, inp, a, b, a.len() as int);
            assert(a.take(a.len() as int) =~= a);
            lemma_no_step_past_terminator(f, g, inp, a, b, rest, end);
            assert(b.take(b.len() as int) =~= b);
        } else {
            lemma_steps_agree(f, inp, a, b, b.len() as int);
            assert(b.take(b.len() as int) =~= b);
            lemma_no_step_at_end(f, inp, b, a);
        }
        lemma_fail_excludes_match(g, inp, consumed(a), rest, end);
    }
}

} // verus!
