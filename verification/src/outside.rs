//! The trusted layer: the types and functions of `nom` that the combinators
//! use. Verus believes the contracts in this file without proof; each doc
//! comment says what is claimed of the function that is called.

use vstd::prelude::*;
use vstd::string::StringSliceAdditionalSpecFns;

verus! {

/// `nom::Err`, the error side of every parser result. Opaque to the proofs:
/// the combinators only pass such values on.
#[verifier::external_type_specification]
#[verifier::external_body]
#[verifier::reject_recursive_types(E)]
pub struct ExErr<E>(nom::Err<E>);

/// `nom::error::Error`, the default error payload of `nom`. Opaque to the
/// proofs.
#[verifier::external_type_specification]
#[verifier::external_body]
#[verifier::reject_recursive_types(I)]
pub struct ExError<I>(nom::error::Error<I>);

/// Calls `nom::InputLength::input_len` on a string slice, which returns the
/// length of the slice in bytes, that is the length of its UTF-8 encoding.
#[verifier::external_body]
pub(crate) fn str_input_len(s: &str) -> (n: usize)
    ensures
        n == s.spec_bytes().len(),
{
    nom::InputLength::input_len(&s)
}

/// Calls `nom::InputLength::input_len` on a byte slice, which returns the
/// number of bytes in the slice.
#[verifier::external_body]
pub(crate) fn bytes_input_len(s: &[u8]) -> (n: usize)
    ensures
        n == s@.len(),
{
    nom::InputLength::input_len(&s)
}

/// Calls `nom::bytes::complete::take` with `count` on a string slice. With at
/// least `count` characters in the slice, the call succeeds and splits the
/// slice after its first `count` characters: the result holds the rest first
/// and the characters taken second. With fewer characters it fails.
#[verifier::external_body]
pub(crate) fn str_take<'a>(s: &'a str, count: usize) -> (r: nom::IResult<&'a str, &'a str>)
    ensures
        match r {
            Ok((rest, taken)) => count <= s@.len() && rest@ == s@.skip(count as int) && taken@
                == s@.take(count as int),
            Err(_) => count > s@.len(),
        },
{
    nom::bytes::complete::take(count)(s)
}

/// Calls `nom::bytes::complete::take` with `count` on a byte slice. With at
/// least `count` bytes in the slice, the call succeeds and splits the slice
/// after its first `count` bytes: the result holds the rest first and the
/// bytes taken second. With fewer bytes it fails.
#[verifier::external_body]
pub(crate) fn bytes_take<'a>(s: &'a [u8], count: usize) -> (r: nom::IResult<&'a [u8], &'a [u8]>)
    ensures
        match r {
            Ok((rest, taken)) => count <= s@.len() && rest@ == s@.skip(count as int) && taken@
                == s@.take(count as int),
            Err(_) => count > s@.len(),
        },
{
    nom::bytes::complete::take(count)(s)
}

/// Calls `nom::combinator::fail`, which returns an error for every input.
#[verifier::external_body]
pub(crate) fn fail<I, O>(inp: I) -> (r: nom::IResult<I, O>)
    ensures
        r is Err,
{
    nom::combinator::fail(inp)
}

} // verus!
