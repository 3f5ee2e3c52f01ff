//! The inputs that the combinators scan.

use crate::outside::{bytes_input_len, bytes_take, str_input_len, str_take};
use vstd::prelude::*;
use vstd::string::StringSliceAdditionalSpecFns;
use vstd::utf8::encode_utf8;

verus! {

/// An input that a parser reads from the front: a cheap, copyable view of a
/// sequence of units (bytes, characters, tokens).
///
/// A string slice is an input whose units are its characters, a byte slice
/// one whose units are its bytes. Both do their work through `nom`.
pub trait Input: Sized + Copy {
    /// One unit of input.
    type Item;

    /// The units that are left to read, first to last.
    spec fn units(&self) -> Seq<Self::Item>;

    /// The length that `input_len` reports for an input that holds `units`.
    /// It need not count units: a string reports its length in bytes.
    spec fn span(units: Seq<Self::Item>) -> nat;

    /// An input with nothing left reports length zero.
    proof fn lemma_span_empty()
        ensures
            Self::span(Seq::<Self::Item>::empty()) == 0,
    ;

    /// Dropping units from the front makes the reported length smaller.
    proof fn lemma_span_shrinks(units: Seq<Self::Item>, n: int)
        requires
            0 < n <= units.len(),
        ensures
            Self::span(units.skip(n)) < Self::span(units),
    ;

    /// The length of what is left.
    fn input_len(&self) -> (n: usize)
        ensures
            n == Self::span(self.units()),
    ;

    /// Splits the input after its first `count` units: on success the result
    /// holds the rest first and the units taken second. Fails when fewer than
    /// `count` units are left.
    fn take_units(&self, count: usize) -> (r: nom::IResult<Self, Self>)
        ensures
            match r {
                Ok((rest, taken)) => count <= self.units().len() && rest.units()
                    == self.units().skip(count as int) && taken.units() == self.units().take(
                    count as int,
                ),
                Err(_) => count > self.units().len(),
            },
    ;
}

impl<'a> Input for &'a [u8] {
    type Item = u8;

    open spec fn units(&self) -> Seq<u8> {
        self@
    }

    open spec fn span(units: Seq<u8>) -> nat {
        units.len()
    }

    proof fn lemma_span_empty() {
    }

    proof fn lemma_span_shrinks(units: Seq<u8>, n: int) {
    }

    fn input_len(&self) -> (n: usize) {
        bytes_input_len(*self)
    }

    fn take_units(&self, count: usize) -> (r: nom::IResult<Self, Self>) {
        bytes_take(*self, count)
    }
}

impl<'a> Input for &'a str {
    type Item = char;

    open spec fn units(&self) -> Seq<char> {
        self@
    }

    open spec fn span(units: Seq<char>) -> nat {
        encode_utf8(units).len()
    }

    proof fn lemma_span_empty() {
    }

    proof fn lemma_span_shrinks(units: Seq<char>, n: int)
        decreases n,
    {
        assert(units.drop_first() =~= units.skip(1));
        if n > 1 {
            assert(units.skip(n) =~= units.skip(1).skip(n - 1));
            Self::lemma_span_shrinks(units.skip(1), n - 1);
        }
    }

    fn input_len(&self) -> (n: usize) {
        str_input_len(*self)
    }

    fn take_units(&self, count: usize) -> (r: nom::IResult<Self, Self>) {
        str_take(*self, count)
    }
}

} // verus!
