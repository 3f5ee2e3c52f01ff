//! Scanning combinators for `nom` parsers: find the next match, find every
//! match, or collect matches until a terminator is found.
//!
//! - [`find_next`] skips input one unit at a time until a parser succeeds.
//! - [`find_all`] builds a scanner that collects every match of a parser,
//!   without overlap, until the input is exhausted.
//! - [`find_many_till`] collects the matches of a filler parser, discarding
//!   what matches nothing, until a terminator parser succeeds.
//!
//! A parser is any `FnMut(I) -> nom::IResult<I, O, E>` over an input `I` that
//! implements [`Input`], as string slices and byte slices do. A scan never
//! stands still: after a failure, and after a match that consumed nothing,
//! it moves on by one unit.
//!
//! Every function here is verified with Verus. The contracts are stated in
//! `cursor` (positions in an input), `parser` (what is said of a parser),
//! `trace` (the record of a scan) and beside each combinator; `laws` proves
//! that the results are deterministic.
//! What the combinators take from `nom` itself (the length of an input, the
//! split after a number of units, the failure value) is reached through the
//! small trusted layer in `outside`.

pub mod all;
pub mod cursor;
pub mod input;
pub mod laws;
pub mod next;
pub mod outside;
pub mod parser;
pub mod till;
pub mod trace;

pub use all::{find_all, FindAll};
pub use input::Input;
pub use next::find_next;
pub use till::find_many_till;
