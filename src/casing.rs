//! Word boundaries and identifier casing, from the `convert_case` crate.

use vstd::prelude::*;
use convert_case::{Boundary, Case, Casing};
use crate::ast::WordBoundary;

verus! {

/// The boundaries that `convert_case` finds in a sample string such as
/// `"aA:1B"`.
pub uninterp spec fn boundaries_in(sample: Seq<char>) -> Seq<WordBoundary>;

/// A name written in snake case, as `convert_case` writes it.
pub uninterp spec fn snake_case_of(name: Seq<char>) -> Seq<char>;

/// Relies on `convert_case::Boundary::list_from`: the boundaries that the
/// sample string shows, which depend on the string alone.
#[verifier::external_body]
pub(crate) fn boundaries_from_str(sample: &str) -> (r: Vec<WordBoundary>)
    ensures
        r@ == boundaries_in(sample@),
{
    Boundary::list_from(sample).into_iter().map(|b| match b {
        Boundary::Hyphen => WordBoundary::Hyphen,
        Boundary::Underscore => WordBoundary::Underscore,
        Boundary::Space => WordBoundary::Space,
        Boundary::LowerUpper => WordBoundary::LowerUpper,
        Boundary::UpperLower => WordBoundary::UpperLower,
        Boundary::DigitUpper => WordBoundary::DigitUpper,
        Boundary::UpperDigit => WordBoundary::UpperDigit,
        Boundary::DigitLower => WordBoundary::DigitLower,
        Boundary::LowerDigit => WordBoundary::LowerDigit,
        Boundary::Acronym => WordBoundary::Acronym,
    }).collect()
}

/// Relies on `convert_case::Casing::to_case` with `Case::Snake`: the result
/// depends on the name alone.
#[verifier::external_body]
pub(crate) fn snake_case(name: &str) -> (r: String)
    ensures
        r@ == snake_case_of(name@),
{
    name.to_case(Case::Snake)
}

} // verus!
