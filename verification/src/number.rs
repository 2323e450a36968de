//! Integer literals, read with the `lexical` crate in its TOML number format.
use lexical::format::TOML;
use vstd::prelude::*;

verus! {

/// The error of `lexical`'s parsers. Nothing is known of its values.
#[verifier::external_type_specification]
#[verifier::external_body]
pub struct ExLexicalError(lexical::Error);

/// What `lexical::parse_with_options::<i64, _, TOML>` makes of a text with
/// default options: the integer, or `None` where it reports an error.
pub uninterp spec fn lexical_integer(text: Seq<char>) -> Option<i64>;

/// Calls `lexical::parse_with_options` for `i64` in the TOML format (a
/// valid format, so the call does not panic) with default options. The
/// contract only names the outcome: it is `lexical_integer` of the text,
/// an error standing for `None`.
#[verifier::external_body]
fn lexical_parse_i64(x: &str) -> (r: Result<i64, lexical::Error>)
    ensures
        r is Ok <==> lexical_integer(x@) is Some,
        r is Ok ==> lexical_integer(x@) == Some(r->Ok_0),
{
    lexical::parse_with_options::<i64, _, TOML>(x, &lexical::ParseIntegerOptions::new())
}

/// A text that is no integer literal.
#[derive(Clone, Copy, Debug, PartialEq, Eq)]
pub struct NumberError;

/// Reads an integer literal.
pub fn parse_integer(x: &str) -> (r: Result<i64, NumberError>)
    ensures
        r is Ok <==> lexical_integer(x@) is Some,
        r is Ok ==> lexical_integer(x@) == Some(r->Ok_0),
{
    match lexical_parse_i64(x) {
        Ok(v) => Ok(v),
        Err(_) => Err(NumberError),
    }
}

} // verus!
