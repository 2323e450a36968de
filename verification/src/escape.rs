//! Unescaping of string tokens, done by the `snailquote` crate.
use vstd::prelude::*;

verus! {

/// The error of `snailquote::unescape`. Nothing is known of its values.
#[verifier::external_type_specification]
#[verifier::external_body]
pub struct ExUnescapeError(snailquote::UnescapeError);

/// What `snailquote::unescape` makes of a text: the unescaped text, or
/// `None` where it reports an error.
pub uninterp spec fn snailquote_unescape(text: Seq<char>) -> Option<Seq<char>>;

/// Calls `snailquote::unescape`. The contract only names the outcome: it
/// is `snailquote_unescape` of the text, an error standing for `None`.
#[verifier::external_body]
fn unescape_text(x: &str) -> (r: Result<String, snailquote::UnescapeError>)
    ensures
        r is Ok <==> snailquote_unescape(x@) is Some,
        r is Ok ==> snailquote_unescape(x@) == Some(r->Ok_0@),
{
    snailquote::unescape(x)
}

/// The string that `outcome` gives, where `outcome` is what unescaping a
/// token's text came to: the unescaped text, or the empty string where
/// unescaping failed.
pub open spec fn or_empty(outcome: Option<Seq<char>>) -> Seq<char> {
    match outcome {
        Some(plain) => plain,
        None => Seq::empty(),
    }
}

/// The string that a token's text stands for: its unescaped text, or the
/// empty string where the text cannot be unescaped.
pub open spec fn unescaped(text: Seq<char>) -> Seq<char> {
    or_empty(snailquote_unescape(text))
}

/// The unescaped text, or the empty string where unescaping failed.
pub fn unescaped_or_empty(outcome: Option<String>) -> (r: String)
    ensures
        r@ == or_empty(
            match outcome {
                Some(plain) => Some(plain@),
                None => None,
            },
        ),
{
    match outcome {
        Some(plain) => plain,
        None => String::new(),
    }
}

/// Unescapes the text of a token; a text that cannot be unescaped gives
/// the empty string.
pub fn unescape(x: &str) -> (r: String)
    ensures
        r@ == unescaped(x@),
{
    match unescape_text(x) {
        Ok(plain) => unescaped_or_empty(Some(plain)),
        Err(_) => unescaped_or_empty(None),
    }
}

} // verus!
