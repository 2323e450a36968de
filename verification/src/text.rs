//! Texts as sequences of characters.
use crate::types::Span;
use vstd::prelude::*;
use vstd::std_specs::iter::IteratorSpec;

verus! {

/// The characters of a text.
pub fn characters(text: &str) -> (chars: Vec<char>)
    ensures
        chars@ == text@,
{
    let mut chars: Vec<char> = Vec::new();
    let mut rest = text.chars();
    assert(chars@ + rest.remaining() =~= text@);
    loop
        invariant
            chars@ + rest.remaining() == text@,
            rest.obeys_prophetic_iter_laws(),
            rest.decrease() is Some,
        ensures
            chars@ == text@,
        decreases rest.decrease()->0,
    {
        let ghost before = rest.remaining();
        let ghost seen = chars@;
        match rest.next() {
            Some(c) => {
                chars.push(c);
                assert(chars@ + before.drop_first() =~= seen + before);
            },
            None => {
                assert(chars@ + Seq::<char>::empty() =~= chars@);
                break ;
            },
        }
    }
    chars
}

/// The string of the given characters.
pub fn string_of(chars: &Vec<char>) -> (r: String)
    ensures
        r@ == chars@,
{
    let mut out: String = String::new();
    let mut i: usize = 0;
    while i < chars.len()
        invariant
            i <= chars.len(),
            out@ == chars@.take(i as int),
        decreases chars.len() - i,
    {
        push_char(&mut out, chars[i]);
        assert(chars@.take(i as int).push(chars@[i as int]) =~= chars@.take(i + 1));
        i += 1;
    }
    assert(chars@.take(chars@.len() as int) =~= chars@);
    out
}

/// `String::push`: appends one character to the string.
#[verifier::external_body]
fn push_char(s: &mut String, c: char)
    ensures
        final(s)@ == old(s)@.push(c),
{
    s.push(c)
}

/// The string of the characters that a span covers.
pub fn slice_string(chars: &Vec<char>, span: Span) -> (r: String)
    requires
        span.within(chars@.len()),
    ensures
        r@ == span.of(chars@),
{
    let mut out: String = String::new();
    let mut i: usize = span.start;
    assert(chars@.subrange(span.start as int, span.start as int) =~= out@);
    while i < span.end
        invariant
            span.within(chars@.len()),
            span.start <= i <= span.end,
            out@ == chars@.subrange(span.start as int, i as int),
        decreases span.end - i,
    {
        push_char(&mut out, chars[i]);
        assert(chars@.subrange(span.start as int, i as int).push(chars@[i as int])
            =~= chars@.subrange(span.start as int, i + 1));
        i += 1;
    }
    out
}

} // verus!
