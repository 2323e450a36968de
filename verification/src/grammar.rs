//! The grammar of the notation, as functions over the characters of a text.
//!
//! ```text
//! document  := ws (item (ws "," ws item)*)? ws
//! item      := key ws "=" ws value
//! value     := composite | primitive
//! composite := "{" ws body ws "}"
//! body      := entry (ws "," ws entry)* | value (ws "," ws value)* | empty
//! entry     := key ws ":" ws value
//! key       := primitive
//! primitive := quoted | a run of characters that are neither whitespace
//!              nor one of = , { } :
//! quoted    := '"' (a character other than '"' and '\' | '\' escape)* '"'
//! ```
//!
//! Each function that parses from an offset gives `Ok` with what it found
//! and the offset after it, or `Err` with the offset at which the text
//! stopped to fit.
use crate::number::lexical_integer;
use crate::token::Node;
use crate::types::{float_at, FloatLiteral, Span};
use vstd::prelude::*;

verus! {

// ---------------------------------------------------------------- characters

/// Insignificant whitespace: space, tab, carriage return, line feed.
pub open spec fn is_space(c: char) -> bool {
    c == ' ' || c == '\t' || c == '\r' || c == '\n'
}

/// The five structural characters.
pub open spec fn is_special(c: char) -> bool {
    c == '=' || c == ',' || c == '{' || c == '}' || c == ':'
}

/// A character that may stand in an unquoted token.
pub open spec fn is_word(c: char) -> bool {
    !is_space(c) && !is_special(c)
}

/// A character that may follow a backslash inside a quoted token.
pub open spec fn is_escape(c: char) -> bool {
    c == '"' || c == '\\' || c == '/' || c == 'b' || c == 'f' || c == 'n' || c == 'r' || c == 't'
        || c == '\''
}

/// The text of the literal `true`.
pub open spec fn true_text() -> Seq<char> {
    seq!['t', 'r', 'u', 'e']
}

/// The text of the literal `false`.
pub open spec fn false_text() -> Seq<char> {
    seq!['f', 'a', 'l', 's', 'e']
}

/// The span from offset `start` to offset `end`.
pub open spec fn span_of(start: int, end: int) -> Span {
    Span { start: start as usize, end: end as usize }
}

/// `to` lies after `from` and inside a text of `len` characters.
pub open spec fn forward(from: int, to: int, len: nat) -> bool {
    from < to <= len
}

// ------------------------------------------------------------------- grammar

/// The first offset at or after `i` that holds no whitespace.
pub open spec fn skip_space(s: Seq<char>, i: int) -> int
    decreases s.len() - i,
{
    if 0 <= i < s.len() && is_space(s[i]) {
        skip_space(s, i + 1)
    } else {
        i
    }
}

/// The first offset at or after `i` that holds no word character.
pub open spec fn word_end(s: Seq<char>, i: int) -> int
    decreases s.len() - i,
{
    if 0 <= i < s.len() && is_word(s[i]) {
        word_end(s, i + 1)
    } else {
        i
    }
}

/// The offset after the quote that closes a quoted token whose inside
/// goes on at `i`, or the offset of the failure: the end of the text where
/// no quote closes it, the character after a backslash where that is no
/// escape.
pub open spec fn quoted_end(s: Seq<char>, i: int) -> Result<int, int>
    decreases s.len() - i,
{
    if !(0 <= i < s.len()) {
        Err(s.len() as int)
    } else if s[i] == '"' {
        Ok(i + 1)
    } else if s[i] == '\\' {
        if i + 1 < s.len() && is_escape(s[i + 1]) {
            quoted_end(s, i + 2)
        } else {
            Err(i + 1)
        }
    } else {
        quoted_end(s, i + 1)
    }
}

/// The end of the primitive token that starts at `i`: a quoted token where
/// `i` holds a double quote, else a run of at least one word character.
pub open spec fn primitive_end(s: Seq<char>, i: int) -> Result<int, int> {
    if 0 <= i < s.len() && s[i] == '"' {
        quoted_end(s, i + 1)
    } else {
        let e = word_end(s, i);
        if e > i {
            Ok(e)
        } else {
            Err(i)
        }
    }
}

/// The four kinds of scalar.
#[derive(Debug, Clone, Copy, PartialEq, Eq, Structural)]
pub enum ScalarKind {
    String,
    Integer,
    Float,
    Boolean,
}

/// The kind of a primitive token, from what is known of its text: a
/// quoted token is a string; an unquoted one is a boolean, else an
/// integer, else a float, else a string, by the first of these that its
/// text is.
pub open spec fn kind_by(quoted: bool, boolean: bool, integer: bool, float: bool) -> ScalarKind {
    if quoted {
        ScalarKind::String
    } else if boolean {
        ScalarKind::Boolean
    } else if integer {
        ScalarKind::Integer
    } else if float {
        ScalarKind::Float
    } else {
        ScalarKind::String
    }
}

/// The scalar node of a kind at a span.
pub open spec fn scalar(kind: ScalarKind, span: Span) -> Node {
    match kind {
        ScalarKind::String => Node::String(span),
        ScalarKind::Integer => Node::Integer(span),
        ScalarKind::Float => Node::Float(span),
        ScalarKind::Boolean => Node::Boolean(span),
    }
}

/// The node of the primitive token at `span`: its kind goes by whether it
/// starts with a quote, whether its text is `true` or `false`, whether its
/// text is an integer literal, and whether the table of float literals has
/// its span.
pub open spec fn classify(s: Seq<char>, span: Span, floats: Seq<FloatLiteral>) -> Node {
    let word = span.of(s);
    scalar(
        kind_by(
            s[span.start as int] == '"',
            word == true_text() || word == false_text(),
            lexical_integer(word) is Some,
            float_at(floats, span) is Some,
        ),
        span,
    )
}

/// The primitive value at `i`.
pub open spec fn spec_primitive(s: Seq<char>, i: int, floats: Seq<FloatLiteral>) -> Result<
    (Node, int),
    int,
> {
    match primitive_end(s, i) {
        Ok(e) => Ok((classify(s, span_of(i, e), floats), e)),
        Err(o) => Err(o),
    }
}

/// `head` put before the elements of a list that was parsed after it.
pub open spec fn prepend<T>(head: Seq<T>, rest: Result<(Seq<T>, int), int>) -> Result<
    (Seq<T>, int),
    int,
> {
    match rest {
        Ok((tail, end)) => Ok((head + tail, end)),
        Err(o) => Err(o),
    }
}

/// Whether a composite body that starts at `j` is a map body: it starts
/// with a primitive token that a colon follows.
pub open spec fn starts_entry(s: Seq<char>, j: int) -> bool {
    match primitive_end(s, j) {
        Ok(e) => {
            let c = skip_space(s, e);
            0 <= c < s.len() && s[c] == ':'
        },
        Err(_) => false,
    }
}

/// The value at `i`: a composite where `i` holds an opening brace, else a
/// primitive. The result is the node and the offset after it.
pub open spec fn spec_value(s: Seq<char>, i: int, floats: Seq<FloatLiteral>) -> Result<
    (Node, int),
    int,
>
    decreases s.len() - i, 2int,
{
    if 0 <= i < s.len() && s[i] == '{' {
        spec_composite(s, i, floats)
    } else {
        spec_primitive(s, i, floats)
    }
}

/// The composite whose opening brace is at `i`: an empty body is an empty
/// map, a body that starts with `key :` is a map, any other is a sequence.
/// (The tests on `forward` keep the definitions well-founded. They never
/// fail: offsets only move forward, see `soundness::lemma_offsets_move_forward`.)
pub open spec fn spec_composite(s: Seq<char>, i: int, floats: Seq<FloatLiteral>) -> Result<
    (Node, int),
    int,
>
    decreases s.len() - i, 1int,
{
    let j = skip_space(s, i + 1);
    if !forward(i, j, s.len()) {
        Err(i)
    } else if j < s.len() && s[j] == '}' {
        Ok((Node::Mapping(span_of(i, j + 1), Seq::empty()), j + 1))
    } else if starts_entry(s, j) {
        match spec_pairs(s, j, ':', floats) {
            Ok((entries, k)) => if k < s.len() && s[k] == '}' {
                Ok((Node::Mapping(span_of(i, k + 1), entries), k + 1))
            } else {
                Err(k)
            },
            Err(o) => Err(o),
        }
    } else {
        match spec_items(s, j, floats) {
            Ok((items, k)) => if k < s.len() && s[k] == '}' {
                Ok((Node::Sequence(span_of(i, k + 1), items), k + 1))
            } else {
                Err(k)
            },
            Err(o) => Err(o),
        }
    }
}

/// The keyed values from `j` on, each `key sep value`, with commas between
/// them. The result is the entries and the offset after the last value
/// and the whitespace behind it.
pub open spec fn spec_pairs(s: Seq<char>, j: int, sep: char, floats: Seq<FloatLiteral>) -> Result<
    (Seq<(Span, Node)>, int),
    int,
>
    decreases s.len() - j, 3int,
{
    match primitive_end(s, j) {
        Err(o) => Err(o),
        Ok(key_end) => {
            let c = skip_space(s, key_end);
            if !(0 <= c < s.len() && s[c] == sep) {
                Err(c)
            } else {
                let v = skip_space(s, c + 1);
                if !forward(j, v, s.len()) {
                    Err(j)
                } else {
                    match spec_value(s, v, floats) {
                        Err(o) => Err(o),
                        Ok((node, e)) => {
                            let k = skip_space(s, e);
                            let entry = (span_of(j, key_end), node);
                            if 0 <= k < s.len() && s[k] == ',' {
                                let n = skip_space(s, k + 1);
                                if !forward(j, n, s.len()) {
                                    Err(j)
                                } else {
                                    prepend(seq![entry], spec_pairs(s, n, sep, floats))
                                }
                            } else {
                                Ok((seq![entry], k))
                            }
                        },
                    }
                }
            }
        },
    }
}

/// The values from `j` on, with commas between them. The result is the
/// values and the offset after the last one and the whitespace behind it.
pub open spec fn spec_items(s: Seq<char>, j: int, floats: Seq<FloatLiteral>) -> Result<
    (Seq<Node>, int),
    int,
>
    decreases s.len() - j, 3int,
{
    match spec_value(s, j, floats) {
        Err(o) => Err(o),
        Ok((node, e)) => {
            let k = skip_space(s, e);
            if 0 <= k < s.len() && s[k] == ',' {
                let n = skip_space(s, k + 1);
                if !forward(j, n, s.len()) {
                    Err(j)
                } else {
                    prepend(seq![node], spec_items(s, n, floats))
                }
            } else {
                Ok((seq![node], k))
            }
        },
    }
}

/// The document that a text is: a map of its `key = value` items, which
/// spans the whole text; or the offset at which the text stops being one.
pub open spec fn spec_document(s: Seq<char>, floats: Seq<FloatLiteral>) -> Result<Node, int> {
    let j = skip_space(s, 0);
    let whole = span_of(0, s.len() as int);
    if j >= s.len() {
        Ok(Node::Mapping(whole, Seq::empty()))
    } else {
        match spec_pairs(s, j, '=', floats) {
            Ok((entries, k)) => if k == s.len() {
                Ok(Node::Mapping(whole, entries))
            } else {
                Err(k)
            },
            Err(o) => Err(o),
        }
    }
}

/// The kind of a lexical token.
#[derive(Debug, Clone, Copy, PartialEq, Eq, Structural)]
pub enum TokenKind {
    String,
    Assignment,
    BracketOpen,
    BracketClose,
    KeySeperator,
    ItemSeperator,
}

/// The kind of the token that a character stands in: each structural
/// character is a token of its own kind, every other character is part of
/// a string token.
pub open spec fn kind_of(c: char) -> TokenKind {
    if c == '=' {
        TokenKind::Assignment
    } else if c == '{' {
        TokenKind::BracketOpen
    } else if c == '}' {
        TokenKind::BracketClose
    } else if c == ':' {
        TokenKind::KeySeperator
    } else if c == ',' {
        TokenKind::ItemSeperator
    } else {
        TokenKind::String
    }
}

impl TokenKind {
    /// The kind of the token that a character stands in.
    pub fn of(c: char) -> (r: TokenKind)
        ensures
            r == kind_of(c),
            (r != TokenKind::String) == is_special(c),
    {
        match c {
            '=' => TokenKind::Assignment,
            '{' => TokenKind::BracketOpen,
            '}' => TokenKind::BracketClose,
            ':' => TokenKind::KeySeperator,
            ',' => TokenKind::ItemSeperator,
            _ => TokenKind::String,
        }
    }
}

/// Decides the kind of a primitive token from what is known of its text.
pub fn scalar_kind(quoted: bool, boolean: bool, integer: bool, float: bool) -> (r: ScalarKind)
    ensures
        r == kind_by(quoted, boolean, integer, float),
{
    if quoted {
        ScalarKind::String
    } else if boolean {
        ScalarKind::Boolean
    } else if integer {
        ScalarKind::Integer
    } else if float {
        ScalarKind::Float
    } else {
        ScalarKind::String
    }
}

/// Whether the character of an indexed character is structural.
pub fn xd(item: &(usize, char)) -> (r: bool)
    ensures
        r == is_special(item.1),
{
    let ch: char = item.1;
    ch == '=' || ch == ',' || ch == '{' || ch == '}' || ch == ':'
}

} // verus!
