use acf::escape::{unescape, unescaped_or_empty};
use acf::grammar::{scalar_kind, xd, ScalarKind, TokenKind};
use acf::to_boolean;
use acf::number::{parse_integer, NumberError};
use acf::text::{characters, slice_string, string_of};
use acf::types::Span;

#[test]
fn structural_characters() {
    for ch in ['=', ',', '{', '}', ':'] {
        assert!(xd(&(0, ch)));
    }
    for ch in ['a', ' ', '"', '\\', '/', '~', '[', ';'] {
        assert!(!xd(&(3, ch)));
    }
    assert_ne!(TokenKind::Assignment, TokenKind::KeySeperator);
}

#[test]
fn boolean_literals() {
    assert!(to_boolean("true"));
    assert!(!to_boolean("false"));
}

#[test]
fn integer_literals() {
    assert_eq!(parse_integer("12"), Ok(12));
    assert_eq!(parse_integer("-12"), Ok(-12));
    assert_eq!(parse_integer("1_2"), Ok(12));
    assert_eq!(parse_integer("9223372036854775807"), Ok(i64::MAX));
    assert_eq!(parse_integer("9223372036854775808"), Err(NumberError));
    assert_eq!(parse_integer("1.5"), Err(NumberError));
    assert_eq!(parse_integer("twelve"), Err(NumberError));
}

#[test]
fn unescaping() {
    assert_eq!(unescape("plain"), "plain");
    assert_eq!(unescape("\"a\\tb\""), "a\tb");
    assert_eq!(unescape("\"extra \\'quotes\\'\""), "extra 'quotes'");
    assert_eq!(unescape("\"bad \\x\""), "");
    assert_eq!(unescaped_or_empty(Some("kept".to_string())), "kept");
    assert_eq!(unescaped_or_empty(None), "");
}

#[test]
fn characters_of_a_text() {
    assert_eq!(characters("aé€"), vec!['a', 'é', '€']);
    assert_eq!(characters(""), Vec::<char>::new());
}

#[test]
fn strings_of_characters() {
    let chars = characters("héllo wörld");
    assert_eq!(string_of(&chars), "héllo wörld");
    assert_eq!(slice_string(&chars, Span { start: 1, end: 5 }), "éllo");
    assert_eq!(slice_string(&chars, Span { start: 3, end: 3 }), "");
}

#[test]
fn token_kinds() {
    assert_eq!(TokenKind::of('='), TokenKind::Assignment);
    assert_eq!(TokenKind::of('{'), TokenKind::BracketOpen);
    assert_eq!(TokenKind::of('}'), TokenKind::BracketClose);
    assert_eq!(TokenKind::of(':'), TokenKind::KeySeperator);
    assert_eq!(TokenKind::of(','), TokenKind::ItemSeperator);
    assert_eq!(TokenKind::of('a'), TokenKind::String);
    assert_eq!(TokenKind::of(' '), TokenKind::String);
}

#[test]
fn kinds_of_scalars() {
    assert_eq!(scalar_kind(true, true, true, true), ScalarKind::String);
    assert_eq!(scalar_kind(false, true, true, true), ScalarKind::Boolean);
    assert_eq!(scalar_kind(false, false, true, true), ScalarKind::Integer);
    assert_eq!(scalar_kind(false, false, false, true), ScalarKind::Float);
    assert_eq!(scalar_kind(false, false, false, false), ScalarKind::String);
}
