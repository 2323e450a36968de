use acf::token::{float_candidates, tokenize_ast, ACF};
use acf::types::{FloatLiteral, Span};
use lexical::format::TOML;

fn slice(input: &str, span: &Span) -> String {
    input.chars().skip(span.start).take(span.end - span.start).collect()
}

fn floats_of(data: &str) -> Vec<FloatLiteral> {
    let options = lexical::ParseFloatOptions::new();
    let mut floats = Vec::new();
    for span in float_candidates(data) {
        let text = slice(data, &span);
        if let Ok(value) = lexical::parse_with_options::<f64, _, TOML>(text.as_str(), &options) {
            floats.push(FloatLiteral { span, bits: value.to_bits() });
        }
    }
    floats
}

fn tokenize(data: &str) -> ACF {
    tokenize_ast(data, &floats_of(data)).unwrap()
}

fn debug_visit_ast(input: &str, acf: &ACF, out: &mut Vec<(char, String)>) {
    match acf {
        ACF::String(range) => {
            out.push(('s', slice(input, range)));
        }
        ACF::Integer(range) => {
            out.push(('i', slice(input, range)));
        }
        ACF::Float(range) => {
            out.push(('f', slice(input, range)));
        }
        ACF::Boolean(range) => {
            out.push(('b', slice(input, range)));
        }
        ACF::Sequence(range, rest) => {
            out.push(('l', slice(input, range)));
            for item in rest.iter() {
                debug_visit_ast(input, item, out);
            }
        }
        ACF::Mapping(range, rest) => {
            out.push(('m', slice(input, range)));
            for (key, item) in rest.entries.iter() {
                out.push(('k', slice(input, key)));
                debug_visit_ast(input, item, out);
            }
        }
    };
}

fn visit(data: &str) -> Vec<(char, String)> {
    let out = tokenize(data);
    let mut strings = Vec::new();
    debug_visit_ast(data, &out, &mut strings);
    strings
}

fn expect(items: Vec<(char, &str)>) -> Vec<(char, String)> {
    items.into_iter().map(|(kind, text)| (kind, text.to_string())).collect()
}

fn tokenize_this_expected() -> Vec<(char, String)> {
    expect(vec![
        (
            'm',
            "config1={value: 1, default: 1_2, yes: true, number: 1.23},config2={DEFAULT: \"testing\"}",
        ),
        ('k', "config1"),
        ('m', "{value: 1, default: 1_2, yes: true, number: 1.23}"),
        ('k', "value"),
        ('i', "1"),
        ('k', "default"),
        ('i', "1_2"),
        ('k', "yes"),
        ('b', "true"),
        ('k', "number"),
        ('f', "1.23"),
        ('k', "config2"),
        ('m', "{DEFAULT: \"testing\"}"),
        ('k', "DEFAULT"),
        ('s', "\"testing\""),
    ])
}

#[test]
fn parser_tokenize_this() {
    let data =
        r#"config1={value: 1, default: 1_2, yes: true, number: 1.23},config2={DEFAULT: "testing"}"#;
    assert_eq!(tokenize_this_expected(), visit(data));
}

#[test]
fn token_tokenize_this() {
    let data =
        r#"config1={value: 1, default: 1_2, yes: true, number: 1.23},config2={DEFAULT: "testing"}"#;
    assert_eq!(tokenize_this_expected(), visit(data));
}

#[test]
fn parser_tokenize_this2() {
    let data = r#"config1=testing"#;
    let expected = expect(vec![('m', "config1=testing"), ('k', "config1"), ('s', "testing")]);
    assert_eq!(expected, visit(data));
}

#[test]
fn token_tokenize_this2() {
    let data = r#"config1=testing"#;
    let expected = expect(vec![('m', "config1=testing"), ('k', "config1"), ('s', "testing")]);
    assert_eq!(expected, visit(data));
}

fn tokenize_this3_expected() -> Vec<(char, String)> {
    expect(vec![
        ('m', "config1={1,2,3,4,5}"),
        ('k', "config1"),
        ('l', "{1,2,3,4,5}"),
        ('i', "1"),
        ('i', "2"),
        ('i', "3"),
        ('i', "4"),
        ('i', "5"),
    ])
}

#[test]
fn parser_tokenize_this3() {
    let data = r#"config1={1,2,3,4,5}"#;
    assert_eq!(tokenize_this3_expected(), visit(data));
}

#[test]
fn token_tokenize_this3() {
    let data = r#"config1={1,2,3,4,5}"#;
    assert_eq!(tokenize_this3_expected(), visit(data));
}

#[test]
fn escaped_text_quote() {
    let data = r#"config1={a: "extra \"quote\""}"#;
    let expected = expect(vec![
        ('m', r#"config1={a: "extra \"quote\""}"#),
        ('k', "config1"),
        ('m', r#"{a: "extra \"quote\""}"#),
        ('k', "a"),
        ('s', r#""extra \"quote\"""#),
    ]);
    assert_eq!(expected, visit(data));
}

#[test]
fn escaped_text_comma() {
    let data = r#"config1={a: "extra, comma"}"#;
    let expected = expect(vec![
        ('m', "config1={a: \"extra, comma\"}"),
        ('k', "config1"),
        ('m', "{a: \"extra, comma\"}"),
        ('k', "a"),
        ('s', "\"extra, comma\""),
    ]);
    assert_eq!(expected, visit(data));
}

#[test]
fn escaped_text_colon() {
    let data = r#"config1={a: "extra: colon"}"#;
    let expected = expect(vec![
        ('m', "config1={a: \"extra: colon\"}"),
        ('k', "config1"),
        ('m', "{a: \"extra: colon\"}"),
        ('k', "a"),
        ('s', "\"extra: colon\""),
    ]);
    assert_eq!(expected, visit(data));
}

#[test]
fn escaped_text_bracket() {
    let data = r#"config1={a: "{bracket}"}"#;
    let expected = expect(vec![
        ('m', "config1={a: \"{bracket}\"}"),
        ('k', "config1"),
        ('m', "{a: \"{bracket}\"}"),
        ('k', "a"),
        ('s', "\"{bracket}\""),
    ]);
    assert_eq!(expected, visit(data));
}

#[test]
fn empty_document_is_an_empty_map() {
    assert_eq!(visit(""), expect(vec![('m', "")]));
    assert_eq!(visit(" \t\r\n"), expect(vec![('m', " \t\r\n")]));
}

#[test]
fn whitespace_is_skipped_between_tokens() {
    let data = " a = { x : 1 , y : { 2 , 3 } } ,\n b = \"q r\" ";
    let expected = expect(vec![
        ('m', data),
        ('k', "a"),
        ('m', "{ x : 1 , y : { 2 , 3 } }"),
        ('k', "x"),
        ('i', "1"),
        ('k', "y"),
        ('l', "{ 2 , 3 }"),
        ('i', "2"),
        ('i', "3"),
        ('k', "b"),
        ('s', "\"q r\""),
    ]);
    assert_eq!(expected, visit(data));
}

#[test]
fn empty_braces_are_an_empty_map() {
    assert_eq!(visit("a={}"), expect(vec![('m', "a={}"), ('k', "a"), ('m', "{}")]));
    assert_eq!(visit("a={ }"), expect(vec![('m', "a={ }"), ('k', "a"), ('m', "{ }")]));
}

#[test]
fn nested_sequences() {
    let expected = expect(vec![
        ('m', "a={{1},{b:2}}"),
        ('k', "a"),
        ('l', "{{1},{b:2}}"),
        ('l', "{1}"),
        ('i', "1"),
        ('m', "{b:2}"),
        ('k', "b"),
        ('i', "2"),
    ]);
    assert_eq!(expected, visit("a={{1},{b:2}}"));
}

#[test]
fn quoted_tokens_are_strings_whatever_they_hold() {
    let expected = expect(vec![
        ('m', "a={\"true\",\"12\",\"1.5\"}"),
        ('k', "a"),
        ('l', "{\"true\",\"12\",\"1.5\"}"),
        ('s', "\"true\""),
        ('s', "\"12\""),
        ('s', "\"1.5\""),
    ]);
    assert_eq!(expected, visit("a={\"true\",\"12\",\"1.5\"}"));
}

#[test]
fn unquoted_tokens_are_typed_by_their_text() {
    let expected = expect(vec![
        ('m', "a={true,false,-7,1e3,truth,1_000}"),
        ('k', "a"),
        ('l', "{true,false,-7,1e3,truth,1_000}"),
        ('b', "true"),
        ('b', "false"),
        ('i', "-7"),
        ('f', "1e3"),
        ('s', "truth"),
        ('i', "1_000"),
    ]);
    assert_eq!(expected, visit("a={true,false,-7,1e3,truth,1_000}"));
}

#[test]
fn without_a_table_a_float_stays_a_string() {
    let tree = tokenize_ast("a=1.5", &Vec::new()).unwrap();
    let mut strings = Vec::new();
    debug_visit_ast("a=1.5", &tree, &mut strings);
    assert_eq!(strings, expect(vec![('m', "a=1.5"), ('k', "a"), ('s', "1.5")]));
    assert_eq!(float_candidates("a=1.5"), vec![Span { start: 2, end: 5 }]);
    assert_eq!(float_candidates("a={x: \"1.5\", y: 2, z: w}"), vec![Span { start: 22, end: 23 }]);
    assert_eq!(float_candidates("a={"), Vec::<Span>::new());
}

fn offset_of(data: &str) -> usize {
    tokenize_ast(data, &Vec::new()).unwrap_err().offset()
}

#[test]
fn mixed_bodies_do_not_parse() {
    assert_eq!(offset_of("a={b: 1, 2}"), 10);
    assert_eq!(offset_of("a={1, b: 2}"), 7);
}

#[test]
fn errors_carry_the_offset() {
    assert_eq!(offset_of("a"), 1);
    assert_eq!(offset_of("a="), 2);
    assert_eq!(offset_of("a=1,"), 4);
    assert_eq!(offset_of("a=1 b"), 4);
    assert_eq!(offset_of("a={1"), 4);
    assert_eq!(offset_of("a=\"open"), 7);
    assert_eq!(offset_of("a=\"bad \\x\""), 8);
    assert_eq!(offset_of("=1"), 0);
    assert_eq!(offset_of("a={b: }"), 6);
    assert_eq!(offset_of("a=}"), 2);
}

#[test]
fn spans_count_characters() {
    let data = "é=ü";
    assert_eq!(visit(data), expect(vec![('m', "é=ü"), ('k', "é"), ('s', "ü")]));
    let tree = tokenize(data);
    assert_eq!(*tree.as_range(), Span { start: 0, end: 3 });
    assert_eq!(tree.into_range(), Span { start: 0, end: 3 });
}
