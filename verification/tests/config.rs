use acf::token::{float_candidates, tokenize_ast};
use acf::types::{FloatLiteral, IndexMapWrapper, Span};
use acf::{parse_document, tokenized_to_config, ACF};
use lexical::format::TOML;

fn slice(input: &str, span: &Span) -> String {
    input.chars().skip(span.start).take(span.end - span.start).collect()
}

fn floats_of(data: &str) -> Vec<FloatLiteral> {
    let options = lexical::ParseFloatOptions::new();
    let mut floats = Vec::new();
    for span in float_candidates(data) {
        let text = slice(data, &span);
        if let Ok(value) = lexical::parse_with_options::<f64, _, TOML>(text.as_str(), &options) {
            floats.push(FloatLiteral { span, bits: value.to_bits() });
        }
    }
    floats
}

fn acf_map(entries: Vec<(&str, ACF)>) -> ACF {
    let mut map = IndexMapWrapper::new();
    for (key, value) in entries {
        map.insert(key.to_string(), value);
    }
    ACF::Mapping(map)
}

fn acf_seq(items: Vec<ACF>) -> ACF {
    ACF::Sequence(items)
}

fn text(value: &str) -> ACF {
    ACF::String(value.to_string())
}

fn float(value: f64) -> ACF {
    ACF::Float(value.to_bits())
}

fn sample() -> ACF {
    acf_map(vec![
        (
            "config1",
            acf_map(vec![
                ("value", ACF::Integer(1)),
                ("default", ACF::Integer(12)),
                ("yes", ACF::Boolean(true)),
            ]),
        ),
        (
            "config2",
            acf_map(vec![("DEFAULT", text("testing")), ("extra", text("extra 'quotes'"))]),
        ),
        ("config3", acf_seq(vec![ACF::Boolean(false), ACF::Integer(123), float(1.23)])),
    ])
}

#[test]
fn parse_config() {
    let data = r#"
    config1={value: 1, default: 12, yes: true},
    config2={DEFAULT: "testing", extra: "extra \'quotes\'"},
    config3={false, 123, 1.23}
    "#;
    let floats = floats_of(data);
    let tokens = tokenize_ast(data, &floats).unwrap();

    let out = tokenized_to_config(data, tokens, &floats);

    let expected = sample();

    assert_eq!(out, expected);
}

#[test]
fn acf_key_index_bounds() {
    let data = acf_seq(vec![ACF::Integer(1), ACF::Integer(2)]);

    assert!(data.get_index(isize::MAX).is_none());
    assert!(data.get_index(isize::MIN).is_none());
    assert!(data.get_index(0).is_some());
    assert!(data.get_index(1).is_some());
    assert!(data.get_index(-1).is_some());
    assert!(data.get_index(-2).is_some());
}

#[test]
fn acf_json_pointer() {
    let config = sample();

    assert_eq!(&ACF::Boolean(true), config.json_pointer("/config1/yes").unwrap());
    assert_eq!(&ACF::Integer(12), config.json_pointer("/config1/default").unwrap());
    assert_eq!(&text("testing"), config.json_pointer("/config2/DEFAULT").unwrap());
    assert_eq!(&ACF::Boolean(false), config.json_pointer("/config3/0").unwrap());
    assert_eq!(&float(1.23), config.json_pointer("/config3/2").unwrap());
}

#[test]
fn document_scenario_on_one_line() {
    let data = r#"config1={value: 1, default: 12, yes: true},config2={DEFAULT: "testing", extra: "extra \'quotes\'"},config3={false, 123, 1.23}"#;
    let tree = parse_document(data, &floats_of(data)).unwrap();
    assert_eq!(tree, sample());
    assert_eq!(tree.json_pointer("/config1/yes"), Some(&ACF::Boolean(true)));
    assert_eq!(tree.json_pointer("/config3/2"), Some(&float(1.23)));
}

#[test]
fn empty_text_is_an_empty_map() {
    assert_eq!(parse_document("", &Vec::new()).unwrap(), ACF::Mapping(IndexMapWrapper::new()));
}

#[test]
fn map_and_sequence_bodies() {
    let tree = parse_document("m={a: 1, b: 2},s={1, 2, 3}", &Vec::new()).unwrap();
    assert_eq!(
        tree,
        acf_map(vec![
            ("m", acf_map(vec![("a", ACF::Integer(1)), ("b", ACF::Integer(2))])),
            ("s", acf_seq(vec![ACF::Integer(1), ACF::Integer(2), ACF::Integer(3)])),
        ])
    );
    assert!(parse_document("m={a: 1, 2}", &Vec::new()).is_err());
    assert!(parse_document("m={1, b: 2}", &Vec::new()).is_err());
}

#[test]
fn typing_of_primitives() {
    let data = "a=true,b=false,c=-12,d=1_000,e=2.5,f=word,g=\"true\",h=\"7\"";
    let tree = parse_document(data, &floats_of(data)).unwrap();
    assert_eq!(
        tree,
        acf_map(vec![
            ("a", ACF::Boolean(true)),
            ("b", ACF::Boolean(false)),
            ("c", ACF::Integer(-12)),
            ("d", ACF::Integer(1000)),
            ("e", float(2.5)),
            ("f", text("word")),
            ("g", text("true")),
            ("h", text("7")),
        ])
    );
}

#[test]
fn strings_are_unescaped() {
    let data = "a=\"line\\nbreak\",b=\"tab\\there\",c=\"q\\\"q\",d=\"back\\\\slash\"";
    let tree = parse_document(data, &Vec::new()).unwrap();
    assert_eq!(
        tree,
        acf_map(vec![
            ("a", text("line\nbreak")),
            ("b", text("tab\there")),
            ("c", text("q\"q")),
            ("d", text("back\\slash")),
        ])
    );
}

#[test]
fn a_string_that_cannot_be_unescaped_is_empty() {
    let tree = parse_document("a=\"one\\/two\"", &Vec::new()).unwrap();
    assert_eq!(tree, acf_map(vec![("a", text(""))]));
}

#[test]
fn keys_are_unescaped_and_a_repeated_key_keeps_its_place() {
    let tree = parse_document("\"a b\"=1,c=2,\"a b\"=3", &Vec::new()).unwrap();
    assert_eq!(tree, acf_map(vec![("a b", ACF::Integer(3)), ("c", ACF::Integer(2))]));
    match &tree {
        ACF::Mapping(map) => {
            assert_eq!(map.len(), 2);
            assert_eq!(map.position("a b"), 0);
            assert_eq!(map.position("c"), 1);
            assert_eq!(map.position("d"), 2);
        }
        _ => panic!("a document is a map"),
    }
}

#[test]
fn get_is_for_maps_and_get_index_for_sequences() {
    let tree = sample();
    assert_eq!(tree.get("config3").unwrap().get_index(1), Some(&ACF::Integer(123)));
    assert_eq!(tree.get("missing"), None);
    assert_eq!(tree.get_index(0), None);
    assert_eq!(tree.get("config3").unwrap().get("0"), None);
    assert_eq!(ACF::Integer(1).get("a"), None);
    assert_eq!(ACF::Integer(1).get_index(0), None);
}

#[test]
fn negative_indices_count_from_the_back() {
    let data = acf_seq(vec![ACF::Integer(10), ACF::Integer(20), ACF::Integer(30)]);
    assert_eq!(data.get_index(-1), data.get_index(2));
    assert_eq!(data.get_index(-1), Some(&ACF::Integer(30)));
    assert_eq!(data.get_index(-3), data.get_index(0));
    assert_eq!(data.get_index(-3), Some(&ACF::Integer(10)));
    assert_eq!(data.get_index(-4), None);
    assert_eq!(data.get_index(3), None);
    assert_eq!(acf_seq(vec![]).get_index(-1), None);
    assert_eq!(acf_seq(vec![]).get_index(0), None);
}

#[test]
fn ordered_map_insert_and_get() {
    let mut map: IndexMapWrapper<String, i64> = IndexMapWrapper::new();
    assert_eq!(map.len(), 0);
    map.insert("b".to_string(), 1);
    map.insert("a".to_string(), 2);
    map.insert("b".to_string(), 3);
    assert_eq!(map.len(), 2);
    assert_eq!(map.get("b"), Some(&3));
    assert_eq!(map.get("a"), Some(&2));
    assert_eq!(map.get("c"), None);
    assert_eq!(map.entries, vec![("b".to_string(), 3), ("a".to_string(), 2)]);
}

#[test]
fn maps_are_equal_whatever_their_order() {
    let one = acf_map(vec![("a", ACF::Integer(1)), ("b", acf_seq(vec![text("x")]))]);
    let other = acf_map(vec![("b", acf_seq(vec![text("x")])), ("a", ACF::Integer(1))]);
    assert_eq!(one, other);
    assert!(one.same(&other));
    assert_ne!(one, acf_map(vec![("a", ACF::Integer(1))]));
    assert_ne!(one, acf_map(vec![("a", ACF::Integer(1)), ("b", acf_seq(vec![text("y")]))]));
    assert_ne!(one, acf_map(vec![("a", ACF::Integer(1)), ("c", acf_seq(vec![text("x")]))]));
    assert_ne!(
        acf_seq(vec![ACF::Integer(1), ACF::Integer(2)]),
        acf_seq(vec![ACF::Integer(2), ACF::Integer(1)])
    );
    assert_ne!(ACF::Integer(1), ACF::Boolean(true));
    assert_ne!(text("1"), ACF::Integer(1));
}

#[test]
fn floats_are_equal_as_ordered_floats() {
    assert_eq!(float(1.5), float(1.5));
    assert_ne!(float(1.5), float(2.5));
    assert_eq!(float(0.0), float(-0.0));
    assert_eq!(float(f64::NAN), float(-f64::NAN));
    assert_eq!(float(f64::NAN), ACF::Float(0x7ff0_0000_0000_0001));
    assert_ne!(float(f64::NAN), float(f64::INFINITY));
    assert_ne!(float(f64::INFINITY), float(f64::NEG_INFINITY));
    assert_eq!(float(f64::INFINITY), float(f64::INFINITY));
    assert_ne!(float(1.0), float(-1.0));
}

#[test]
fn values_from_plain_values() {
    assert_eq!(ACF::from(true), ACF::Boolean(true));
    assert_eq!(ACF::from(12i64), ACF::Integer(12));
    assert_eq!(ACF::from("testing".to_string()), text("testing"));
    assert_eq!(ACF::from(vec![ACF::from(1i64)]), acf_seq(vec![ACF::Integer(1)]));
    let mut map = IndexMapWrapper::new();
    map.insert("k".to_string(), ACF::Boolean(false));
    assert_eq!(ACF::from(map), acf_map(vec![("k", ACF::Boolean(false))]));
}

#[test]
fn extreme_indices_reach_nothing() {
    let data = acf_seq(vec![ACF::Integer(1), ACF::Integer(2)]);
    assert_eq!(data.get_index(isize::MAX), None);
    assert_eq!(data.get_index(isize::MIN), None);
    assert_eq!(data.get_index(isize::MIN + 1), None);
    assert_eq!(data.get_index(-2), Some(&ACF::Integer(1)));
    assert_eq!(data.get_index(-3), None);
}

#[test]
fn nested_documents() {
    let data = "outer={inner: {deep: {1, {x: y}}}, list: {{}, {a}}}";
    let tree = parse_document(data, &floats_of(data)).unwrap();
    assert_eq!(
        tree,
        acf_map(vec![(
            "outer",
            acf_map(vec![
                (
                    "inner",
                    acf_map(vec![(
                        "deep",
                        acf_seq(vec![ACF::Integer(1), acf_map(vec![("x", text("y"))])])
                    )])
                ),
                ("list", acf_seq(vec![acf_map(vec![]), acf_seq(vec![text("a")])])),
            ])
        )])
    );
    assert_eq!(tree.json_pointer("/outer/inner/deep/1/x"), Some(&text("y")));
}

#[test]
fn hand_built_span_trees_are_checked() {
    let text = "yes 12 no";
    let none = Vec::new();
    let span = |start, end| Span { start, end };
    let good = acf::token::ACF::Sequence(
        span(0, 9),
        vec![
            acf::token::ACF::String(span(0, 3)),
            acf::token::ACF::Integer(span(4, 6)),
            acf::token::ACF::String(span(7, 9)),
        ],
    );
    assert_eq!(
        acf::checked_to_config(text, good, &none),
        Some(acf_seq(vec![ACF::from("yes".to_string()), ACF::Integer(12), text_of("no")]))
    );
    let not_a_number = acf::token::ACF::Integer(span(0, 3));
    assert_eq!(acf::checked_to_config(text, not_a_number, &none), None);
    let not_a_boolean = acf::token::ACF::Boolean(span(0, 3));
    assert_eq!(acf::checked_to_config(text, not_a_boolean, &none), None);
    let outside = acf::token::ACF::String(span(7, 10));
    assert_eq!(acf::checked_to_config(text, outside, &none), None);
    let backwards = acf::token::ACF::String(span(3, 2));
    assert_eq!(acf::checked_to_config(text, backwards, &none), None);
    let no_float = acf::token::ACF::Float(span(4, 6));
    assert_eq!(acf::checked_to_config(text, no_float, &none), None);
    let table = vec![FloatLiteral { span: span(4, 6), bits: 12.0f64.to_bits() }];
    let a_float = acf::token::ACF::Float(span(4, 6));
    assert_eq!(acf::checked_to_config(text, a_float, &table), Some(float(12.0)));
    let mut keyed = IndexMapWrapper::new();
    keyed.append(span(0, 3), acf::token::ACF::Integer(span(4, 6)));
    keyed.append(span(7, 12), acf::token::ACF::Integer(span(4, 6)));
    assert_eq!(acf::checked_to_config(text, acf::token::ACF::Mapping(span(0, 9), keyed), &none), None);
}

fn text_of(value: &str) -> ACF {
    ACF::String(value.to_string())
}

#[test]
fn large_and_deep_documents() {
    let mut data = String::new();
    for i in 0..2000 {
        if i > 0 {
            data.push_str(", ");
        }
        data.push_str(&format!("k{} = {}.5", i, i));
    }
    let tree = parse_document(&data, &floats_of(&data)).unwrap();
    assert_eq!(tree.get("k1999"), Some(&float(1999.5)));
    assert_eq!(tree.json_pointer("/k0"), Some(&float(0.5)));

    let depth = 300;
    let deep = format!("a={}1{}", "{".repeat(depth), "}".repeat(depth));
    let tree = parse_document(&deep, &Vec::new()).unwrap();
    let path: Vec<acf::KeyIndexRef> = std::iter::once(acf::KeyIndexRef::String("a".to_string()))
        .chain((0..depth).map(|_| acf::KeyIndexRef::Integer(0)))
        .collect();
    assert_eq!(tree.selector(&path), Some(&ACF::Integer(1)));
}
