use acf::selector::{parse_index, parse_json_pointer, selector, KeyIndexRef};
use acf::types::IndexMapWrapper;
use acf::ACF;

fn acf_map(entries: Vec<(&str, ACF)>) -> ACF {
    let mut map = IndexMapWrapper::new();
    for (key, value) in entries {
        map.insert(key.to_string(), value);
    }
    ACF::Mapping(map)
}

fn acf_seq(items: Vec<ACF>) -> ACF {
    ACF::Sequence(items)
}

fn text(value: &str) -> ACF {
    ACF::String(value.to_string())
}

fn float(value: f64) -> ACF {
    ACF::Float(value.to_bits())
}

fn key(value: &str) -> KeyIndexRef {
    KeyIndexRef::String(value.to_string())
}

fn index(value: isize) -> KeyIndexRef {
    KeyIndexRef::Integer(value)
}

fn sample() -> ACF {
    acf_map(vec![
        (
            "config1",
            acf_map(vec![
                ("value", ACF::Integer(1)),
                ("default", ACF::Integer(12)),
                ("yes", ACF::Boolean(true)),
            ]),
        ),
        (
            "config2",
            acf_map(vec![("DEFAULT", text("testing")), ("extra", text("extra 'quotes'"))]),
        ),
        ("config3", acf_seq(vec![ACF::Boolean(false), ACF::Integer(123), float(1.23)])),
    ])
}

#[test]
fn selector_test() {
    let config = sample();

    assert_eq!(&ACF::Boolean(true), selector(&config, &[key("config1"), key("yes")]).unwrap());
    assert_eq!(&ACF::Integer(12), selector(&config, &[key("config1"), key("default")]).unwrap());
    assert_eq!(&text("testing"), selector(&config, &[key("config2"), key("DEFAULT")]).unwrap());
    assert_eq!(&ACF::Boolean(false), selector(&config, &[key("config3"), index(0)]).unwrap());
    assert_eq!(&float(1.23), selector(&config, &[key("config3"), index(-1)]).unwrap());
}

#[test]
fn selector_with_json_pointer_test() {
    let config = sample();

    let path: Vec<_> = parse_json_pointer("/config1/yes").unwrap();
    assert_eq!(&ACF::Boolean(true), selector(&config, &path).unwrap());
    let path: Vec<_> = parse_json_pointer("/config1/default").unwrap();
    assert_eq!(&ACF::Integer(12), selector(&config, &path).unwrap());
    let path: Vec<_> = parse_json_pointer("/config2/DEFAULT").unwrap();
    assert_eq!(&text("testing"), selector(&config, &path).unwrap());
    let path: Vec<_> = parse_json_pointer("/config3/0").unwrap();
    assert_eq!(&ACF::Boolean(false), selector(&config, &path).unwrap());
    let path: Vec<_> = parse_json_pointer("/config3/2").unwrap();
    assert_eq!(&float(1.23), selector(&config, &path).unwrap());

    // a JSON Pointer has no negative indices
    let path: Vec<_> = parse_json_pointer("/config3/-1").unwrap();
    assert!(selector(&config, &path).is_none());
}

#[test]
fn parse_json_pointer_test() {
    let expected: Vec<KeyIndexRef> = vec![
        key("a"),
        key("b"),
        key("c"),
        key("d"),
        key("e"),
        key("f"),
        key("g"),
        index(0),
    ];

    let out: Vec<_> = parse_json_pointer("/a/b/c/d/e/f/g/0").unwrap();

    assert_eq!(expected, out);
}

#[test]
fn parse_json_pointer_empty_test() {
    let expected: Vec<KeyIndexRef> = Vec::new();

    let out: Vec<_> = parse_json_pointer("").unwrap();

    assert_eq!(expected, out);
}

#[test]
fn parse_json_pointer_invalid_test() {
    let out: Option<Vec<_>> = parse_json_pointer("abcdefg");
    assert!(out.is_none());
}

#[test]
fn pointer_and_native_path_agree() {
    let config = sample();
    assert_eq!(
        config.json_pointer("/config3/0"),
        config.selector(&[key("config3"), index(0)])
    );
    assert_eq!(config.json_pointer(""), Some(&config));
    assert_eq!(config.selector(&[]), Some(&config));
    assert_eq!(config.json_pointer("config3"), None);
    assert_eq!(config.json_pointer("/config3/3"), None);
    assert_eq!(config.json_pointer("/config1/yes/deeper"), None);
}

#[test]
fn pointer_has_no_negative_index() {
    let config = sample();
    assert_eq!(config.json_pointer("/config3/-1"), None);
    assert_eq!(config.selector(&[key("config3"), index(-1)]), Some(&float(1.23)));
    assert_eq!(parse_json_pointer("/-1").unwrap(), vec![key("-1")]);
}

#[test]
fn pointer_segments_are_unescaped() {
    let config = acf_map(vec![
        ("a/b", ACF::Integer(1)),
        ("m~n", ACF::Integer(2)),
        ("~1", ACF::Integer(3)),
        ("", ACF::Integer(4)),
    ]);
    assert_eq!(config.json_pointer("/a~1b"), Some(&ACF::Integer(1)));
    assert_eq!(config.json_pointer("/m~0n"), Some(&ACF::Integer(2)));
    assert_eq!(config.json_pointer("/~01"), Some(&ACF::Integer(3)));
    assert_eq!(config.json_pointer("/"), Some(&ACF::Integer(4)));
    assert_eq!(parse_json_pointer("/a~1b/~0/x~").unwrap(), vec![key("a/b"), key("~"), key("x~")]);
    assert_eq!(parse_json_pointer("/a/").unwrap(), vec![key("a"), key("")]);
}

#[test]
fn index_segments() {
    let chars = |s: &str| s.chars().collect::<Vec<char>>();
    assert_eq!(parse_index(&chars("0")), Some(0));
    assert_eq!(parse_index(&chars("42")), Some(42));
    assert_eq!(parse_index(&chars("007")), Some(7));
    assert_eq!(parse_index(&chars("+5")), Some(5));
    assert_eq!(parse_index(&chars("-0")), Some(0));
    assert_eq!(parse_index(&chars("-1")), None);
    assert_eq!(parse_index(&chars("")), None);
    assert_eq!(parse_index(&chars("+")), None);
    assert_eq!(parse_index(&chars("-")), None);
    assert_eq!(parse_index(&chars("1a")), None);
    assert_eq!(parse_index(&chars("1 ")), None);
    assert_eq!(parse_index(&chars(&isize::MAX.to_string())), Some(isize::MAX));
    assert_eq!(parse_index(&chars("9223372036854775808")), None);
    assert_eq!(parse_index(&chars("99999999999999999999999999")), None);
    for text in ["0", "42", "007", "+5", "-0", "-1", "", "+", "-", "1a", "9223372036854775808"] {
        let std_says = text.parse::<isize>().ok().filter(|value| *value >= 0);
        assert_eq!(parse_index(&chars(text)), std_says);
    }
}

#[test]
fn steps_from_plain_values() {
    assert_eq!(KeyIndexRef::from("a".to_string()), key("a"));
    assert_eq!(KeyIndexRef::from(-3isize), index(-3));
}
