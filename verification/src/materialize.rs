//! The materializer: from a text and its span tree to the value tree.
use crate::escape::{unescape, unescaped};
use crate::grammar::{classify, false_text, spec_document, true_text};
use crate::number::{lexical_integer, parse_integer};
use crate::text::{characters, slice_string};
use crate::token;
use crate::soundness::well_formed;
use crate::token::{
    entry_views, is_boolean, item_views, lemma_entry_views, lemma_item_views, tokenize_ast, Node,
    ParseError,
};
use crate::types::{
    distinct_keys, find_float, first_index, float_at, inserted, lemma_first_index,
    lemma_lookup_inserted, FloatLiteral, IndexMapWrapper, Span,
};
use crate::{lemma_pair_views, lemma_same_keys, pair_views, value_views, Value, ACF};
use vstd::prelude::*;

verus! {

/// What a span tree needs for its values to be read off a text: the span
/// of each scalar and of each key lies inside the text, a boolean's text
/// is `true` or `false`, an integer's text is an integer literal, and a
/// float's span is in the table of float literals.
pub open spec fn readable(s: Seq<char>, node: Node, floats: Seq<FloatLiteral>) -> bool
    decreases node,
{
    match node {
        Node::String(span) => span.within(s.len()),
        Node::Boolean(span) => span.within(s.len()) && (span.of(s) == true_text() || span.of(s)
            == false_text()),
        Node::Integer(span) => span.within(s.len()) && lexical_integer(span.of(s)) is Some,
        Node::Float(span) => float_at(floats, span) is Some,
        Node::Sequence(_, items) => forall|i: int|
            0 <= i < items.len() ==> readable(s, #[trigger] items[i], floats),
        Node::Mapping(_, entries) => forall|i: int|
            0 <= i < entries.len() ==> (#[trigger] entries[i]).0.within(s.len()) && readable(
                s,
                entries[i].1,
                floats,
            ),
    }
}

/// A well-formed tree is readable.
pub proof fn lemma_well_formed_is_readable(s: Seq<char>, node: Node, floats: Seq<FloatLiteral>)
    requires
        well_formed(s, node, floats),
    ensures
        readable(s, node, floats),
    decreases node,
{
    match node {
        Node::Sequence(_, items) => {
            assert forall|i: int| 0 <= i < items.len() implies readable(
                s,
                #[trigger] items[i],
                floats,
            ) by {
                lemma_well_formed_is_readable(s, items[i], floats);
            }
        },
        Node::Mapping(_, entries) => {
            assert forall|i: int| 0 <= i < entries.len() implies (#[trigger] entries[i]).0.within(
                s.len(),
            ) && readable(s, entries[i].1, floats) by {
                lemma_well_formed_is_readable(s, entries[i].1, floats);
            }
        },
        _ => {},
    }
}

/// The truth value that a boolean literal denotes.
pub fn to_boolean(input: &str) -> (r: bool)
    requires
        input@ == true_text() || input@ == false_text(),
    ensures
        r == (input@ == true_text()),
{
    input.get_char(0) == 't'
}

/// The typed value that a span tree stands for over its text: a boolean is
/// whether its text is `true`, an integer is what its text parses to, a
/// float has the bits that the table gives for its span, a string is its
/// unescaped text, a sequence or map has the values of its children in
/// their order; a map's keys are the unescaped texts of the children's
/// keys, and a key that comes again replaces the value in its first place.
pub open spec fn materialize(s: Seq<char>, node: Node, floats: Seq<FloatLiteral>) -> Value
    decreases node,
{
    match node {
        Node::String(span) => Value::String(unescaped(span.of(s))),
        Node::Integer(span) => Value::Integer(lexical_integer(span.of(s))->Some_0),
        Node::Float(span) => Value::Float(float_at(floats, span)->Some_0),
        Node::Boolean(span) => Value::Boolean(span.of(s) == true_text()),
        Node::Sequence(_, items) => Value::Sequence(materialize_items(s, items, floats)),
        Node::Mapping(_, entries) => Value::Mapping(materialize_entries(s, entries, floats)),
    }
}

/// The values of a list of nodes.
pub open spec fn materialize_items(s: Seq<char>, items: Seq<Node>, floats: Seq<FloatLiteral>) -> Seq<
    Value,
>
    decreases items,
{
    if items.len() == 0 {
        Seq::empty()
    } else {
        materialize_items(s, items.drop_last(), floats).push(materialize(s, items.last(), floats))
    }
}

/// The entries of the map that a list of keyed nodes fills, one insertion
/// after the other.
pub open spec fn materialize_entries(
    s: Seq<char>,
    entries: Seq<(Span, Node)>,
    floats: Seq<FloatLiteral>,
) -> Seq<(Seq<char>, Value)>
    decreases entries,
{
    if entries.len() == 0 {
        Seq::empty()
    } else {
        inserted(
            materialize_entries(s, entries.drop_last(), floats),
            unescaped(entries.last().0.of(s)),
            materialize(s, entries.last().1, floats),
        )
    }
}

/// The values of a list of nodes, one by one.
pub proof fn lemma_materialize_items(s: Seq<char>, items: Seq<Node>, floats: Seq<FloatLiteral>)
    ensures
        materialize_items(s, items, floats).len() == items.len(),
        forall|i: int|
            0 <= i < items.len() ==> (#[trigger] materialize_items(s, items, floats)[i])
                == materialize(s, items[i], floats),
    decreases items.len(),
{
    if items.len() > 0 {
        lemma_materialize_items(s, items.drop_last(), floats);
        assert(materialize_items(s, items, floats) == materialize_items(
            s,
            items.drop_last(),
            floats,
        ).push(materialize(s, items.last(), floats)));
    } else {
        assert(materialize_items(s, items, floats) == Seq::<Value>::empty());
    }
}

/// No map of a materialized value has a key twice: a key that comes again
/// in the text takes the place of the first.
pub proof fn lemma_materialize_distinct(s: Seq<char>, node: Node, floats: Seq<FloatLiteral>)
    ensures
        materialize(s, node, floats).distinct(),
    decreases node, 1int,
{
    match node {
        Node::Sequence(_, items) => {
            lemma_materialize_items(s, items, floats);
            assert forall|i: int| 0 <= i < items.len() implies (#[trigger] materialize_items(
                s,
                items,
                floats,
            )[i]).distinct() by {
                lemma_materialize_distinct(s, items[i], floats);
            }
        },
        Node::Mapping(_, entries) => {
            lemma_materialize_entries_distinct(s, entries, floats);
        },
        _ => {},
    }
}

proof fn lemma_materialize_entries_distinct(
    s: Seq<char>,
    entries: Seq<(Span, Node)>,
    floats: Seq<FloatLiteral>,
)
    ensures
        distinct_keys(materialize_entries(s, entries, floats)),
        forall|i: int|
            0 <= i < materialize_entries(s, entries, floats).len() ==> (
            #[trigger] materialize_entries(s, entries, floats)[i]).1.distinct(),
    decreases entries, 0int,
{
    if entries.len() > 0 {
        let before = materialize_entries(s, entries.drop_last(), floats);
        let key = unescaped(entries.last().0.of(s));
        let value = materialize(s, entries.last().1, floats);
        lemma_materialize_entries_distinct(s, entries.drop_last(), floats);
        lemma_materialize_distinct(s, entries.last().1, floats);
        lemma_lookup_inserted(before, key, value, key);
        lemma_first_index(before, key);
        let after = inserted(before, key, value);
        assert(after == materialize_entries(s, entries, floats));
        assert forall|i: int| 0 <= i < after.len() implies (#[trigger] after[i]).1.distinct() by {
            if after[i] != (key, value) {
                assert(after[i] == before[i]);
            }
        }
    } else {
        assert(materialize_entries(s, entries, floats) == Seq::<(Seq<char>, Value)>::empty());
    }
}

proof fn lemma_insert_views(
    before: IndexMapWrapper<String, ACF>,
    after: IndexMapWrapper<String, ACF>,
    key: Seq<char>,
    value: ACF,
)
    requires
        after@ == inserted(before@, key, value),
    ensures
        pair_views(after.entries@) == inserted(pair_views(before.entries@), key, value@),
{
    lemma_pair_views(before.entries@);
    lemma_pair_views(after.entries@);
    lemma_same_keys(before@, pair_views(before.entries@), key);
    lemma_first_index(before@, key);
    let i = first_index(before@, key);
    let want = inserted(pair_views(before.entries@), key, value@);
    assert(after@.len() == after.entries@.len());
    assert(before@.len() == before.entries@.len());
    assert forall|k: int| 0 <= k < after.entries@.len() implies pair_views(after.entries@)[k]
        == want[k] by {
        assert(after@[k] == (after.entries@[k].0@, after.entries@[k].1));
        if k < before.entries@.len() {
            assert(before@[k] == (before.entries@[k].0@, before.entries@[k].1));
        }
    }
    assert(pair_views(after.entries@) =~= want);
}

fn materialize_node(input: &Vec<char>, tokens: &token::ACF, floats: &Vec<FloatLiteral>) -> (r:
    ACF)
    requires
        readable(input@, tokens@, floats@),
    ensures
        r@ == materialize(input@, tokens@, floats@),
    decreases tokens,
{
    match tokens {
        token::ACF::Boolean(range) => ACF::Boolean(
            to_boolean(slice_string(input, *range).as_str()),
        ),
        token::ACF::Integer(range) => {
            match parse_integer(slice_string(input, *range).as_str()) {
                Ok(value) => ACF::Integer(value),
                Err(_) => vstd::pervasive::unreached(),
            }
        },
        token::ACF::Float(range) => {
            match find_float(floats, *range) {
                Some(bits) => ACF::Float(bits),
                None => vstd::pervasive::unreached(),
            }
        },
        token::ACF::String(range) => ACF::String(
            unescape(slice_string(input, *range).as_str()),
        ),
        token::ACF::Sequence(_, values) => {
            let mut out: Vec<ACF> = Vec::new();
            let mut i: usize = 0;
            proof {
                lemma_item_views(values@);
                assert(item_views(values@).take(0) =~= Seq::<Node>::empty());
                assert(value_views(out@) =~= Seq::<Value>::empty());
            }
            while i < values.len()
                invariant
                    i <= values.len(),
                    readable(input@, tokens@, floats@),
                    tokens@ is Sequence,
                    tokens@->Sequence_1 == item_views(values@),
                    item_views(values@).len() == values@.len(),
                    forall|k: int|
                        0 <= k < values@.len() ==> (#[trigger] item_views(values@)[k])
                            == values@[k]@,
                    forall|k: int| 0 <= k < values@.len() ==> decreases_to!(tokens => values@[k]),
                    value_views(out@) == materialize_items(
                        input@,
                        item_views(values@).take(i as int),
                        floats@,
                    ),
                decreases values.len() - i,
            {
                let ghost views = item_views(values@);
                assert(readable(input@, views[i as int], floats@));
                let value = materialize_node(input, &values[i], floats);
                proof {
                    assert(views.take(i + 1).drop_last() =~= views.take(i as int));
                    assert(views.take(i + 1).last() == views[i as int]);
                    assert(out@.push(value).drop_last() =~= out@);
                }
                out.push(value);
                i += 1;
            }
            assert(item_views(values@).take(i as int) =~= item_views(values@));
            ACF::Sequence(out)
        },
        token::ACF::Mapping(_, map_values) => {
            let mut out: IndexMapWrapper<String, ACF> = IndexMapWrapper::new();
            let mut i: usize = 0;
            proof {
                lemma_entry_views(map_values.entries@);
                assert(entry_views(map_values.entries@).take(0) =~= Seq::<
                    (Span, Node),
                >::empty());
                assert(pair_views(out.entries@) =~= Seq::<(Seq<char>, Value)>::empty());
            }
            while i < map_values.entries.len()
                invariant
                    i <= map_values.entries.len(),
                    readable(input@, tokens@, floats@),
                    tokens@ is Mapping,
                    tokens@->Mapping_1 == entry_views(map_values.entries@),
                    entry_views(map_values.entries@).len() == map_values.entries@.len(),
                    forall|k: int|
                        0 <= k < map_values.entries@.len() ==> (#[trigger] entry_views(
                            map_values.entries@,
                        )[k]) == (map_values.entries@[k].0, map_values.entries@[k].1@),
                    forall|k: int|
                        0 <= k < map_values.entries@.len() ==> decreases_to!(tokens => map_values.entries@[k].1),
                    pair_views(out.entries@) == materialize_entries(
                        input@,
                        entry_views(map_values.entries@).take(i as int),
                        floats@,
                    ),
                decreases map_values.entries.len() - i,
            {
                let ghost views = entry_views(map_values.entries@);
                assert(readable(input@, views[i as int].1, floats@));
                let key_span = map_values.entries[i].0;
                assert(views[i as int].0 == key_span);
                let key = unescape(slice_string(input, key_span).as_str());
                let value = materialize_node(input, &map_values.entries[i].1, floats);
                let ghost before = out;
                proof {
                    assert(views.take(i + 1).drop_last() =~= views.take(i as int));
                    assert(views.take(i + 1).last() == views[i as int]);
                }
                let ghost key_view = key@;
                out.insert(key, value);
                proof {
                    lemma_insert_views(before, out, key_view, value);
                }
                i += 1;
            }
            assert(entry_views(map_values.entries@).take(i as int) =~= entry_views(
                map_values.entries@,
            ));
            ACF::Mapping(out)
        },
    }
}

/// Turns the span tree of a text into its value tree.
pub fn tokenized_to_config(input: &str, tokens: token::ACF, floats: &Vec<FloatLiteral>) -> (r:
    ACF)
    requires
        readable(input@, tokens@, floats@),
    ensures
        r@ == materialize(input@, tokens@, floats@),
{
    let chars = characters(input);
    materialize_node(&chars, &tokens, floats)
}

fn span_fits(input: &Vec<char>, span: Span) -> (r: bool)
    ensures
        r == span.within(input@.len()),
{
    span.start <= span.end && span.end <= input.len()
}

fn is_readable(input: &Vec<char>, tokens: &token::ACF, floats: &Vec<FloatLiteral>) -> (r: bool)
    ensures
        r == readable(input@, tokens@, floats@),
    decreases tokens,
{
    match tokens {
        token::ACF::String(range) => span_fits(input, *range),
        token::ACF::Boolean(range) => span_fits(input, *range) && is_boolean(input, *range),
        token::ACF::Integer(range) => span_fits(input, *range) && parse_integer(
            slice_string(input, *range).as_str(),
        ).is_ok(),
        token::ACF::Float(range) => find_float(floats, *range).is_some(),
        token::ACF::Sequence(_, values) => {
            let mut i: usize = 0;
            proof {
                lemma_item_views(values@);
            }
            while i < values.len()
                invariant
                    i <= values.len(),
                    tokens@ is Sequence,
                    tokens@->Sequence_1 == item_views(values@),
                    item_views(values@).len() == values@.len(),
                    forall|k: int|
                        0 <= k < values@.len() ==> (#[trigger] item_views(values@)[k])
                            == values@[k]@,
                    forall|k: int| 0 <= k < values@.len() ==> decreases_to!(tokens => values@[k]),
                    forall|k: int|
                        0 <= k < i ==> readable(
                            input@,
                            #[trigger] item_views(values@)[k],
                            floats@,
                        ),
                decreases values.len() - i,
            {
                if !is_readable(input, &values[i], floats) {
                    assert(!readable(input@, item_views(values@)[i as int], floats@));
                    return false;
                }
                i += 1;
            }
            true
        },
        token::ACF::Mapping(_, map_values) => {
            let mut i: usize = 0;
            proof {
                lemma_entry_views(map_values.entries@);
            }
            while i < map_values.entries.len()
                invariant
                    i <= map_values.entries.len(),
                    tokens@ is Mapping,
                    tokens@->Mapping_1 == entry_views(map_values.entries@),
                    entry_views(map_values.entries@).len() == map_values.entries@.len(),
                    forall|k: int|
                        0 <= k < map_values.entries@.len() ==> (#[trigger] entry_views(
                            map_values.entries@,
                        )[k]) == (map_values.entries@[k].0, map_values.entries@[k].1@),
                    forall|k: int|
                        0 <= k < map_values.entries@.len() ==> decreases_to!(tokens => map_values.entries@[k].1),
                    forall|k: int|
                        0 <= k < i ==> (#[trigger] entry_views(map_values.entries@)[k]).0.within(
                            input@.len(),
                        ) && readable(input@, entry_views(map_values.entries@)[k].1, floats@),
                decreases map_values.entries.len() - i,
            {
                let fits: bool = span_fits(input, map_values.entries[i].0) && is_readable(
                    input,
                    &map_values.entries[i].1,
                    floats,
                );
                if !fits {
                    let ghost entry = entry_views(map_values.entries@)[i as int];
                    assert(!(entry.0.within(input@.len()) && readable(input@, entry.1, floats@)));
                    return false;
                }
                i += 1;
            }
            true
        },
    }
}

/// Turns a span tree into its value tree where the tree can be read off
/// the text, and gives nothing where it cannot: where a span leaves the
/// text, or a scalar's text is not of its kind.
pub fn checked_to_config(input: &str, tokens: token::ACF, floats: &Vec<FloatLiteral>) -> (r: Option<
    ACF,
>)
    ensures
        match r {
            Some(tree) => readable(input@, tokens@, floats@) && tree@ == materialize(
                input@,
                tokens@,
                floats@,
            ),
            None => !readable(input@, tokens@, floats@),
        },
{
    let chars = characters(input);
    if is_readable(&chars, &tokens, floats) {
        Some(materialize_node(&chars, &tokens, floats))
    } else {
        None
    }
}

/// The value tree that a text stands for, or the offset at which the text
/// stops being a document.
pub open spec fn spec_parse(s: Seq<char>, floats: Seq<FloatLiteral>) -> Result<Value, int> {
    match spec_document(s, floats) {
        Ok(node) => Ok(materialize(s, node, floats)),
        Err(offset) => Err(offset),
    }
}

/// Parses a document into its value tree.
pub fn parse_document(text: &str, floats: &Vec<FloatLiteral>) -> (r: Result<ACF, ParseError>)
    ensures
        match r {
            Ok(tree) => spec_parse(text@, floats@) == Ok::<Value, int>(tree@),
            Err(e) => spec_parse(text@, floats@) == Err::<Value, int>(e.offset as int),
        },
{
    match tokenize_ast(text, floats) {
        Ok(tokens) => {
            proof {
                lemma_well_formed_is_readable(text@, tokens@, floats@);
            }
            Ok(tokenized_to_config(text, tokens, floats))
        },
        Err(e) => Err(e),
    }
}

/// A quoted token is a string. An unquoted token is typed by the first of
/// these that its text is: a boolean, an integer, a float; where it is
/// none of them, it is a string.
pub proof fn lemma_primitive_typing(s: Seq<char>, span: Span, floats: Seq<FloatLiteral>)
    ensures
        ({
            let word = span.of(s);
            let quoted = s[span.start as int] == '"';
            let boolean = word == true_text() || word == false_text();
            let value = materialize(s, classify(s, span, floats), floats);
            &&& quoted ==> value == Value::String(unescaped(word))
            &&& !quoted && boolean ==> value == Value::Boolean(word == true_text())
            &&& !quoted && !boolean && lexical_integer(word) is Some ==> value == Value::Integer(
                lexical_integer(word)->Some_0,
            )
            &&& !quoted && !boolean && lexical_integer(word) is None && float_at(floats, span)
                is Some ==> value == Value::Float(float_at(floats, span)->Some_0)
            &&& !quoted && !boolean && lexical_integer(word) is None && float_at(floats, span)
                is None ==> value == Value::String(unescaped(word))
        }),
{
}

} // verus!
