//! What holds of the grammar: offsets move forward, trees are well-formed,
//! bodies are uniform, and the table of float literals decides nothing but
//! which tokens are floats.
use crate::grammar::{
    false_text, forward, is_escape, is_space, is_word, primitive_end, quoted_end, skip_space,
    span_of, spec_composite, spec_document, spec_items, spec_pairs, spec_primitive, spec_value,
    starts_entry, true_text, word_end,
};
use crate::number::lexical_integer;
use crate::token::{spec_float_candidates, unquoted_strings, Node};
use crate::types::{float_at, FloatLiteral, Span};
use vstd::prelude::*;

verus! {

/// What every tree that the tokenizer gives holds of its text: each span
/// lies inside the text, a composite's span encloses its children, a
/// boolean's text is `true` or `false`, an integer's text is an integer
/// literal, and a float's span is in the table of float literals.
pub open spec fn well_formed(s: Seq<char>, node: Node, floats: Seq<FloatLiteral>) -> bool
    decreases node,
{
    &&& node.span().within(s.len())
    &&& match node {
        Node::String(_) => true,
        Node::Boolean(span) => span.of(s) == true_text() || span.of(s) == false_text(),
        Node::Integer(span) => lexical_integer(span.of(s)) is Some,
        Node::Float(span) => float_at(floats, span) is Some,
        Node::Sequence(span, items) => forall|i: int|
            0 <= i < items.len() ==> span.encloses((#[trigger] items[i]).span()) && well_formed(
                s,
                items[i],
                floats,
            ),
        Node::Mapping(span, entries) => forall|i: int|
            0 <= i < entries.len() ==> span.encloses((#[trigger] entries[i]).0) && span.encloses(
                entries[i].1.span(),
            ) && entries[i].0.start <= entries[i].0.end && well_formed(s, entries[i].1, floats),
    }
}

/// The values lie between `lo` and `hi` and are well-formed.
pub open spec fn items_fit(
    s: Seq<char>,
    items: Seq<Node>,
    lo: int,
    hi: int,
    floats: Seq<FloatLiteral>,
) -> bool {
    forall|i: int|
        0 <= i < items.len() ==> lo <= (#[trigger] items[i]).span().start && items[i].span().end
            <= hi && well_formed(s, items[i], floats)
}

/// The keys and values lie between `lo` and `hi` and the values are
/// well-formed.
pub open spec fn entries_fit(
    s: Seq<char>,
    entries: Seq<(Span, Node)>,
    lo: int,
    hi: int,
    floats: Seq<FloatLiteral>,
) -> bool {
    forall|i: int|
        0 <= i < entries.len() ==> lo <= (#[trigger] entries[i]).0.start && entries[i].0.start
            <= entries[i].0.end && entries[i].0.end <= hi && lo <= entries[i].1.span().start
            && entries[i].1.span().end <= hi && well_formed(s, entries[i].1, floats)
}

proof fn lemma_skip_space_bounds(s: Seq<char>, i: int)
    requires
        0 <= i <= s.len(),
    ensures
        i <= skip_space(s, i) <= s.len(),
    decreases s.len() - i,
{
    if i < s.len() && is_space(s[i]) {
        lemma_skip_space_bounds(s, i + 1);
    }
}

proof fn lemma_word_end_bounds(s: Seq<char>, i: int)
    requires
        0 <= i <= s.len(),
    ensures
        i <= word_end(s, i) <= s.len(),
    decreases s.len() - i,
{
    if i < s.len() && is_word(s[i]) {
        lemma_word_end_bounds(s, i + 1);
    }
}

proof fn lemma_quoted_end_bounds(s: Seq<char>, i: int)
    requires
        0 <= i <= s.len(),
    ensures
        match quoted_end(s, i) {
            Ok(e) => i < e <= s.len(),
            Err(o) => i <= o <= s.len(),
        },
    decreases s.len() - i,
{
    if i < s.len() && s[i] != '"' {
        if s[i] == '\\' {
            if i + 1 < s.len() && is_escape(s[i + 1]) {
                lemma_quoted_end_bounds(s, i + 2);
            }
        } else {
            lemma_quoted_end_bounds(s, i + 1);
        }
    }
}

proof fn lemma_primitive_end_bounds(s: Seq<char>, i: int)
    requires
        0 <= i <= s.len(),
    ensures
        match primitive_end(s, i) {
            Ok(e) => i < e <= s.len(),
            Err(o) => i <= o <= s.len(),
        },
{
    if i < s.len() && s[i] == '"' {
        lemma_quoted_end_bounds(s, i + 1);
    } else {
        lemma_word_end_bounds(s, i);
    }
}

proof fn lemma_value_sound(s: Seq<char>, i: int, floats: Seq<FloatLiteral>)
    requires
        0 <= i <= s.len() <= usize::MAX,
    ensures
        match spec_value(s, i, floats) {
            Ok((node, e)) => i < e <= s.len() && node.span() == span_of(i, e) && well_formed(
                s,
                node,
                floats,
            ),
            Err(o) => i <= o <= s.len(),
        },
    decreases s.len() - i, 2int,
{
    if i < s.len() && s[i] == '{' {
        lemma_composite_sound(s, i, floats);
    } else {
        lemma_primitive_end_bounds(s, i);
    }
}

proof fn lemma_composite_sound(s: Seq<char>, i: int, floats: Seq<FloatLiteral>)
    requires
        0 <= i < s.len() <= usize::MAX,
    ensures
        i < skip_space(s, i + 1) <= s.len(),
        match spec_composite(s, i, floats) {
            Ok((node, e)) => i < e <= s.len() && node.span() == span_of(i, e) && well_formed(
                s,
                node,
                floats,
            ),
            Err(o) => i <= o <= s.len(),
        },
    decreases s.len() - i, 1int,
{
    lemma_skip_space_bounds(s, i + 1);
    let j = skip_space(s, i + 1);
    if j < s.len() && s[j] == '}' {
    } else if starts_entry(s, j) {
        lemma_pairs_sound(s, j, ':', floats);
    } else {
        lemma_items_sound(s, j, floats);
    }
}

proof fn lemma_pairs_sound(s: Seq<char>, j: int, sep: char, floats: Seq<FloatLiteral>)
    requires
        0 <= j <= s.len() <= usize::MAX,
    ensures
        match spec_pairs(s, j, sep, floats) {
            Ok((entries, end)) => j < end <= s.len() && entries_fit(s, entries, j, end, floats),
            Err(o) => j <= o <= s.len(),
        },
    decreases s.len() - j, 3int,
{
    lemma_primitive_end_bounds(s, j);
    match primitive_end(s, j) {
        Err(_) => {},
        Ok(key_end) => {
            lemma_skip_space_bounds(s, key_end);
            let c = skip_space(s, key_end);
            if 0 <= c < s.len() && s[c] == sep {
                lemma_skip_space_bounds(s, c + 1);
                let v = skip_space(s, c + 1);
                lemma_value_sound(s, v, floats);
                match spec_value(s, v, floats) {
                    Err(_) => {},
                    Ok((node, e)) => {
                        lemma_skip_space_bounds(s, e);
                        let k = skip_space(s, e);
                        let entry = (span_of(j, key_end), node);
                        if 0 <= k < s.len() && s[k] == ',' {
                            lemma_skip_space_bounds(s, k + 1);
                            let n = skip_space(s, k + 1);
                            lemma_pairs_sound(s, n, sep, floats);
                            match spec_pairs(s, n, sep, floats) {
                                Err(_) => {},
                                Ok((tail, end)) => {
                                    let whole = seq![entry] + tail;
                                    assert forall|x: int| 0 <= x < whole.len() implies j <= (
                                    #[trigger] whole[x]).0.start && whole[x].0.start
                                        <= whole[x].0.end && whole[x].0.end <= end && j
                                        <= whole[x].1.span().start && whole[x].1.span().end <= end
                                        && well_formed(s, whole[x].1, floats) by {
                                        if x > 0 {
                                            assert(whole[x] == tail[x - 1]);
                                        }
                                    }
                                },
                            }
                        }
                    },
                }
            }
        },
    }
}

proof fn lemma_items_sound(s: Seq<char>, j: int, floats: Seq<FloatLiteral>)
    requires
        0 <= j <= s.len() <= usize::MAX,
    ensures
        match spec_items(s, j, floats) {
            Ok((items, end)) => j < end <= s.len() && items_fit(s, items, j, end, floats),
            Err(o) => j <= o <= s.len(),
        },
    decreases s.len() - j, 3int,
{
    lemma_value_sound(s, j, floats);
    match spec_value(s, j, floats) {
        Err(_) => {},
        Ok((node, e)) => {
            lemma_skip_space_bounds(s, e);
            let k = skip_space(s, e);
            if 0 <= k < s.len() && s[k] == ',' {
                lemma_skip_space_bounds(s, k + 1);
                let n = skip_space(s, k + 1);
                lemma_items_sound(s, n, floats);
                match spec_items(s, n, floats) {
                    Err(_) => {},
                    Ok((tail, end)) => {
                        let whole = seq![node] + tail;
                        assert forall|x: int| 0 <= x < whole.len() implies j <= (
                        #[trigger] whole[x]).span().start && whole[x].span().end <= end
                            && well_formed(s, whole[x], floats) by {
                            if x > 0 {
                                assert(whole[x] == tail[x - 1]);
                            }
                        }
                    },
                }
            }
        },
    }
}

/// Offsets only move forward: skipping whitespace does not go back or past
/// the end, and a token and a value end after their start and inside the
/// text. So no test on `forward` in the grammar ever fails.
pub proof fn lemma_offsets_move_forward(s: Seq<char>, i: int, floats: Seq<FloatLiteral>)
    requires
        0 <= i <= s.len() <= usize::MAX,
    ensures
        i <= skip_space(s, i) <= s.len(),
        primitive_end(s, i) matches Ok(e) ==> i < e <= s.len(),
        spec_value(s, i, floats) matches Ok((_, e)) ==> i < e <= s.len(),
{
    lemma_skip_space_bounds(s, i);
    lemma_primitive_end_bounds(s, i);
    lemma_value_sound(s, i, floats);
}

/// The character `sep` is the first after `span` that is no whitespace.
pub open spec fn follows(s: Seq<char>, span: Span, sep: char) -> bool {
    let c = skip_space(s, span.end as int);
    0 <= c < s.len() && s[c] == sep
}

proof fn lemma_pairs_uniform(s: Seq<char>, j: int, sep: char, floats: Seq<FloatLiteral>)
    requires
        0 <= j <= s.len() <= usize::MAX,
    ensures
        spec_pairs(s, j, sep, floats) matches Ok((entries, _)) ==> forall|x: int|
            0 <= x < entries.len() ==> follows(s, (#[trigger] entries[x]).0, sep),
    decreases s.len() - j,
{
    lemma_primitive_end_bounds(s, j);
    match primitive_end(s, j) {
        Err(_) => {},
        Ok(key_end) => {
            lemma_skip_space_bounds(s, key_end);
            let c = skip_space(s, key_end);
            if 0 <= c < s.len() && s[c] == sep {
                lemma_skip_space_bounds(s, c + 1);
                let v = skip_space(s, c + 1);
                lemma_value_sound(s, v, floats);
                match spec_value(s, v, floats) {
                    Err(_) => {},
                    Ok((node, e)) => {
                        lemma_skip_space_bounds(s, e);
                        let k = skip_space(s, e);
                        let entry = (span_of(j, key_end), node);
                        if 0 <= k < s.len() && s[k] == ',' {
                            lemma_skip_space_bounds(s, k + 1);
                            let n = skip_space(s, k + 1);
                            lemma_pairs_uniform(s, n, sep, floats);
                            match spec_pairs(s, n, sep, floats) {
                                Err(_) => {},
                                Ok((tail, end)) => {
                                    let whole = seq![entry] + tail;
                                    assert forall|x: int| 0 <= x < whole.len() implies follows(
                                        s,
                                        (#[trigger] whole[x]).0,
                                        sep,
                                    ) by {
                                        if x > 0 {
                                            assert(whole[x] == tail[x - 1]);
                                        }
                                    }
                                },
                            }
                        }
                    },
                }
            }
        },
    }
}

proof fn lemma_items_uniform(s: Seq<char>, j: int, floats: Seq<FloatLiteral>)
    requires
        0 <= j <= s.len() <= usize::MAX,
    ensures
        spec_items(s, j, floats) matches Ok((items, end)) ==> forall|x: int|
            0 <= x < items.len() ==> follows(s, (#[trigger] items[x]).span(), ',') || skip_space(
                s,
                items[x].span().end as int,
            ) == end,
    decreases s.len() - j,
{
    lemma_value_sound(s, j, floats);
    match spec_value(s, j, floats) {
        Err(_) => {},
        Ok((node, e)) => {
            lemma_skip_space_bounds(s, e);
            let k = skip_space(s, e);
            if 0 <= k < s.len() && s[k] == ',' {
                lemma_skip_space_bounds(s, k + 1);
                let n = skip_space(s, k + 1);
                lemma_items_uniform(s, n, floats);
                match spec_items(s, n, floats) {
                    Err(_) => {},
                    Ok((tail, end)) => {
                        let whole = seq![node] + tail;
                        assert forall|x: int| 0 <= x < whole.len() implies follows(
                            s,
                            (#[trigger] whole[x]).span(),
                            ',',
                        ) || skip_space(s, whole[x].span().end as int) == end by {
                            if x > 0 {
                                assert(whole[x] == tail[x - 1]);
                            }
                        }
                    },
                }
            }
        },
    }
}

/// A body is of one form throughout: in a map, a colon follows the key of
/// every entry; in a sequence, no colon follows any element. So a body
/// that mixes entries and plain values is no composite.
pub proof fn lemma_body_uniform(s: Seq<char>, i: int, floats: Seq<FloatLiteral>)
    requires
        0 <= i < s.len() <= usize::MAX,
    ensures
        match spec_composite(s, i, floats) {
            Ok((Node::Mapping(_, entries), _)) => forall|x: int|
                0 <= x < entries.len() ==> follows(s, (#[trigger] entries[x]).0, ':'),
            Ok((Node::Sequence(_, items), _)) => forall|x: int|
                0 <= x < items.len() ==> !follows(s, (#[trigger] items[x]).span(), ':'),
            _ => true,
        },
{
    lemma_skip_space_bounds(s, i + 1);
    let j = skip_space(s, i + 1);
    if j < s.len() && s[j] == '}' {
    } else if starts_entry(s, j) {
        lemma_pairs_uniform(s, j, ':', floats);
    } else {
        lemma_items_uniform(s, j, floats);
    }
}

/// A composite is a map exactly where its body is empty or starts with a
/// key and a colon, and a sequence exactly where it is not; it is never a
/// scalar.
pub proof fn lemma_composite_kind(s: Seq<char>, i: int, floats: Seq<FloatLiteral>)
    ensures
        match spec_composite(s, i, floats) {
            Ok((node, end)) => {
                let j = skip_space(s, i + 1);
                let map_body = s[j] == '}' || starts_entry(s, j);
                &&& node is Mapping <==> map_body
                &&& node is Sequence <==> !map_body
                &&& node.span() == span_of(i, end)
            },
            Err(_) => true,
        },
{
}

/// The tree of every document is well-formed and spans the whole text,
/// and the error of every other text lies inside the text or at its end.
pub proof fn lemma_document_sound(s: Seq<char>, floats: Seq<FloatLiteral>)
    requires
        s.len() <= usize::MAX,
    ensures
        match spec_document(s, floats) {
            Ok(node) => node.span() == span_of(0, s.len() as int) && well_formed(s, node, floats),
            Err(o) => 0 <= o <= s.len(),
        },
{
    lemma_skip_space_bounds(s, 0);
    let j = skip_space(s, 0);
    if j < s.len() {
        lemma_pairs_sound(s, j, '=', floats);
    }
}

// ------------------------------------------------- the table of float literals

/// The tree with every float read as a string: the tree that the same text
/// gives with an empty table of float literals.
pub open spec fn plain(node: Node) -> Node
    decreases node,
{
    match node {
        Node::Float(span) => Node::String(span),
        Node::Sequence(span, items) => Node::Sequence(span, plain_items(items)),
        Node::Mapping(span, entries) => Node::Mapping(span, plain_entries(entries)),
        _ => node,
    }
}

/// The nodes of a list with every float read as a string.
pub open spec fn plain_items(items: Seq<Node>) -> Seq<Node>
    decreases items,
{
    if items.len() == 0 {
        Seq::empty()
    } else {
        seq![plain(items[0])] + plain_items(items.drop_first())
    }
}

/// The entries of a map with every float read as a string.
pub open spec fn plain_entries(entries: Seq<(Span, Node)>) -> Seq<(Span, Node)>
    decreases entries,
{
    if entries.len() == 0 {
        Seq::empty()
    } else {
        seq![(entries[0].0, plain(entries[0].1))] + plain_entries(entries.drop_first())
    }
}

/// The outcome of parsing a value, with every float read as a string.
pub open spec fn plain_value(r: Result<(Node, int), int>) -> Result<(Node, int), int> {
    match r {
        Ok((node, end)) => Ok((plain(node), end)),
        Err(o) => Err(o),
    }
}

proof fn lemma_plain_primitive(s: Seq<char>, i: int, floats: Seq<FloatLiteral>)
    ensures
        spec_primitive(s, i, Seq::empty()) == plain_value(
            spec_primitive(s, i, floats),
        ),
{
}

proof fn lemma_plain_value(s: Seq<char>, i: int, floats: Seq<FloatLiteral>)
    ensures
        spec_value(s, i, Seq::empty()) == plain_value(spec_value(s, i, floats)),
    decreases s.len() - i, 2int,
{
    if 0 <= i < s.len() && s[i] == '{' {
        lemma_plain_composite(s, i, floats);
    } else {
        lemma_plain_primitive(s, i, floats);
    }
}

proof fn lemma_plain_composite(s: Seq<char>, i: int, floats: Seq<FloatLiteral>)
    ensures
        spec_composite(s, i, Seq::empty()) == plain_value(spec_composite(s, i, floats)),
    decreases s.len() - i, 1int,
{
    let j = skip_space(s, i + 1);
    if forward(i, j, s.len()) {
        if j < s.len() && s[j] == '}' {
            assert(plain_entries(Seq::<(Span, Node)>::empty()) == Seq::<(Span, Node)>::empty());
        } else if starts_entry(s, j) {
            lemma_plain_pairs(s, j, ':', floats);
        } else {
            lemma_plain_items(s, j, floats);
        }
    }
}

proof fn lemma_plain_pairs(s: Seq<char>, j: int, sep: char, floats: Seq<FloatLiteral>)
    ensures
        spec_pairs(s, j, sep, Seq::empty()) == match spec_pairs(s, j, sep, floats) {
            Ok((entries, end)) => Ok((plain_entries(entries), end)),
            Err(o) => Err(o),
        },
    decreases s.len() - j, 3int,
{
    match primitive_end(s, j) {
        Err(_) => {},
        Ok(key_end) => {
            let c = skip_space(s, key_end);
            if 0 <= c < s.len() && s[c] == sep {
                let v = skip_space(s, c + 1);
                if forward(j, v, s.len()) {
                    lemma_plain_value(s, v, floats);
                    match spec_value(s, v, floats) {
                        Err(_) => {},
                        Ok((node, e)) => {
                            let k = skip_space(s, e);
                            let entry = (span_of(j, key_end), node);
                            let bare = (span_of(j, key_end), plain(node));
                            if 0 <= k < s.len() && s[k] == ',' {
                                let n = skip_space(s, k + 1);
                                if forward(j, n, s.len()) {
                                    lemma_plain_pairs(s, n, sep, floats);
                                    match spec_pairs(s, n, sep, floats) {
                                        Err(_) => {},
                                        Ok((tail, end)) => {
                                            let whole = seq![entry] + tail;
                                            assert(whole.drop_first() =~= tail);
                                            assert(plain_entries(whole) == seq![bare]
                                                + plain_entries(tail));
                                        },
                                    }
                                }
                            } else {
                                let whole = seq![entry];
                                assert(whole.drop_first() =~= Seq::<(Span, Node)>::empty());
                                assert(plain_entries(whole.drop_first()) == Seq::<
                                    (Span, Node),
                                >::empty());
                                assert(plain_entries(whole) =~= seq![bare]);
                            }
                        },
                    }
                }
            }
        },
    }
}

proof fn lemma_plain_items(s: Seq<char>, j: int, floats: Seq<FloatLiteral>)
    ensures
        spec_items(s, j, Seq::empty()) == match spec_items(s, j, floats) {
            Ok((items, end)) => Ok((plain_items(items), end)),
            Err(o) => Err(o),
        },
    decreases s.len() - j, 3int,
{
    lemma_plain_value(s, j, floats);
    match spec_value(s, j, floats) {
        Err(_) => {},
        Ok((node, e)) => {
            let k = skip_space(s, e);
            if 0 <= k < s.len() && s[k] == ',' {
                let n = skip_space(s, k + 1);
                if forward(j, n, s.len()) {
                    lemma_plain_items(s, n, floats);
                    match spec_items(s, n, floats) {
                        Err(_) => {},
                        Ok((tail, end)) => {
                            let whole = seq![node] + tail;
                            assert(whole.drop_first() =~= tail);
                            assert(plain_items(whole) == seq![plain(node)] + plain_items(tail));
                        },
                    }
                }
            } else {
                let whole = seq![node];
                assert(whole.drop_first() =~= Seq::<Node>::empty());
                assert(plain_items(whole.drop_first()) == Seq::<Node>::empty());
                assert(plain_items(whole) =~= seq![plain(node)]);
            }
        },
    }
}

/// The table of float literals decides nothing but which unquoted tokens
/// are floats: whether a text is a document, the offset of its error, and
/// every span of its tree are the same with every table. The tree that
/// the empty table gives is the tree of any table with its floats read as
/// strings, so the float candidates of a text are the unquoted strings of
/// that tree.
pub proof fn lemma_table_only_types(s: Seq<char>, floats: Seq<FloatLiteral>)
    ensures
        spec_document(s, Seq::empty()) == match spec_document(s, floats) {
            Ok(node) => Ok(plain(node)),
            Err(o) => Err(o),
        },
        spec_float_candidates(s) == match spec_document(s, floats) {
            Ok(node) => unquoted_strings(s, plain(node)),
            Err(_) => Seq::empty(),
        },
{
    let j = skip_space(s, 0);
    if j >= s.len() {
        assert(plain_entries(Seq::<(Span, Node)>::empty()) == Seq::<(Span, Node)>::empty());
    } else {
        lemma_plain_pairs(s, j, '=', floats);
    }
}

} // verus!
