//! The tokenizer: from the source text to a tree of spans.
//!
//! The module `grammar` says what the tree of a text is. The functions here
//! compute it, and are proved to give exactly that tree or that error.
use crate::grammar::{
    classify, false_text, is_escape, is_space, is_special, prepend, primitive_end, quoted_end,
    scalar_kind, skip_space, spec_composite, spec_document, spec_items, spec_pairs, spec_value,
    true_text, word_end, ScalarKind,
};
use crate::number::parse_integer;
use crate::soundness::{lemma_document_sound, well_formed};
use crate::text::{characters, slice_string};
use crate::types::{find_float, FloatLiteral, IndexMapWrapper, Span};
use vstd::prelude::*;

verus! {

/// A node of the span tree. A scalar carries the span of its token, quotes
/// included; a composite carries the span from its opening to its closing
/// brace and its children in source order.
#[derive(Debug, PartialEq, Eq)]
pub enum ACF {
    String(Span),
    Integer(Span),
    Float(Span),
    Boolean(Span),
    Sequence(Span, Vec<ACF>),
    Mapping(Span, IndexMapWrapper<Span, ACF>),
}

/// The mathematical value of a span tree.
pub enum Node {
    String(Span),
    Integer(Span),
    Float(Span),
    Boolean(Span),
    Sequence(Span, Seq<Node>),
    Mapping(Span, Seq<(Span, Node)>),
}

impl Node {
    /// The span of the whole node.
    pub open spec fn span(self) -> Span {
        match self {
            Node::String(span) => span,
            Node::Integer(span) => span,
            Node::Float(span) => span,
            Node::Boolean(span) => span,
            Node::Sequence(span, _) => span,
            Node::Mapping(span, _) => span,
        }
    }
}

impl View for ACF {
    type V = Node;

    open spec fn view(&self) -> Node
        decreases self,
    {
        match *self {
            ACF::String(span) => Node::String(span),
            ACF::Integer(span) => Node::Integer(span),
            ACF::Float(span) => Node::Float(span),
            ACF::Boolean(span) => Node::Boolean(span),
            ACF::Sequence(span, items) => Node::Sequence(span, item_views(items@)),
            ACF::Mapping(span, map) => Node::Mapping(span, entry_views(map.entries@)),
        }
    }
}

/// The views of the nodes of a list.
pub open spec fn item_views(items: Seq<ACF>) -> Seq<Node>
    decreases items,
{
    if items.len() == 0 {
        Seq::empty()
    } else {
        item_views(items.drop_last()).push(items.last()@)
    }
}

/// The views of the entries of a span map.
pub open spec fn entry_views(entries: Seq<(Span, ACF)>) -> Seq<(Span, Node)>
    decreases entries,
{
    if entries.len() == 0 {
        Seq::empty()
    } else {
        entry_views(entries.drop_last()).push((entries.last().0, entries.last().1@))
    }
}

/// `item_views` goes element by element.
pub proof fn lemma_item_views(items: Seq<ACF>)
    ensures
        item_views(items).len() == items.len(),
        forall|i: int| 0 <= i < items.len() ==> (#[trigger] item_views(items)[i]) == items[i]@,
    decreases items.len(),
{
    if items.len() > 0 {
        lemma_item_views(items.drop_last());
        assert(item_views(items) == item_views(items.drop_last()).push(items.last()@));
    } else {
        assert(item_views(items) == Seq::<Node>::empty());
    }
}

/// `entry_views` goes entry by entry.
pub proof fn lemma_entry_views(entries: Seq<(Span, ACF)>)
    ensures
        entry_views(entries).len() == entries.len(),
        forall|i: int|
            0 <= i < entries.len() ==> (#[trigger] entry_views(entries)[i]) == (
                entries[i].0,
                entries[i].1@,
            ),
    decreases entries.len(),
{
    if entries.len() > 0 {
        lemma_entry_views(entries.drop_last());
        assert(entry_views(entries) == entry_views(entries.drop_last()).push(
            (entries.last().0, entries.last().1@),
        ));
    } else {
        assert(entry_views(entries) == Seq::<(Span, Node)>::empty());
    }
}

proof fn lemma_item_views_push(items: Seq<ACF>, x: ACF)
    ensures
        item_views(items.push(x)) == item_views(items).push(x@),
{
    assert(items.push(x).drop_last() =~= items);
}

proof fn lemma_entry_views_push(entries: Seq<(Span, ACF)>, key: Span, x: ACF)
    ensures
        entry_views(entries.push((key, x))) == entry_views(entries).push((key, x@)),
{
    assert(entries.push((key, x)).drop_last() =~= entries);
}

impl ACF {
    /// The span of the whole node.
    pub fn as_range(&self) -> (r: &Span)
        ensures
            *r == self@.span(),
    {
        match self {
            ACF::String(range) => range,
            ACF::Integer(range) => range,
            ACF::Float(range) => range,
            ACF::Boolean(range) => range,
            ACF::Sequence(range, _) => range,
            ACF::Mapping(range, _) => range,
        }
    }

    /// The span of the whole node, consuming the node.
    pub fn into_range(self) -> (r: Span)
        ensures
            r == self@.span(),
    {
        match self {
            ACF::String(range) => range,
            ACF::Integer(range) => range,
            ACF::Float(range) => range,
            ACF::Boolean(range) => range,
            ACF::Sequence(range, _) => range,
            ACF::Mapping(range, _) => range,
        }
    }
}

/// Where the text stopped being a document.
#[derive(Debug, Clone, Copy, PartialEq, Eq, Structural)]
pub struct ParseError {
    pub offset: usize,
}

impl ParseError {
    /// The character offset at which the grammar could not go on.
    pub fn offset(&self) -> (r: usize)
        ensures
            r == self.offset,
    {
        self.offset
    }
}

proof fn lemma_prepend_empty<T>(rest: Result<(Seq<T>, int), int>)
    ensures
        prepend(Seq::<T>::empty(), rest) == rest,
{
    match rest {
        Ok((tail, end)) => {
            assert(Seq::<T>::empty() + tail =~= tail);
        },
        Err(_) => {},
    }
}

proof fn lemma_prepend_push<T>(head: Seq<T>, x: T, rest: Result<(Seq<T>, int), int>)
    ensures
        prepend(head, prepend(seq![x], rest)) == prepend(head.push(x), rest),
{
    assert(head + seq![x] =~= head.push(x));
    match rest {
        Ok((tail, end)) => {
            assert(head + (seq![x] + tail) =~= head.push(x) + tail);
        },
        Err(_) => {},
    }
}

// ----------------------------------------------------------------- scanning

fn is_space_char(c: char) -> (r: bool)
    ensures
        r == is_space(c),
{
    c == ' ' || c == '\t' || c == '\r' || c == '\n'
}

fn is_special_char(c: char) -> (r: bool)
    ensures
        r == is_special(c),
{
    c == '=' || c == ',' || c == '{' || c == '}' || c == ':'
}

fn is_escape_char(c: char) -> (r: bool)
    ensures
        r == is_escape(c),
{
    c == '"' || c == '\\' || c == '/' || c == 'b' || c == 'f' || c == 'n' || c == 'r' || c == 't'
        || c == '\''
}

fn skip_spaces(chars: &Vec<char>, start: usize) -> (j: usize)
    requires
        start <= chars.len(),
    ensures
        j == skip_space(chars@, start as int),
        start <= j <= chars.len(),
{
    let mut i: usize = start;
    while i < chars.len() && is_space_char(chars[i])
        invariant
            start <= i <= chars.len(),
            skip_space(chars@, start as int) == skip_space(chars@, i as int),
        decreases chars.len() - i,
    {
        i += 1;
    }
    i
}

fn scan_word(chars: &Vec<char>, start: usize) -> (j: usize)
    requires
        start <= chars.len(),
    ensures
        j == word_end(chars@, start as int),
        start <= j <= chars.len(),
{
    let mut i: usize = start;
    while i < chars.len() && !is_space_char(chars[i]) && !is_special_char(chars[i])
        invariant
            start <= i <= chars.len(),
            word_end(chars@, start as int) == word_end(chars@, i as int),
        decreases chars.len() - i,
    {
        i += 1;
    }
    i
}

fn scan_quoted(chars: &Vec<char>, start: usize) -> (r: Result<usize, usize>)
    requires
        start <= chars.len(),
    ensures
        match r {
            Ok(e) => quoted_end(chars@, start as int) == Ok::<int, int>(e as int) && start < e
                <= chars.len(),
            Err(o) => quoted_end(chars@, start as int) == Err::<int, int>(o as int) && o
                <= chars.len(),
        },
{
    let mut i: usize = start;
    loop
        invariant
            start <= i <= chars.len(),
            quoted_end(chars@, start as int) == quoted_end(chars@, i as int),
        decreases chars.len() - i,
    {
        if i >= chars.len() {
            return Err(chars.len());
        }
        let c: char = chars[i];
        if c == '"' {
            return Ok(i + 1);
        }
        if c == '\\' {
            if i + 1 < chars.len() && is_escape_char(chars[i + 1]) {
                i += 2;
            } else {
                return Err(i + 1);
            }
        } else {
            i += 1;
        }
    }
}

fn scan_primitive(chars: &Vec<char>, start: usize) -> (r: Result<usize, usize>)
    requires
        start <= chars.len(),
    ensures
        match r {
            Ok(e) => primitive_end(chars@, start as int) == Ok::<int, int>(e as int) && start < e
                <= chars.len(),
            Err(o) => primitive_end(chars@, start as int) == Err::<int, int>(o as int) && o
                <= chars.len(),
        },
{
    if start < chars.len() && chars[start] == '"' {
        scan_quoted(chars, start + 1)
    } else {
        let e: usize = scan_word(chars, start);
        if e > start {
            Ok(e)
        } else {
            Err(start)
        }
    }
}

fn is_text(chars: &Vec<char>, span: Span, literal: &Vec<char>) -> (r: bool)
    requires
        span.within(chars@.len()),
    ensures
        r == (span.of(chars@) == literal@),
{
    if span.end - span.start != literal.len() {
        return false;
    }
    let mut i: usize = 0;
    while i < literal.len()
        invariant
            span.within(chars@.len()),
            span.end - span.start == literal.len(),
            i <= literal.len(),
            forall|k: int| 0 <= k < i ==> chars@[span.start + k] == literal@[k],
        decreases literal.len() - i,
    {
        if chars[span.start + i] != literal[i] {
            assert(span.of(chars@)[i as int] != literal@[i as int]);
            return false;
        }
        i += 1;
    }
    assert(span.of(chars@) =~= literal@);
    true
}

/// Whether the text at a span is `true` or `false`.
pub fn is_boolean(chars: &Vec<char>, span: Span) -> (r: bool)
    requires
        span.within(chars@.len()),
    ensures
        r == (span.of(chars@) == true_text() || span.of(chars@) == false_text()),
{
    let yes: Vec<char> = vec!['t', 'r', 'u', 'e'];
    let no: Vec<char> = vec!['f', 'a', 'l', 's', 'e'];
    assert(yes@ =~= true_text());
    assert(no@ =~= false_text());
    is_text(chars, span, &yes) || is_text(chars, span, &no)
}

fn classify_token(chars: &Vec<char>, floats: &Vec<FloatLiteral>, span: Span) -> (r:
    ACF)
    requires
        span.start < span.end <= chars@.len(),
    ensures
        r@ == classify(chars@, span, floats@),
{
    let quoted: bool = chars[span.start] == '"';
    let boolean: bool = !quoted && is_boolean(chars, span);
    let integer: bool = !quoted && !boolean && parse_integer(
        slice_string(chars, span).as_str(),
    ).is_ok();
    let float: bool = !quoted && !boolean && !integer && find_float(floats, span).is_some();
    match scalar_kind(quoted, boolean, integer, float) {
        ScalarKind::String => ACF::String(span),
        ScalarKind::Integer => ACF::Integer(span),
        ScalarKind::Float => ACF::Float(span),
        ScalarKind::Boolean => ACF::Boolean(span),
    }
}

// ------------------------------------------------------------------ parsing

fn parse_value(chars: &Vec<char>, floats: &Vec<FloatLiteral>, i: usize) -> (r: Result<
    (ACF, usize),
    ParseError,
>)
    requires
        i <= chars.len(),
    ensures
        match r {
            Ok((tree, end)) => spec_value(chars@, i as int, floats@) == Ok::<(Node, int), int>(
                (tree@, end as int),
            ) && i < end <= chars.len(),
            Err(e) => spec_value(chars@, i as int, floats@) == Err::<(Node, int), int>(
                e.offset as int,
            ),
        },
    decreases chars.len() - i, 2int,
{
    if i < chars.len() && chars[i] == '{' {
        parse_composite(chars, floats, i)
    } else {
        match scan_primitive(chars, i) {
            Ok(e) => Ok((classify_token(chars, floats, Span { start: i, end: e }), e)),
            Err(o) => Err(ParseError { offset: o }),
        }
    }
}

fn parse_composite(chars: &Vec<char>, floats: &Vec<FloatLiteral>, i: usize) -> (r:
    Result<(ACF, usize), ParseError>)
    requires
        i < chars.len(),
        chars@[i as int] == '{',
    ensures
        match r {
            Ok((tree, end)) => spec_composite(chars@, i as int, floats@) == Ok::<(Node, int), int>(
                (tree@, end as int),
            ) && i < end <= chars.len(),
            Err(e) => spec_composite(chars@, i as int, floats@) == Err::<(Node, int), int>(
                e.offset as int,
            ),
        },
    decreases chars.len() - i, 1int,
{
    let j: usize = skip_spaces(chars, i + 1);
    if j < chars.len() && chars[j] == '}' {
        let map: IndexMapWrapper<Span, ACF> = IndexMapWrapper::new();
        let span = Span { start: i, end: j + 1 };
        assert(entry_views(map.entries@) =~= Seq::<(Span, Node)>::empty());
        return Ok((ACF::Mapping(span, map), j + 1));
    }
    let is_map: bool = match scan_primitive(chars, j) {
        Ok(e) => {
            let c: usize = skip_spaces(chars, e);
            c < chars.len() && chars[c] == ':'
        },
        Err(_) => false,
    };
    if is_map {
        match parse_pairs(chars, floats, j, ':') {
            Ok((map, k)) => {
                if k < chars.len() && chars[k] == '}' {
                    let span = Span { start: i, end: k + 1 };
                    Ok((ACF::Mapping(span, map), k + 1))
                } else {
                    Err(ParseError { offset: k })
                }
            },
            Err(e) => Err(e),
        }
    } else {
        match parse_items(chars, floats, j) {
            Ok((items, k)) => {
                if k < chars.len() && chars[k] == '}' {
                    let span = Span { start: i, end: k + 1 };
                    Ok((ACF::Sequence(span, items), k + 1))
                } else {
                    Err(ParseError { offset: k })
                }
            },
            Err(e) => Err(e),
        }
    }
}

fn parse_pairs(
    chars: &Vec<char>,
    floats: &Vec<FloatLiteral>,
    start: usize,
    sep: char,
) -> (r: Result<(IndexMapWrapper<Span, ACF>, usize), ParseError>)
    requires
        start <= chars.len(),
    ensures
        match r {
            Ok((map, end)) => spec_pairs(chars@, start as int, sep, floats@) == Ok::<
                (Seq<(Span, Node)>, int),
                int,
            >((entry_views(map.entries@), end as int)) && start < end <= chars.len(),
            Err(e) => spec_pairs(chars@, start as int, sep, floats@) == Err::<
                (Seq<(Span, Node)>, int),
                int,
            >(e.offset as int),
        },
    decreases chars.len() - start, 3int,
{
    let mut map: IndexMapWrapper<Span, ACF> = IndexMapWrapper::new();
    let mut j: usize = start;
    proof {
        assert(entry_views(map.entries@) =~= Seq::<(Span, Node)>::empty());
        lemma_prepend_empty(spec_pairs(chars@, start as int, sep, floats@));
    }
    loop
        invariant
            start <= j <= chars.len(),
            spec_pairs(chars@, start as int, sep, floats@) == prepend(
                entry_views(map.entries@),
                spec_pairs(chars@, j as int, sep, floats@),
            ),
        decreases chars.len() - j,
    {
        let key_end: usize = match scan_primitive(chars, j) {
            Ok(e) => e,
            Err(o) => {
                return Err(ParseError { offset: o });
            },
        };
        let c: usize = skip_spaces(chars, key_end);
        if !(c < chars.len() && chars[c] == sep) {
            return Err(ParseError { offset: c });
        }
        let v: usize = skip_spaces(chars, c + 1);
        let (node, e) = match parse_value(chars, floats, v) {
            Ok(found) => found,
            Err(err) => {
                return Err(err);
            },
        };
        let k: usize = skip_spaces(chars, e);
        let key = Span { start: j, end: key_end };
        let ghost before = entry_views(map.entries@);
        let ghost entry = (key, node@);
        proof {
            lemma_entry_views_push(map.entries@, key, node);
        }
        map.append(key, node);
        if k < chars.len() && chars[k] == ',' {
            let n: usize = skip_spaces(chars, k + 1);
            proof {
                lemma_prepend_push(before, entry, spec_pairs(chars@, n as int, sep, floats@));
            }
            j = n;
        } else {
            proof {
                assert(before + seq![entry] =~= before.push(entry));
            }
            return Ok((map, k));
        }
    }
}

fn parse_items(chars: &Vec<char>, floats: &Vec<FloatLiteral>, start: usize) -> (r:
    Result<(Vec<ACF>, usize), ParseError>)
    requires
        start <= chars.len(),
    ensures
        match r {
            Ok((items, end)) => spec_items(chars@, start as int, floats@) == Ok::<
                (Seq<Node>, int),
                int,
            >((item_views(items@), end as int)) && start < end <= chars.len(),
            Err(e) => spec_items(chars@, start as int, floats@) == Err::<(Seq<Node>, int), int>(
                e.offset as int,
            ),
        },
    decreases chars.len() - start, 3int,
{
    let mut items: Vec<ACF> = Vec::new();
    let mut j: usize = start;
    proof {
        assert(item_views(items@) =~= Seq::<Node>::empty());
        lemma_prepend_empty(spec_items(chars@, start as int, floats@));
    }
    loop
        invariant
            start <= j <= chars.len(),
            spec_items(chars@, start as int, floats@) == prepend(
                item_views(items@),
                spec_items(chars@, j as int, floats@),
            ),
        decreases chars.len() - j,
    {
        let (node, e) = match parse_value(chars, floats, j) {
            Ok(found) => found,
            Err(err) => {
                return Err(err);
            },
        };
        let k: usize = skip_spaces(chars, e);
        let ghost before = item_views(items@);
        let ghost item = node@;
        proof {
            lemma_item_views_push(items@, node);
        }
        items.push(node);
        if k < chars.len() && chars[k] == ',' {
            let n: usize = skip_spaces(chars, k + 1);
            proof {
                lemma_prepend_push(before, item, spec_items(chars@, n as int, floats@));
            }
            j = n;
        } else {
            proof {
                assert(before + seq![item] =~= before.push(item));
            }
            return Ok((items, k));
        }
    }
}

/// Tokenizes a document into its span tree. `floats` lists the unquoted
/// tokens that are float literals; an unquoted token that is neither a
/// boolean nor an integer is a float where the table has its span, and a
/// string where it has not.
///
/// The tree is the one that the grammar gives, and it is well-formed; an
/// error carries the offset at which the grammar could not go on.
pub fn tokenize_ast(data: &str, floats: &Vec<FloatLiteral>) -> (r: Result<ACF, ParseError>)
    ensures
        match r {
            Ok(tree) => spec_document(data@, floats@) == Ok::<Node, int>(tree@) && well_formed(
                data@,
                tree@,
                floats@,
            ),
            Err(e) => spec_document(data@, floats@) == Err::<Node, int>(e.offset as int)
                && e.offset <= data@.len(),
        },
{
    let chars: Vec<char> = characters(data);
    proof {
        lemma_document_sound(data@, floats@);
    }
    let j: usize = skip_spaces(&chars, 0);
    let whole = Span { start: 0, end: chars.len() };
    if j >= chars.len() {
        let map: IndexMapWrapper<Span, ACF> = IndexMapWrapper::new();
        assert(entry_views(map.entries@) =~= Seq::<(Span, Node)>::empty());
        Ok(ACF::Mapping(whole, map))
    } else {
        match parse_pairs(&chars, floats, j, '=') {
            Ok((map, k)) => {
                if k == chars.len() {
                    Ok(ACF::Mapping(whole, map))
                } else {
                    Err(ParseError { offset: k })
                }
            },
            Err(e) => Err(e),
        }
    }
}

/// The spans of the unquoted string tokens of a tree, in source order.
/// These are the tokens that a table of float literals can still turn
/// into floats; a key is never among them.
pub open spec fn unquoted_strings(s: Seq<char>, node: Node) -> Seq<Span>
    decreases node,
{
    match node {
        Node::String(span) => if span.start < s.len() && s[span.start as int] != '"' {
            seq![span]
        } else {
            Seq::empty()
        },
        Node::Integer(_) => Seq::empty(),
        Node::Float(_) => Seq::empty(),
        Node::Boolean(_) => Seq::empty(),
        Node::Sequence(_, items) => unquoted_in_items(s, items),
        Node::Mapping(_, entries) => unquoted_in_entries(s, entries),
    }
}

/// The unquoted string tokens of a list of nodes.
pub open spec fn unquoted_in_items(s: Seq<char>, items: Seq<Node>) -> Seq<Span>
    decreases items,
{
    if items.len() == 0 {
        Seq::empty()
    } else {
        unquoted_in_items(s, items.drop_last()) + unquoted_strings(s, items.last())
    }
}

/// The unquoted string tokens of the values of a list of entries.
pub open spec fn unquoted_in_entries(s: Seq<char>, entries: Seq<(Span, Node)>) -> Seq<Span>
    decreases entries,
{
    if entries.len() == 0 {
        Seq::empty()
    } else {
        unquoted_in_entries(s, entries.drop_last()) + unquoted_strings(s, entries.last().1)
    }
}

fn collect_unquoted(chars: &Vec<char>, tokens: &ACF, out: &mut Vec<Span>)
    ensures
        final(out)@ == old(out)@ + unquoted_strings(chars@, tokens@),
    decreases tokens,
{
    match tokens {
        ACF::String(range) => {
            if range.start < chars.len() && chars[range.start] != '"' {
                out.push(*range);
                assert(out@ =~= old(out)@ + seq![*range]);
            } else {
                assert(out@ =~= old(out)@ + Seq::<Span>::empty());
            }
        },
        ACF::Integer(_) => {
            assert(out@ =~= old(out)@ + Seq::<Span>::empty());
        },
        ACF::Float(_) => {
            assert(out@ =~= old(out)@ + Seq::<Span>::empty());
        },
        ACF::Boolean(_) => {
            assert(out@ =~= old(out)@ + Seq::<Span>::empty());
        },
        ACF::Sequence(_, items) => {
            let mut i: usize = 0;
            proof {
                lemma_item_views(items@);
                assert(item_views(items@).take(0) =~= Seq::<Node>::empty());
                assert(out@ =~= old(out)@ + Seq::<Span>::empty());
            }
            while i < items.len()
                invariant
                    i <= items.len(),
                    tokens@ is Sequence,
                    tokens@->Sequence_1 == item_views(items@),
                    item_views(items@).len() == items@.len(),
                    forall|k: int|
                        0 <= k < items@.len() ==> (#[trigger] item_views(items@)[k]) == items@[k]@,
                    forall|k: int| 0 <= k < items@.len() ==> decreases_to!(tokens => items@[k]),
                    out@ == old(out)@ + unquoted_in_items(
                        chars@,
                        item_views(items@).take(i as int),
                    ),
                decreases items.len() - i,
            {
                let ghost views = item_views(items@);
                let ghost before = out@;
                collect_unquoted(chars, &items[i], out);
                proof {
                    assert(views.take(i + 1).drop_last() =~= views.take(i as int));
                    assert(views.take(i + 1).last() == views[i as int]);
                    assert(out@ =~= old(out)@ + (unquoted_in_items(chars@, views.take(i as int))
                        + unquoted_strings(chars@, views[i as int])));
                }
                i += 1;
            }
            assert(item_views(items@).take(i as int) =~= item_views(items@));
        },
        ACF::Mapping(_, map) => {
            let mut i: usize = 0;
            proof {
                lemma_entry_views(map.entries@);
                assert(entry_views(map.entries@).take(0) =~= Seq::<(Span, Node)>::empty());
                assert(out@ =~= old(out)@ + Seq::<Span>::empty());
            }
            while i < map.entries.len()
                invariant
                    i <= map.entries.len(),
                    tokens@ is Mapping,
                    tokens@->Mapping_1 == entry_views(map.entries@),
                    entry_views(map.entries@).len() == map.entries@.len(),
                    forall|k: int|
                        0 <= k < map.entries@.len() ==> (#[trigger] entry_views(map.entries@)[k])
                            == (map.entries@[k].0, map.entries@[k].1@),
                    forall|k: int|
                        0 <= k < map.entries@.len() ==> decreases_to!(tokens => map.entries@[k].1),
                    out@ == old(out)@ + unquoted_in_entries(
                        chars@,
                        entry_views(map.entries@).take(i as int),
                    ),
                decreases map.entries.len() - i,
            {
                let ghost views = entry_views(map.entries@);
                collect_unquoted(chars, &map.entries[i].1, out);
                proof {
                    assert(views.take(i + 1).drop_last() =~= views.take(i as int));
                    assert(views.take(i + 1).last() == views[i as int]);
                    assert(out@ =~= old(out)@ + (unquoted_in_entries(chars@, views.take(i as int))
                        + unquoted_strings(chars@, views[i as int].1)));
                }
                i += 1;
            }
            assert(entry_views(map.entries@).take(i as int) =~= entry_views(map.entries@));
        },
    }
}

/// The tokens of a document that may be float literals: the unquoted
/// tokens that are neither booleans nor integers, in source order. A text
/// that is no document has none.
pub open spec fn spec_float_candidates(s: Seq<char>) -> Seq<Span> {
    match spec_document(s, Seq::empty()) {
        Ok(node) => unquoted_strings(s, node),
        Err(_) => Seq::empty(),
    }
}

/// Lists the tokens of a document that may be float literals. The caller
/// decodes them and hands those that are floats to `tokenize_ast`.
pub fn float_candidates(data: &str) -> (r: Vec<Span>)
    ensures
        r@ == spec_float_candidates(data@),
{
    let none: Vec<FloatLiteral> = Vec::new();
    let mut out: Vec<Span> = Vec::new();
    match tokenize_ast(data, &none) {
        Ok(tree) => {
            let chars = characters(data);
            collect_unquoted(&chars, &tree, &mut out);
            assert(out@ =~= unquoted_strings(data@, tree@));
        },
        Err(_) => {},
    }
    out
}

} // verus!
