//! A compact configuration notation: `key = value` items separated by
//! commas, composite values in braces, and scalars typed by their text.
//!
//! A text becomes a value tree in two steps. The tokenizer (`token`) turns
//! the text into a tree of spans, after the grammar in `grammar`; the
//! materializer (`materialize`) turns the spans into typed values. Paths
//! and JSON Pointers (`selector`) then lead to the values of the tree.
//!
//! The library does no floating-point arithmetic. A float is held as the
//! bit pattern of its 64-bit value, and the float literals of a text are
//! decoded by the caller: `token::float_candidates` lists the tokens that
//! may be floats, and the tokenizer and the materializer take the table of
//! those that are.
//!
//! This file holds the value tree and its accessors.
pub use crate::materialize::{checked_to_config, parse_document, to_boolean, tokenized_to_config};
pub use crate::selector::KeyIndexRef;
use crate::selector::{parse_json_pointer, select, select_by_pointer, steps};
use crate::types::{first_index, lemma_first_index, lookup, IndexMapWrapper};
use vstd::prelude::*;

pub mod equality;
pub mod escape;
pub mod grammar;
pub mod materialize;
pub mod number;
pub mod selector;
pub mod soundness;
pub mod text;
pub mod token;
pub mod types;

verus! {

/// A node of the value tree. A float is held as the bit pattern of its
/// 64-bit value; a map keeps its entries in the order of insertion.
#[derive(Debug)]
pub enum ACF {
    String(String),
    Integer(i64),
    Float(u64),
    Boolean(bool),
    Sequence(Vec<ACF>),
    Mapping(IndexMapWrapper<String, ACF>),
}

/// The mathematical value of a value tree.
pub enum Value {
    String(Seq<char>),
    Integer(i64),
    Float(u64),
    Boolean(bool),
    Sequence(Seq<Value>),
    Mapping(Seq<(Seq<char>, Value)>),
}

impl Value {
    /// The child under `key`: of a map, the value of the entry with that
    /// key; of anything else, nothing.
    pub open spec fn child(self, key: Seq<char>) -> Option<Value> {
        match self {
            Value::Mapping(entries) => lookup(entries, key),
            _ => None,
        }
    }

    /// The child at `index`: of a sequence, the element at that index from
    /// the front, or from the back where the index is negative; of anything
    /// else, and out of bounds, nothing.
    pub open spec fn element(self, index: int) -> Option<Value> {
        match self {
            Value::Sequence(items) => if 0 <= index < items.len() {
                Some(items[index])
            } else if -items.len() <= index < 0 {
                Some(items[items.len() + index])
            } else {
                None
            },
            _ => None,
        }
    }
}

impl View for ACF {
    type V = Value;

    open spec fn view(&self) -> Value
        decreases self,
    {
        match *self {
            ACF::String(s) => Value::String(s@),
            ACF::Integer(i) => Value::Integer(i),
            ACF::Float(bits) => Value::Float(bits),
            ACF::Boolean(b) => Value::Boolean(b),
            ACF::Sequence(items) => Value::Sequence(value_views(items@)),
            ACF::Mapping(map) => Value::Mapping(pair_views(map.entries@)),
        }
    }
}

/// The views of the values of a list.
pub open spec fn value_views(items: Seq<ACF>) -> Seq<Value>
    decreases items,
{
    if items.len() == 0 {
        Seq::empty()
    } else {
        value_views(items.drop_last()).push(items.last()@)
    }
}

/// The views of the entries of a map.
pub open spec fn pair_views(entries: Seq<(String, ACF)>) -> Seq<(Seq<char>, Value)>
    decreases entries,
{
    if entries.len() == 0 {
        Seq::empty()
    } else {
        pair_views(entries.drop_last()).push((entries.last().0@, entries.last().1@))
    }
}

/// `value_views` goes element by element.
pub proof fn lemma_value_views(items: Seq<ACF>)
    ensures
        value_views(items).len() == items.len(),
        forall|i: int| 0 <= i < items.len() ==> (#[trigger] value_views(items)[i]) == items[i]@,
    decreases items.len(),
{
    if items.len() > 0 {
        lemma_value_views(items.drop_last());
        assert(value_views(items) == value_views(items.drop_last()).push(items.last()@));
    } else {
        assert(value_views(items) == Seq::<Value>::empty());
    }
}

/// `pair_views` goes entry by entry.
pub proof fn lemma_pair_views(entries: Seq<(String, ACF)>)
    ensures
        pair_views(entries).len() == entries.len(),
        forall|i: int|
            0 <= i < entries.len() ==> (#[trigger] pair_views(entries)[i]) == (
                entries[i].0@,
                entries[i].1@,
            ),
    decreases entries.len(),
{
    if entries.len() > 0 {
        lemma_pair_views(entries.drop_last());
        assert(pair_views(entries) == pair_views(entries.drop_last()).push(
            (entries.last().0@, entries.last().1@),
        ));
    } else {
        assert(pair_views(entries) == Seq::<(Seq<char>, Value)>::empty());
    }
}

/// Two lists of entries with the same keys find a key at the same index.
pub proof fn lemma_same_keys<V, W>(
    a: Seq<(Seq<char>, V)>,
    b: Seq<(Seq<char>, W)>,
    key: Seq<char>,
)
    requires
        a.len() == b.len(),
        forall|i: int| 0 <= i < a.len() ==> (#[trigger] a[i]).0 == (#[trigger] b[i]).0,
    ensures
        first_index(a, key) == first_index(b, key),
    decreases a.len(),
{
    if a.len() > 0 {
        assert(a[0].0 == b[0].0);
        if a[0].0 != key {
            let ra = a.drop_first();
            let rb = b.drop_first();
            assert forall|i: int| 0 <= i < ra.len() implies (#[trigger] ra[i]).0 == (
            #[trigger] rb[i]).0 by {
                assert(a[i + 1].0 == b[i + 1].0);
            }
            lemma_same_keys(ra, rb, key);
        }
    }
}

impl ACF {
    /// The child of a map under `key`.
    pub fn get(&self, key: &str) -> (r: Option<&Self>)
        ensures
            match r {
                Some(v) => self@.child(key@) == Some(v@),
                None => self@.child(key@) is None,
            },
    {
        match self {
            ACF::Mapping(map) => {
                proof {
                    lemma_pair_views(map.entries@);
                    lemma_same_keys(map@, pair_views(map.entries@), key@);
                    lemma_first_index(map@, key@);
                }
                map.get(key)
            },
            _ => None,
        }
    }

    /// The element of a sequence at `index`, counted from the back where
    /// `index` is negative.
    pub fn get_index(&self, index: isize) -> (r: Option<&Self>)
        ensures
            match r {
                Some(v) => self@.element(index as int) == Some(v@),
                None => self@.element(index as int) is None,
            },
    {
        match self {
            ACF::Sequence(items) => {
                proof {
                    lemma_value_views(items@);
                }
                if index >= 0 {
                    let i: usize = index as usize;
                    if i < items.len() {
                        Some(&items[i])
                    } else {
                        None
                    }
                } else {
                    let back: usize = (-(index + 1)) as usize + 1;
                    if back <= items.len() {
                        Some(&items[items.len() - back])
                    } else {
                        None
                    }
                }
            },
            _ => None,
        }
    }

    /// The value that a path of keys and indices leads to.
    pub fn selector(&self, selector: &[KeyIndexRef]) -> (r: Option<&Self>)
        ensures
            match r {
                Some(found) => select(self@, steps(selector@)) == Some(found@),
                None => select(self@, steps(selector@)) is None,
            },
    {
        selector::selector(self, selector)
    }

    /// The value that a JSON Pointer leads to; nothing where the text is
    /// no pointer.
    pub fn json_pointer(&self, pointer: &str) -> (r: Option<&Self>)
        ensures
            match r {
                Some(found) => select_by_pointer(self@, pointer@) == Some(found@),
                None => select_by_pointer(self@, pointer@) is None,
            },
    {
        match parse_json_pointer(pointer) {
            Some(path) => selector::selector(self, path.as_slice()),
            None => None,
        }
    }
}

/// Indexing a sequence of `n` elements from the back: `-1` is the last
/// element, `-n` the first, `-(n + 1)` nothing; from the front, `n` is
/// nothing. The least and the greatest index lead nowhere.
pub proof fn lemma_negative_index(items: Seq<Value>)
    requires
        items.len() <= isize::MAX,
    ensures
        ({
            let sequence = Value::Sequence(items);
            let n = items.len() as int;
            &&& n > 0 ==> sequence.element(-1) == sequence.element(n - 1) && sequence.element(-1)
                == Some(items[n - 1])
            &&& n > 0 ==> sequence.element(-n) == sequence.element(0) && sequence.element(-n)
                == Some(items[0])
            &&& sequence.element(-(n + 1)) is None
            &&& sequence.element(n) is None
            &&& sequence.element(isize::MIN as int) is None
            &&& n < isize::MAX ==> sequence.element(isize::MAX as int) is None
            &&& forall|k: int|
                -n <= k < 0 ==> #[trigger] sequence.element(k) == sequence.element(n + k)
        }),
{
}

/// Only a map has children under keys, and only a sequence has children
/// at indices.
pub proof fn lemma_wrong_kind_selects_nothing(value: Value, key: Seq<char>, index: int)
    ensures
        !(value is Mapping) ==> value.child(key) is None,
        !(value is Sequence) ==> value.element(index) is None,
{
}

impl From<bool> for ACF {
    fn from(value: bool) -> (r: Self) {
        ACF::Boolean(value)
    }
}

impl vstd::std_specs::convert::FromSpecImpl<bool> for ACF {
    open spec fn obeys_from_spec() -> bool {
        true
    }

    open spec fn from_spec(value: bool) -> Self {
        ACF::Boolean(value)
    }
}

impl From<i64> for ACF {
    fn from(value: i64) -> (r: Self) {
        ACF::Integer(value)
    }
}

impl vstd::std_specs::convert::FromSpecImpl<i64> for ACF {
    open spec fn obeys_from_spec() -> bool {
        true
    }

    open spec fn from_spec(value: i64) -> Self {
        ACF::Integer(value)
    }
}

impl From<String> for ACF {
    fn from(value: String) -> (r: Self) {
        ACF::String(value)
    }
}

impl vstd::std_specs::convert::FromSpecImpl<String> for ACF {
    open spec fn obeys_from_spec() -> bool {
        true
    }

    open spec fn from_spec(value: String) -> Self {
        ACF::String(value)
    }
}

impl From<Vec<ACF>> for ACF {
    fn from(value: Vec<ACF>) -> (r: Self) {
        ACF::Sequence(value)
    }
}

impl vstd::std_specs::convert::FromSpecImpl<Vec<ACF>> for ACF {
    open spec fn obeys_from_spec() -> bool {
        true
    }

    open spec fn from_spec(value: Vec<ACF>) -> Self {
        ACF::Sequence(value)
    }
}

impl From<IndexMapWrapper<String, ACF>> for ACF {
    fn from(value: IndexMapWrapper<String, ACF>) -> (r: Self) {
        ACF::Mapping(value)
    }
}

impl vstd::std_specs::convert::FromSpecImpl<IndexMapWrapper<String, ACF>> for ACF {
    open spec fn obeys_from_spec() -> bool {
        true
    }

    open spec fn from_spec(value: IndexMapWrapper<String, ACF>) -> Self {
        ACF::Mapping(value)
    }
}

} // verus!
