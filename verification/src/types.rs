//! Spans into the source text and the insertion-ordered map that both trees
//! keep their keyed children in.
use vstd::prelude::*;

verus! {

/// A half-open range of character offsets into the source text.
#[derive(Clone, Copy, Debug, PartialEq, Eq, Structural)]
pub struct Span {
    pub start: usize,
    pub end: usize,
}

impl Span {
    /// The characters of `text` that the span covers.
    pub open spec fn of(self, text: Seq<char>) -> Seq<char> {
        text.subrange(self.start as int, self.end as int)
    }

    /// The span lies inside a text of `len` characters.
    pub open spec fn within(self, len: nat) -> bool {
        self.start <= self.end <= len
    }

    /// `self` covers every offset that `inner` covers.
    pub open spec fn encloses(self, inner: Span) -> bool {
        self.start <= inner.start && inner.end <= self.end
    }
}

/// The index of the first entry of `entries` under `key`, or the length of
/// `entries` where there is none.
pub open spec fn first_index<V>(entries: Seq<(Seq<char>, V)>, key: Seq<char>) -> int
    decreases entries.len(),
{
    if entries.len() == 0 {
        0
    } else if entries[0].0 == key {
        0
    } else {
        1 + first_index(entries.drop_first(), key)
    }
}

/// The value that an ordered map with these entries holds under `key`.
pub open spec fn lookup<V>(entries: Seq<(Seq<char>, V)>, key: Seq<char>) -> Option<V> {
    let i = first_index(entries, key);
    if i < entries.len() {
        Some(entries[i].1)
    } else {
        None
    }
}

/// The entries of an ordered map after `value` was stored under `key`: a
/// key that is present keeps its place and takes the new value, a new key
/// goes to the end.
pub open spec fn inserted<V>(entries: Seq<(Seq<char>, V)>, key: Seq<char>, value: V) -> Seq<
    (Seq<char>, V),
> {
    let i = first_index(entries, key);
    if i < entries.len() {
        entries.update(i, (key, value))
    } else {
        entries.push((key, value))
    }
}

/// No key occurs twice among the entries.
pub open spec fn distinct_keys<V>(entries: Seq<(Seq<char>, V)>) -> bool {
    forall|i: int, j: int|
        0 <= i < j < entries.len() ==> (#[trigger] entries[i]).0 != (#[trigger] entries[j]).0
}

/// `first_index` is in range, points at an entry under the key when it is
/// inside the entries, and no earlier entry has the key.
pub proof fn lemma_first_index<V>(entries: Seq<(Seq<char>, V)>, key: Seq<char>)
    ensures
        0 <= first_index(entries, key) <= entries.len(),
        first_index(entries, key) < entries.len() ==> entries[first_index(entries, key)].0 == key,
        forall|j: int| 0 <= j < first_index(entries, key) ==> (#[trigger] entries[j]).0 != key,
    decreases entries.len(),
{
    if entries.len() > 0 && entries[0].0 != key {
        let rest = entries.drop_first();
        lemma_first_index(rest, key);
        assert forall|j: int| 0 <= j < first_index(entries, key) implies (#[trigger] entries[j]).0
            != key by {
            if j > 0 {
                assert(rest[j - 1] == entries[j]);
            }
        }
    }
}

/// An index whose entry has the key, with no such entry before it, is the
/// first index; with no such entry at all, the first index is the length.
pub proof fn lemma_first_index_is<V>(entries: Seq<(Seq<char>, V)>, key: Seq<char>, i: int)
    requires
        0 <= i <= entries.len(),
        forall|j: int| 0 <= j < i ==> (#[trigger] entries[j]).0 != key,
        i < entries.len() ==> entries[i].0 == key,
    ensures
        first_index(entries, key) == i,
{
    lemma_first_index(entries, key);
    let f = first_index(entries, key);
    if f < i {
        assert(entries[f].0 != key);
    }
}

/// An insertion-ordered map: its entries lie in the order in which their
/// keys were first inserted. A map that is only filled by `insert` has no
/// key twice. (`==` compares the entries in their order; value trees
/// compare their maps whatever the order, see `equality`.)
#[derive(Debug, PartialEq, Eq)]
pub struct IndexMapWrapper<K, V> {
    pub entries: Vec<(K, V)>,
}

impl<K, V> IndexMapWrapper<K, V> {
    /// The empty map.
    pub fn new() -> (m: Self)
        ensures
            m.entries@ == Seq::<(K, V)>::empty(),
    {
        IndexMapWrapper { entries: Vec::new() }
    }

    /// The number of entries.
    pub fn len(&self) -> (n: usize)
        ensures
            n == self.entries@.len(),
    {
        self.entries.len()
    }
}

impl<V> IndexMapWrapper<Span, V> {
    /// Adds an entry at the end. The spans of a text's tokens are
    /// distinct, so the key is not looked for.
    pub fn append(&mut self, key: Span, value: V)
        ensures
            final(self).entries@ == old(self).entries@.push((key, value)),
    {
        self.entries.push((key, value));
    }
}

impl<V> View for IndexMapWrapper<String, V> {
    type V = Seq<(Seq<char>, V)>;

    open spec fn view(&self) -> Seq<(Seq<char>, V)> {
        Seq::new(self.entries@.len(), |i: int| (self.entries@[i].0@, self.entries@[i].1))
    }
}

impl<V> IndexMapWrapper<String, V> {
    /// The position of the first entry under `key`, or the number of
    /// entries where there is none.
    pub fn position(&self, key: &str) -> (i: usize)
        ensures
            i == first_index(self@, key@),
            i <= self.entries@.len(),
    {
        let wanted: String = key.to_owned();
        let n: usize = self.entries.len();
        let mut i: usize = 0;
        while i < n
            invariant
                n == self.entries@.len(),
                i <= n,
                wanted@ == key@,
                forall|j: int| 0 <= j < i ==> (#[trigger] self@[j]).0 != key@,
            decreases n - i,
        {
            if self.entries[i].0 == wanted {
                proof {
                    lemma_first_index_is(self@, key@, i as int);
                }
                return i;
            }
            i += 1;
        }
        proof {
            lemma_first_index_is(self@, key@, n as int);
        }
        n
    }

    /// The value stored under `key`.
    pub fn get(&self, key: &str) -> (r: Option<&V>)
        ensures
            match r {
                Some(v) => lookup(self@, key@) == Some(*v),
                None => lookup(self@, key@) is None,
            },
    {
        let i: usize = self.position(key);
        if i < self.entries.len() {
            Some(&self.entries[i].1)
        } else {
            None
        }
    }

    /// Stores `value` under `key`: in the place of the entry that has the
    /// key, or at the end where no entry has it.
    pub fn insert(&mut self, key: String, value: V)
        ensures
            final(self)@ == inserted(old(self)@, key@, value),
            distinct_keys(old(self)@) ==> distinct_keys(final(self)@),
    {
        let i: usize = self.position(key.as_str());
        proof {
            lemma_first_index(self@, key@);
        }
        if i < self.entries.len() {
            self.entries.set(i, (key, value));
            assert(self@ =~= inserted(old(self)@, key@, value));
        } else {
            self.entries.push((key, value));
            assert(self@ =~= inserted(old(self)@, key@, value));
        }
        proof {
            let a = old(self)@;
            let b = self@;
            if distinct_keys(a) {
                assert forall|x: int, y: int| 0 <= x < y < b.len() implies (#[trigger] b[x]).0 != (
                #[trigger] b[y]).0 by {
                    if y < a.len() {
                        assert(a[x].0 != a[y].0);
                    } else {
                        assert(a[x].0 != key@);
                    }
                }
            }
        }
    }
}

/// A float literal that was decoded outside the library: the span of its
/// text and the bit pattern of the 64-bit float that it denotes.
#[derive(Clone, Copy, Debug, PartialEq, Eq, Structural)]
pub struct FloatLiteral {
    pub span: Span,
    pub bits: u64,
}

/// The bits of the first literal at or after index `from` that covers
/// exactly `span`.
pub open spec fn float_from(floats: Seq<FloatLiteral>, span: Span, from: int) -> Option<u64>
    decreases floats.len() - from,
{
    if !(0 <= from < floats.len()) {
        None
    } else if floats[from].span == span {
        Some(floats[from].bits)
    } else {
        float_from(floats, span, from + 1)
    }
}

/// The bits of the first literal of the table that covers exactly `span`.
pub open spec fn float_at(floats: Seq<FloatLiteral>, span: Span) -> Option<u64> {
    float_from(floats, span, 0)
}

/// Looks a span up in a table of float literals.
pub fn find_float(floats: &Vec<FloatLiteral>, span: Span) -> (r: Option<u64>)
    ensures
        r == float_at(floats@, span),
{
    let mut i: usize = 0;
    while i < floats.len()
        invariant
            i <= floats.len(),
            float_at(floats@, span) == float_from(floats@, span, i as int),
        decreases floats.len() - i,
    {
        if floats[i].span.start == span.start && floats[i].span.end == span.end {
            return Some(floats[i].bits);
        }
        i += 1;
    }
    None
}

/// After a value was stored under a key, the map holds that value under
/// the key, what it held under every other key, and as many entries as
/// before or one more; keys that were distinct stay distinct.
pub proof fn lemma_lookup_inserted<V>(
    entries: Seq<(Seq<char>, V)>,
    key: Seq<char>,
    value: V,
    other: Seq<char>,
)
    ensures
        lookup(inserted(entries, key, value), key) == Some(value),
        other != key ==> lookup(inserted(entries, key, value), other) == lookup(entries, other),
        lookup(entries, key) is Some ==> inserted(entries, key, value).len() == entries.len(),
        lookup(entries, key) is None ==> inserted(entries, key, value).len() == entries.len() + 1,
        distinct_keys(entries) ==> distinct_keys(inserted(entries, key, value)),
{
    let after = inserted(entries, key, value);
    lemma_first_index(entries, key);
    lemma_first_index(entries, other);
    let i = first_index(entries, key);
    lemma_first_index_is(after, key, i);
    if other != key {
        let j = first_index(entries, other);
        assert forall|k: int| 0 <= k < j implies (#[trigger] after[k]).0 != other by {
            if k < entries.len() && k != i {
                assert(entries[k].0 != other);
            }
        }
        if j < entries.len() {
            lemma_first_index_is(after, other, j);
        } else {
            lemma_first_index_is(after, other, after.len() as int);
        }
    }
    if distinct_keys(entries) {
        assert forall|x: int, y: int| 0 <= x < y < after.len() implies (#[trigger] after[x]).0 != (
        #[trigger] after[y]).0 by {
            if y < entries.len() {
                assert(entries[x].0 != entries[y].0);
            } else {
                assert(entries[x].0 != key);
            }
        }
    }
}

} // verus!
