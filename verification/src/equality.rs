//! Equality of value trees: sequences compare in order, maps compare as
//! maps whatever the order of their entries, and floats compare as totally
//! ordered floats do.
use crate::types::{distinct_keys, lemma_first_index_is, lookup};
use crate::{lemma_pair_views, lemma_value_views, Value, ACF};
use vstd::prelude::*;
use vstd::std_specs::cmp::PartialEqSpecImpl;

verus! {

/// The bit pattern is that of a NaN: all exponent bits set and a mantissa
/// that is not zero.
pub open spec fn is_nan_bits(bits: u64) -> bool {
    bits & 0x7ff0_0000_0000_0000 == 0x7ff0_0000_0000_0000 && bits & 0x000f_ffff_ffff_ffff != 0
}

/// The bit pattern is that of a zero, positive or negative.
pub open spec fn is_zero_bits(bits: u64) -> bool {
    bits & 0x7fff_ffff_ffff_ffff == 0
}

/// Two floats, given by their bits, are equal: both are NaN, or both are
/// zero, or they have the same bits.
pub open spec fn same_float(a: u64, b: u64) -> bool {
    if is_nan_bits(a) || is_nan_bits(b) {
        is_nan_bits(a) && is_nan_bits(b)
    } else {
        a == b || (is_zero_bits(a) && is_zero_bits(b))
    }
}

impl Value {
    /// Two values are equal: scalars of the same kind that are equal,
    /// sequences with equal elements in the same order, or maps of the same
    /// size where each key of the one has an equal value in the other.
    pub open spec fn same(self, other: Value) -> bool
        decreases self,
    {
        match (self, other) {
            (Value::String(a), Value::String(b)) => a == b,
            (Value::Integer(a), Value::Integer(b)) => a == b,
            (Value::Float(a), Value::Float(b)) => same_float(a, b),
            (Value::Boolean(a), Value::Boolean(b)) => a == b,
            (Value::Sequence(a), Value::Sequence(b)) => a.len() == b.len() && forall|i: int|
                0 <= i < a.len() ==> (#[trigger] a[i]).same(b[i]),
            (Value::Mapping(a), Value::Mapping(b)) => a.len() == b.len() && forall|i: int|
                0 <= i < a.len() ==> match lookup(b, (#[trigger] a[i]).0) {
                    Some(v) => a[i].1.same(v),
                    None => false,
                },
            _ => false,
        }
    }
}

impl Value {
    /// No map of the value, at any depth, has a key twice.
    pub open spec fn distinct(self) -> bool
        decreases self,
    {
        match self {
            Value::Sequence(items) => forall|i: int|
                0 <= i < items.len() ==> (#[trigger] items[i]).distinct(),
            Value::Mapping(entries) => distinct_keys(entries) && forall|i: int|
                0 <= i < entries.len() ==> (#[trigger] entries[i]).1.distinct(),
            _ => true,
        }
    }
}

/// A value whose maps have distinct keys is equal to itself.
pub proof fn lemma_same_reflexive(value: Value)
    requires
        value.distinct(),
    ensures
        value.same(value),
    decreases value,
{
    match value {
        Value::Sequence(items) => {
            assert forall|i: int| 0 <= i < items.len() implies (#[trigger] items[i]).same(
                items[i],
            ) by {
                lemma_same_reflexive(items[i]);
            }
        },
        Value::Mapping(entries) => {
            assert forall|i: int| 0 <= i < entries.len() implies match lookup(
                entries,
                (#[trigger] entries[i]).0,
            ) {
                Some(v) => entries[i].1.same(v),
                None => false,
            } by {
                assert forall|j: int| 0 <= j < i implies (#[trigger] entries[j]).0
                    != entries[i].0 by {}
                lemma_first_index_is(entries, entries[i].0, i);
                lemma_same_reflexive(entries[i].1);
            }
        },
        _ => {},
    }
}

fn float_bits_equal(a: u64, b: u64) -> (r: bool)
    ensures
        r == same_float(a, b),
{
    let a_nan: bool = a & 0x7ff0_0000_0000_0000 == 0x7ff0_0000_0000_0000 && a
        & 0x000f_ffff_ffff_ffff != 0;
    let b_nan: bool = b & 0x7ff0_0000_0000_0000 == 0x7ff0_0000_0000_0000 && b
        & 0x000f_ffff_ffff_ffff != 0;
    if a_nan || b_nan {
        a_nan && b_nan
    } else {
        a == b || (a & 0x7fff_ffff_ffff_ffff == 0 && b & 0x7fff_ffff_ffff_ffff == 0)
    }
}

impl ACF {
    /// Whether two value trees are equal.
    pub fn same(&self, other: &ACF) -> (r: bool)
        ensures
            r == self@.same(other@),
        decreases self,
    {
        match (self, other) {
            (ACF::String(a), ACF::String(b)) => *a == *b,
            (ACF::Integer(a), ACF::Integer(b)) => *a == *b,
            (ACF::Float(a), ACF::Float(b)) => float_bits_equal(*a, *b),
            (ACF::Boolean(a), ACF::Boolean(b)) => *a == *b,
            (ACF::Sequence(a), ACF::Sequence(b)) => {
                proof {
                    lemma_value_views(a@);
                    lemma_value_views(b@);
                }
                if a.len() != b.len() {
                    return false;
                }
                let mut i: usize = 0;
                while i < a.len()
                    invariant
                        i <= a.len(),
                        a.len() == b.len(),
                        self@ is Sequence,
                        other@ is Sequence,
                        self@->Sequence_0.len() == a@.len(),
                        other@->Sequence_0.len() == b@.len(),
                        forall|k: int|
                            0 <= k < a@.len() ==> (#[trigger] self@->Sequence_0[k]) == a@[k]@,
                        forall|k: int|
                            0 <= k < b@.len() ==> (#[trigger] other@->Sequence_0[k]) == b@[k]@,
                        forall|k: int| 0 <= k < a@.len() ==> decreases_to!(self => a@[k]),
                        forall|k: int|
                            0 <= k < i ==> (#[trigger] self@->Sequence_0[k]).same(
                                other@->Sequence_0[k],
                            ),
                    decreases a.len() - i,
                {
                    if !a[i].same(&b[i]) {
                        assert(!self@->Sequence_0[i as int].same(other@->Sequence_0[i as int]));
                        return false;
                    }
                    i += 1;
                }
                true
            },
            (ACF::Mapping(a), ACF::Mapping(b)) => {
                proof {
                    lemma_pair_views(a.entries@);
                    lemma_pair_views(b.entries@);
                }
                if a.len() != b.len() {
                    return false;
                }
                let mut i: usize = 0;
                while i < a.len()
                    invariant
                        i <= a.entries.len(),
                        a.entries@.len() == b.entries@.len(),
                        self@ is Mapping,
                        other@ is Mapping,
                        self@->Mapping_0.len() == a.entries@.len(),
                        other@->Mapping_0.len() == b.entries@.len(),
                        forall|k: int|
                            0 <= k < a.entries@.len() ==> (#[trigger] self@->Mapping_0[k]) == (
                                a.entries@[k].0@,
                                a.entries@[k].1@,
                            ),
                        forall|k: int|
                            0 <= k < a.entries@.len() ==> decreases_to!(self => a.entries@[k].1),
                        forall|k: int|
                            0 <= k < i ==> match lookup(
                                other@->Mapping_0,
                                (#[trigger] self@->Mapping_0[k]).0,
                            ) {
                                Some(v) => self@->Mapping_0[k].1.same(v),
                                None => false,
                            },
                    decreases a.entries.len() - i,
                {
                    let equal: bool = match other.get(a.entries[i].0.as_str()) {
                        Some(value) => a.entries[i].1.same(value),
                        None => false,
                    };
                    if !equal {
                        assert(match lookup(other@->Mapping_0, self@->Mapping_0[i as int].0) {
                            Some(v) => !self@->Mapping_0[i as int].1.same(v),
                            None => true,
                        });
                        return false;
                    }
                    i += 1;
                }
                true
            },
            _ => false,
        }
    }
}

impl PartialEq for ACF {
    fn eq(&self, other: &Self) -> (r: bool) {
        self.same(other)
    }
}

impl PartialEqSpecImpl for ACF {
    open spec fn obeys_eq_spec() -> bool {
        true
    }

    open spec fn eq_spec(&self, other: &Self) -> bool {
        self@.same(other@)
    }
}

impl Eq for ACF {

}

} // verus!
