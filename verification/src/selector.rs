//! Paths into a value tree: native paths of keys and indices, and JSON
//! Pointers, which are parsed into native paths.
use crate::text::{characters, string_of};
use crate::{Value, ACF};
use vstd::prelude::*;

verus! {

/// One step of a path: the key of a map entry, or the index of a sequence
/// element (from the back where it is negative).
#[derive(Debug, PartialEq, Eq)]
pub enum KeyIndexRef {
    String(String),
    Integer(isize),
}

/// The mathematical value of a step.
pub enum Step {
    Key(Seq<char>),
    Index(int),
}

impl View for KeyIndexRef {
    type V = Step;

    open spec fn view(&self) -> Step {
        match self {
            KeyIndexRef::String(key) => Step::Key(key@),
            KeyIndexRef::Integer(index) => Step::Index(*index as int),
        }
    }
}

/// The views of the steps of a path.
pub open spec fn steps(path: Seq<KeyIndexRef>) -> Seq<Step> {
    Seq::new(path.len(), |i: int| path[i]@)
}

/// The child of `value` that one step leads to.
pub open spec fn step_into(value: Value, step: Step) -> Option<Value> {
    match step {
        Step::Key(key) => value.child(key),
        Step::Index(index) => value.element(index),
    }
}

/// The value that a path leads to from `value`: the value itself for the
/// empty path; nothing as soon as one step leads nowhere.
pub open spec fn select(value: Value, path: Seq<Step>) -> Option<Value>
    decreases path.len(),
{
    if path.len() == 0 {
        Some(value)
    } else {
        match step_into(value, path[0]) {
            Some(child) => select(child, path.drop_first()),
            None => None,
        }
    }
}

/// Walks a path from `config`.
pub fn selector<'a>(config: &'a ACF, path: &[KeyIndexRef]) -> (r: Option<&'a ACF>)
    ensures
        match r {
            Some(found) => select(config@, steps(path@)) == Some(found@),
            None => select(config@, steps(path@)) is None,
        },
{
    let mut current: &ACF = config;
    let mut i: usize = 0;
    let ghost views = steps(path@);
    assert(views.skip(0) =~= views);
    while i < path.len()
        invariant
            i <= path.len(),
            views == steps(path@),
            select(config@, views) == select(current@, views.skip(i as int)),
        decreases path.len() - i,
    {
        proof {
            assert(views.skip(i as int)[0] == path@[i as int]@);
            assert(views.skip(i as int).drop_first() =~= views.skip(i + 1));
        }
        let next = match &path[i] {
            KeyIndexRef::String(key) => current.get(key.as_str()),
            KeyIndexRef::Integer(index) => current.get_index(*index),
        };
        match next {
            Some(child) => {
                current = child;
            },
            None => {
                return None;
            },
        }
        i += 1;
    }
    Some(current)
}

// ------------------------------------------------------------ JSON Pointer

/// A decimal digit.
pub open spec fn is_digit(c: char) -> bool {
    '0' <= c <= '9'
}

/// The number that a run of decimal digits denotes.
pub open spec fn digits_value(digits: Seq<char>) -> int
    decreases digits.len(),
{
    if digits.len() == 0 {
        0
    } else {
        digits_value(digits.drop_last()) * 10 + (digits.last() as int - '0' as int)
    }
}

/// At least one character, and decimal digits only.
pub open spec fn all_digits(digits: Seq<char>) -> bool {
    digits.len() > 0 && forall|i: int| 0 <= i < digits.len() ==> is_digit(#[trigger] digits[i])
}

/// The index that a segment denotes: a run of decimal digits, which a
/// sign may precede, whose value fits the index type and is not negative.
/// So a minus sign is taken only before zero.
pub open spec fn segment_index(segment: Seq<char>) -> Option<int> {
    let signed = segment.len() > 0 && (segment[0] == '+' || segment[0] == '-');
    let digits = if signed {
        segment.skip(1)
    } else {
        segment
    };
    if !all_digits(digits) {
        None
    } else if segment[0] == '-' {
        if digits_value(digits) == 0 {
            Some(0)
        } else {
            None
        }
    } else if digits_value(digits) <= isize::MAX {
        Some(digits_value(digits))
    } else {
        None
    }
}

/// `text` with each `first second` pair replaced by `with`, from left to
/// right, a replaced pair not being looked at again.
pub open spec fn replace_pair(text: Seq<char>, first: char, second: char, with: char) -> Seq<char>
    decreases text.len(),
{
    if text.len() == 0 {
        text
    } else if text.len() >= 2 && text[0] == first && text[1] == second {
        seq![with] + replace_pair(text.skip(2), first, second, with)
    } else {
        seq![text[0]] + replace_pair(text.skip(1), first, second, with)
    }
}

/// The text that a segment of a pointer stands for: `~1` becomes `/`, and
/// after that `~0` becomes `~`.
pub open spec fn unescape_segment(segment: Seq<char>) -> Seq<char> {
    replace_pair(replace_pair(segment, '~', '1', '/'), '~', '0', '~')
}

/// The step that a segment of a pointer stands for: an index where its
/// unescaped text denotes one, else a key.
pub open spec fn segment_step(segment: Seq<char>) -> Step {
    let plain = unescape_segment(segment);
    match segment_index(plain) {
        Some(index) => Step::Index(index),
        None => Step::Key(plain),
    }
}

/// The first offset at or after `i` that holds a slash.
pub open spec fn segment_end(s: Seq<char>, i: int) -> int
    decreases s.len() - i,
{
    if 0 <= i < s.len() && s[i] != '/' {
        segment_end(s, i + 1)
    } else {
        i
    }
}

/// The steps of the segments of `s` from offset `i` on, where `i` follows
/// a slash.
pub open spec fn segments(s: Seq<char>, i: int) -> Seq<Step>
    decreases s.len() - i,
{
    let e = segment_end(s, i);
    let step = segment_step(s.subrange(i, e));
    if i <= e < s.len() {
        seq![step] + segments(s, e + 1)
    } else {
        seq![step]
    }
}

/// The path that a JSON Pointer stands for: the empty path for the empty
/// text, nothing for a text that does not start with a slash, else one
/// step for each segment between slashes.
pub open spec fn spec_pointer(s: Seq<char>) -> Option<Seq<Step>> {
    if s.len() == 0 {
        Some(Seq::empty())
    } else if s[0] != '/' {
        None
    } else {
        Some(segments(s, 1))
    }
}

/// The value that a JSON Pointer leads to from `value`.
pub open spec fn select_by_pointer(value: Value, pointer: Seq<char>) -> Option<Value> {
    match spec_pointer(pointer) {
        Some(path) => select(value, path),
        None => None,
    }
}

fn replace_pairs(text: &Vec<char>, first: char, second: char, with: char) -> (r: Vec<char>)
    ensures
        r@ == replace_pair(text@, first, second, with),
{
    let mut out: Vec<char> = Vec::new();
    let mut i: usize = 0;
    assert(text@.skip(0) =~= text@);
    assert(out@ + replace_pair(text@, first, second, with) =~= replace_pair(
        text@,
        first,
        second,
        with,
    ));
    while i < text.len()
        invariant
            i <= text.len(),
            out@ + replace_pair(text@.skip(i as int), first, second, with) == replace_pair(
                text@,
                first,
                second,
                with,
            ),
        decreases text.len() - i,
    {
        let ghost rest = text@.skip(i as int);
        let ghost before = out@;
        if i + 1 < text.len() && text[i] == first && text[i + 1] == second {
            out.push(with);
            proof {
                assert(rest.skip(2) =~= text@.skip(i + 2));
                assert(before.push(with) + replace_pair(text@.skip(i + 2), first, second, with)
                    =~= before + (seq![with] + replace_pair(rest.skip(2), first, second, with)));
            }
            i += 2;
        } else {
            out.push(text[i]);
            proof {
                assert(rest.skip(1) =~= text@.skip(i + 1));
                assert(before.push(rest[0]) + replace_pair(
                    text@.skip(i + 1),
                    first,
                    second,
                    with,
                ) =~= before + (seq![rest[0]] + replace_pair(rest.skip(1), first, second, with)));
            }
            i += 1;
        }
    }
    assert(out@ + Seq::<char>::empty() =~= out@);
    out
}

proof fn lemma_digits_nonnegative(digits: Seq<char>)
    requires
        forall|i: int| 0 <= i < digits.len() ==> is_digit(#[trigger] digits[i]),
    ensures
        0 <= digits_value(digits),
    decreases digits.len(),
{
    if digits.len() > 0 {
        lemma_digits_nonnegative(digits.drop_last());
        assert(is_digit(digits[digits.len() - 1]));
    }
}

/// Reads a segment as an index.
pub fn parse_index(segment: &Vec<char>) -> (r: Option<isize>)
    ensures
        match r {
            Some(index) => segment_index(segment@) == Some(index as int),
            None => segment_index(segment@) is None,
        },
{
    let n: usize = segment.len();
    if n == 0 {
        return None;
    }
    let signed: bool = segment[0] == '+' || segment[0] == '-';
    let negative: bool = segment[0] == '-';
    let from: usize = if signed {
        1
    } else {
        0
    };
    let ghost digits = if signed {
        segment@.skip(1)
    } else {
        segment@
    };
    assert(digits =~= segment@.skip(from as int));
    if from == n {
        return None;
    }
    let mut value: isize = 0;
    let mut overflow: bool = false;
    let mut i: usize = from;
    assert(digits.take(0) =~= Seq::<char>::empty());
    while i < n
        invariant
            from <= i <= n,
            n == segment@.len(),
            digits == segment@.skip(from as int),
            signed == (segment@[0] == '+' || segment@[0] == '-'),
            negative == (segment@[0] == '-'),
            from == (if signed {
                1usize
            } else {
                0usize
            }),
            forall|k: int| 0 <= k < i - from ==> is_digit(#[trigger] digits[k]),
            !overflow ==> value == digits_value(digits.take(i - from)),
            overflow ==> digits_value(digits.take(i - from)) > isize::MAX,
            0 <= value,
        decreases n - i,
    {
        let c: char = segment[i];
        if !('0' <= c && c <= '9') {
            assert(!is_digit(digits[i - from]));
            return None;
        }
        let d: isize = (c as u32 - '0' as u32) as isize;
        proof {
            assert(digits.take(i - from + 1).drop_last() =~= digits.take(i - from));
            assert(digits.take(i - from + 1).last() == c);
        }
        if !overflow {
            if value > (isize::MAX - d) / 10 {
                overflow = true;
            } else {
                value = value * 10 + d;
            }
        }
        i += 1;
    }
    assert(digits.take(n - from) =~= digits);
    if negative {
        if !overflow && value == 0 {
            Some(0)
        } else {
            None
        }
    } else if overflow {
        None
    } else {
        Some(value)
    }
}

fn segment_to_step(segment: &Vec<char>) -> (r: KeyIndexRef)
    ensures
        r@ == segment_step(segment@),
{
    let first = replace_pairs(segment, '~', '1', '/');
    let plain = replace_pairs(&first, '~', '0', '~');
    match parse_index(&plain) {
        Some(index) => KeyIndexRef::Integer(index),
        None => KeyIndexRef::String(string_of(&plain)),
    }
}

/// Parses a JSON Pointer into a path.
pub fn parse_json_pointer(input: &str) -> (r: Option<Vec<KeyIndexRef>>)
    ensures
        match r {
            Some(path) => spec_pointer(input@) == Some(steps(path@)),
            None => spec_pointer(input@) is None,
        },
{
    let chars: Vec<char> = characters(input);
    if chars.len() == 0 {
        let path: Vec<KeyIndexRef> = Vec::new();
        assert(steps(path@) =~= Seq::<Step>::empty());
        return Some(path);
    }
    if chars[0] != '/' {
        return None;
    }
    let mut path: Vec<KeyIndexRef> = Vec::new();
    let mut i: usize = 1;
    assert(steps(path@) + segments(chars@, 1) =~= segments(chars@, 1));
    loop
        invariant
            1 <= i <= chars.len(),
            chars@ == input@,
            chars@[0] == '/',
            steps(path@) + segments(chars@, i as int) == segments(chars@, 1),
        decreases chars.len() - i,
    {
        let mut segment: Vec<char> = Vec::new();
        let mut e: usize = i;
        assert(chars@.subrange(i as int, i as int) =~= segment@);
        while e < chars.len() && chars[e] != '/'
            invariant
                i <= e <= chars.len(),
                segment_end(chars@, i as int) == segment_end(chars@, e as int),
                segment@ == chars@.subrange(i as int, e as int),
            decreases chars.len() - e,
        {
            segment.push(chars[e]);
            assert(chars@.subrange(i as int, e as int).push(chars@[e as int]) =~= chars@.subrange(
                i as int,
                e + 1,
            ));
            e += 1;
        }
        let step = segment_to_step(&segment);
        let ghost before = steps(path@);
        path.push(step);
        assert(steps(path@) =~= before.push(step@));
        if e < chars.len() {
            assert(before.push(step@) + segments(chars@, e + 1) =~= before + (seq![step@]
                + segments(chars@, e + 1)));
            i = e + 1;
        } else {
            assert(segment_end(chars@, e as int) == e);
            assert(segments(chars@, i as int) == seq![step@]);
            assert(before.push(step@) =~= before + seq![step@]);
            return Some(path);
        }
    }
}

// -------------------------------------------------------------------- laws

/// A pointer leads where its path leads.
pub proof fn lemma_pointer_is_path(value: Value, pointer: Seq<char>)
    ensures
        match spec_pointer(pointer) {
            Some(path) => select_by_pointer(value, pointer) == select(value, path),
            None => select_by_pointer(value, pointer) is None,
        },
{
}

/// A segment never denotes a negative index.
pub proof fn lemma_segment_index_nonnegative(segment: Seq<char>)
    ensures
        segment_index(segment) is Some ==> 0 <= segment_index(segment)->Some_0 <= isize::MAX,
{
    let signed = segment.len() > 0 && (segment[0] == '+' || segment[0] == '-');
    let digits = if signed {
        segment.skip(1)
    } else {
        segment
    };
    if all_digits(digits) {
        lemma_digits_nonnegative(digits);
    }
}

/// The segments from `i` on give at least one step, and no negative index.
pub proof fn lemma_segments_nonnegative(s: Seq<char>, i: int)
    ensures
        segments(s, i).len() >= 1,
        forall|k: int|
            0 <= k < segments(s, i).len() ==> (#[trigger] segments(s, i)[k] matches Step::Index(n)
                ==> 0 <= n <= isize::MAX),
    decreases s.len() - i,
{
    let e = segment_end(s, i);
    lemma_segment_index_nonnegative(unescape_segment(s.subrange(i, e)));
    if i <= e < s.len() {
        lemma_segments_nonnegative(s, e + 1);
    }
}

/// No step of a JSON Pointer is a negative index: a segment such as `-1`
/// is a key, and so leads nowhere in a sequence.
pub proof fn lemma_pointer_indices_nonnegative(pointer: Seq<char>)
    ensures
        match spec_pointer(pointer) {
            Some(path) => forall|k: int|
                0 <= k < path.len() ==> (#[trigger] path[k] matches Step::Index(n) ==> 0 <= n
                    <= isize::MAX),
            None => true,
        },
{
    if pointer.len() > 0 && pointer[0] == '/' {
        lemma_segments_nonnegative(pointer, 1);
    }
}

/// A minus sign before digits that are not all zero is no index but a
/// key; so a pointer whose last segment it is leads nowhere in a sequence,
/// whatever the sequence holds.
pub proof fn lemma_negative_segment_is_key(items: Seq<Value>, digits: Seq<char>)
    requires
        all_digits(digits),
        digits_value(digits) != 0,
    ensures
        segment_step(seq!['-'] + digits) == Step::Key(seq!['-'] + digits),
        select_by_pointer(Value::Sequence(items), seq!['/', '-'] + digits) is None,
{
    let segment = seq!['-'] + digits;
    let pointer = seq!['/', '-'] + digits;
    assert forall|k: int| 0 <= k < segment.len() implies segment[k] != '~' && segment[k]
        != '/' by {
        if k > 0 {
            assert(is_digit(digits[k - 1]));
        }
    }
    lemma_replace_nothing(segment, '~', '1', '/');
    lemma_replace_nothing(segment, '~', '0', '~');
    assert(segment.skip(1) =~= digits);
    assert forall|k: int| 1 <= k < pointer.len() implies pointer[k] != '/' by {
        assert(pointer[k] == segment[k - 1]);
    }
    lemma_segment_end(pointer, 1, pointer.len() as int);
    assert(pointer.subrange(1, pointer.len() as int) =~= segment);
    assert(segments(pointer, 1) == seq![Step::Key(segment)]);
}

/// A text without the character `first` has nothing to replace.
pub proof fn lemma_replace_nothing(text: Seq<char>, first: char, second: char, with: char)
    requires
        forall|i: int| 0 <= i < text.len() ==> text[i] != first,
    ensures
        replace_pair(text, first, second, with) == text,
    decreases text.len(),
{
    if text.len() > 0 {
        lemma_replace_nothing(text.skip(1), first, second, with);
        assert(seq![text[0]] + text.skip(1) =~= text);
    }
}

/// A segment without a slash ends where the text ends or the next slash
/// stands.
pub proof fn lemma_segment_end(s: Seq<char>, i: int, e: int)
    requires
        0 <= i <= e <= s.len(),
        forall|k: int| i <= k < e ==> s[k] != '/',
        e < s.len() ==> s[e] == '/',
    ensures
        segment_end(s, i) == e,
    decreases e - i,
{
    if i < e {
        lemma_segment_end(s, i + 1, e);
    }
}

/// The segment that stands for a key: `~` written as `~0` and `/` as `~1`.
pub open spec fn escape_segment(key: Seq<char>) -> Seq<char>
    decreases key.len(),
{
    if key.len() == 0 {
        key
    } else if key[0] == '~' {
        seq!['~', '0'] + escape_segment(key.skip(1))
    } else if key[0] == '/' {
        seq!['~', '1'] + escape_segment(key.skip(1))
    } else {
        seq![key[0]] + escape_segment(key.skip(1))
    }
}

/// A key with only its `~` escaped.
pub open spec fn escape_tilde(key: Seq<char>) -> Seq<char>
    decreases key.len(),
{
    if key.len() == 0 {
        key
    } else if key[0] == '~' {
        seq!['~', '0'] + escape_tilde(key.skip(1))
    } else {
        seq![key[0]] + escape_tilde(key.skip(1))
    }
}

proof fn lemma_first_pass(key: Seq<char>)
    ensures
        replace_pair(escape_segment(key), '~', '1', '/') == escape_tilde(key),
        forall|i: int| 0 <= i < escape_segment(key).len() ==> escape_segment(key)[i] != '/',
    decreases key.len(),
{
    if key.len() > 0 {
        let rest = escape_segment(key.skip(1));
        lemma_first_pass(key.skip(1));
        let text = escape_segment(key);
        if key[0] == '~' {
            assert(text =~= seq!['~', '0'] + rest);
            let tail = text.skip(1);
            assert(tail =~= seq!['0'] + rest);
            assert(tail.skip(1) =~= rest);
            assert(replace_pair(tail, '~', '1', '/') == seq!['0'] + replace_pair(
                rest,
                '~',
                '1',
                '/',
            ));
            assert(replace_pair(text, '~', '1', '/') == seq!['~'] + replace_pair(
                tail,
                '~',
                '1',
                '/',
            ));
            assert(seq!['~'] + (seq!['0'] + escape_tilde(key.skip(1))) =~= seq!['~', '0']
                + escape_tilde(key.skip(1)));
        } else if key[0] == '/' {
            assert(text =~= seq!['~', '1'] + rest);
            assert(text.skip(2) =~= rest);
            assert(replace_pair(text, '~', '1', '/') == seq!['/'] + replace_pair(
                rest,
                '~',
                '1',
                '/',
            ));
        } else {
            assert(text =~= seq![key[0]] + rest);
            assert(text.skip(1) =~= rest);
            assert(replace_pair(text, '~', '1', '/') == seq![key[0]] + replace_pair(
                rest,
                '~',
                '1',
                '/',
            ));
        }
    }
}

proof fn lemma_second_pass(key: Seq<char>)
    ensures
        replace_pair(escape_tilde(key), '~', '0', '~') == key,
    decreases key.len(),
{
    if key.len() > 0 {
        let rest = escape_tilde(key.skip(1));
        lemma_second_pass(key.skip(1));
        let text = escape_tilde(key);
        if key[0] == '~' {
            assert(text =~= seq!['~', '0'] + rest);
            assert(text.skip(2) =~= rest);
            assert(replace_pair(text, '~', '0', '~') == seq!['~'] + replace_pair(
                rest,
                '~',
                '0',
                '~',
            ));
        } else {
            assert(text =~= seq![key[0]] + rest);
            assert(text.skip(1) =~= rest);
            assert(replace_pair(text, '~', '0', '~') == seq![key[0]] + replace_pair(
                rest,
                '~',
                '0',
                '~',
            ));
        }
        assert(seq![key[0]] + key.skip(1) =~= key);
    }
}

/// Escaping a key and unescaping the segment gives the key back, and the
/// segment holds no slash.
pub proof fn lemma_escape_round_trip(key: Seq<char>)
    ensures
        unescape_segment(escape_segment(key)) == key,
        forall|i: int| 0 <= i < escape_segment(key).len() ==> escape_segment(key)[i] != '/',
{
    lemma_first_pass(key);
    lemma_second_pass(key);
}

/// Every key of a map can be addressed by a pointer: the pointer made of
/// a slash and the escaped key leads to the child under the key, also
/// where the key holds `/` or `~`. (A key that reads as an index is an
/// index step, and leads nowhere in a map.)
pub proof fn lemma_escaped_key_addressable(value: Value, key: Seq<char>)
    requires
        segment_index(key) is None,
    ensures
        spec_pointer(seq!['/'] + escape_segment(key)) == Some(seq![Step::Key(key)]),
        select_by_pointer(value, seq!['/'] + escape_segment(key)) == value.child(key),
{
    let segment = escape_segment(key);
    let pointer = seq!['/'] + segment;
    lemma_escape_round_trip(key);
    assert forall|k: int| 1 <= k < pointer.len() implies pointer[k] != '/' by {
        assert(pointer[k] == segment[k - 1]);
    }
    lemma_segment_end(pointer, 1, pointer.len() as int);
    assert(pointer.subrange(1, pointer.len() as int) =~= segment);
    let path = seq![Step::Key(key)];
    assert(segments(pointer, 1) == path);
    assert(path.drop_first() =~= Seq::<Step>::empty());
    assert(select(value, path) == match step_into(value, path[0]) {
        Some(child) => select(child, path.drop_first()),
        None => None,
    });
}

/// A key that holds a slash or a tilde is no index, so the pointer made of
/// a slash and the escaped key leads to the child under that key.
pub proof fn lemma_key_with_slash_or_tilde(value: Value, key: Seq<char>, at: int)
    requires
        0 <= at < key.len(),
        key[at] == '/' || key[at] == '~',
    ensures
        segment_index(key) is None,
        select_by_pointer(value, seq!['/'] + escape_segment(key)) == value.child(key),
{
    let signed = key[0] == '+' || key[0] == '-';
    let digits = if signed {
        key.skip(1)
    } else {
        key
    };
    if signed {
        assert(at > 0);
        assert(!is_digit(digits[at - 1]));
    } else {
        assert(!is_digit(digits[at]));
    }
    lemma_escaped_key_addressable(value, key);
}

/// A pointer of a plain key and a decimal index is the native path of
/// that key and that index.
pub proof fn lemma_key_and_index_pointer(value: Value, key: Seq<char>, digits: Seq<char>)
    requires
        forall|i: int| 0 <= i < key.len() ==> key[i] != '/' && key[i] != '~',
        segment_index(key) is None,
        all_digits(digits),
        digits_value(digits) <= isize::MAX,
    ensures
        spec_pointer(seq!['/'] + key + seq!['/'] + digits) == Some(
            seq![Step::Key(key), Step::Index(digits_value(digits))],
        ),
        select_by_pointer(value, seq!['/'] + key + seq!['/'] + digits) == select(
            value,
            seq![Step::Key(key), Step::Index(digits_value(digits))],
        ),
{
    let pointer = seq!['/'] + key + seq!['/'] + digits;
    let middle = 1 + key.len() as int;
    assert forall|k: int| 1 <= k < middle implies pointer[k] != '/' by {
        assert(pointer[k] == key[k - 1]);
    }
    assert(pointer[middle] == '/');
    lemma_segment_end(pointer, 1, middle);
    assert(pointer.subrange(1, middle) =~= key);
    lemma_replace_nothing(key, '~', '1', '/');
    lemma_replace_nothing(key, '~', '0', '~');
    assert forall|k: int| middle + 1 <= k < pointer.len() implies pointer[k] != '/' by {
        assert(pointer[k] == digits[k - middle - 1]);
        assert(is_digit(digits[k - middle - 1]));
    }
    lemma_segment_end(pointer, middle + 1, pointer.len() as int);
    assert(pointer.subrange(middle + 1, pointer.len() as int) =~= digits);
    assert forall|k: int| 0 <= k < digits.len() implies digits[k] != '~' by {
        assert(is_digit(digits[k]));
    }
    lemma_replace_nothing(digits, '~', '1', '/');
    lemma_replace_nothing(digits, '~', '0', '~');
    assert(is_digit(digits[0]));
    assert(segment_index(digits) == Some(digits_value(digits)));
    assert(segments(pointer, middle + 1) == seq![Step::Index(digits_value(digits))]);
    assert(segments(pointer, 1) == seq![Step::Key(key)] + segments(pointer, middle + 1));
    assert(seq![Step::Key(key)] + seq![Step::Index(digits_value(digits))] =~= seq![
        Step::Key(key),
        Step::Index(digits_value(digits)),
    ]);
}

impl From<String> for KeyIndexRef {
    fn from(value: String) -> (r: Self) {
        KeyIndexRef::String(value)
    }
}

impl vstd::std_specs::convert::FromSpecImpl<String> for KeyIndexRef {
    open spec fn obeys_from_spec() -> bool {
        true
    }

    open spec fn from_spec(value: String) -> Self {
        KeyIndexRef::String(value)
    }
}

impl From<isize> for KeyIndexRef {
    fn from(value: isize) -> (r: Self) {
        KeyIndexRef::Integer(value)
    }
}

impl vstd::std_specs::convert::FromSpecImpl<isize> for KeyIndexRef {
    open spec fn obeys_from_spec() -> bool {
        true
    }

    open spec fn from_spec(value: isize) -> Self {
        KeyIndexRef::Integer(value)
    }
}

} // verus!
