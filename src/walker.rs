//! The walk over a document that selects the strings to emit.
//!
//! A string qualifies when the field filter admits the key of its nearest
//! enclosing object and its UTF-8 encoding is at least the minimum size long.
//! Arrays hand their own field context on to their elements; an object gives
//! each of its values the key under which that value stands.

use vstd::prelude::*;
use vstd::utf8::encode_utf8;
use crate::value::JsonValue;

verus! {

broadcast use vstd::std_specs::vec::group_vec_axioms;

/// The number of bytes in the UTF-8 encoding of `s`.
pub open spec fn byte_len(s: Seq<char>) -> nat {
    encode_utf8(s).len()
}

/// The field names that a filter given as a list admits.
pub open spec fn names_set(names: Seq<String>) -> Set<Seq<char>> {
    Set::new(|k: Seq<char>| exists|i: int| 0 <= i < names.len() && names[i]@ == k)
}

/// The filter as a set of names; `None` when there is no filter.
pub open spec fn filter_view(f: Option<Vec<String>>) -> Option<Set<Seq<char>>> {
    match f {
        None => None,
        Some(names) => Some(names_set(names@)),
    }
}

/// The current field as characters.
pub open spec fn field_view(c: Option<&String>) -> Option<Seq<char>> {
    match c {
        None => None,
        Some(s) => Some(s@),
    }
}

/// The filter admits strings found under the field `cur`.
pub open spec fn admits(filter: Option<Set<Seq<char>>>, cur: Option<Seq<char>>) -> bool {
    match filter {
        None => true,
        Some(names) => cur matches Some(k) && names.contains(k),
    }
}

/// The strings of `v` that qualify, in document order, where `cur` is the key
/// under which `v` stands.
pub open spec fn emitted(
    v: JsonValue,
    min_size: nat,
    filter: Option<Set<Seq<char>>>,
    cur: Option<Seq<char>>,
) -> Seq<Seq<char>>
    decreases v, 0nat,
{
    match v {
        JsonValue::Str(s) => if admits(filter, cur) && byte_len(s@) >= min_size {
            seq![s@]
        } else {
            seq![]
        },
        JsonValue::Array(items) => emitted_items(items@, min_size, filter, cur),
        JsonValue::Object(entries) => emitted_entries(entries@, min_size, filter),
        _ => seq![],
    }
}

/// The qualifying strings of the elements of an array, one after another.
pub open spec fn emitted_items(
    items: Seq<JsonValue>,
    min_size: nat,
    filter: Option<Set<Seq<char>>>,
    cur: Option<Seq<char>>,
) -> Seq<Seq<char>>
    decreases items, 0nat,
{
    if items.len() == 0 {
        seq![]
    } else {
        emitted_items(items.drop_last(), min_size, filter, cur) + emitted(
            items.last(),
            min_size,
            filter,
            cur,
        )
    }
}

/// The qualifying strings of the values of an object, one after another, each
/// value under its own key.
pub open spec fn emitted_entries(
    entries: Seq<(String, JsonValue)>,
    min_size: nat,
    filter: Option<Set<Seq<char>>>,
) -> Seq<Seq<char>>
    decreases entries, 0nat,
{
    if entries.len() == 0 {
        seq![]
    } else {
        emitted_entries(entries.drop_last(), min_size, filter) + emitted(
            entries.last().1,
            min_size,
            filter,
            Some(entries.last().0@),
        )
    }
}

/// The bytes written for the matches `ms`: the UTF-8 encoding of each one,
/// followed by the separator.
pub open spec fn framed(ms: Seq<Seq<char>>, sep: Seq<u8>) -> Seq<u8>
    decreases ms.len(),
{
    if ms.len() == 0 {
        seq![]
    } else {
        framed(ms.drop_last(), sep) + encode_utf8(ms.last()) + sep
    }
}

/// Framing two runs of matches one after the other gives the two framings
/// one after the other.
pub proof fn lemma_framed_concat(a: Seq<Seq<char>>, b: Seq<Seq<char>>, sep: Seq<u8>)
    ensures
        framed(a + b, sep) == framed(a, sep) + framed(b, sep),
    decreases b.len(),
{
    if b.len() == 0 {
        assert(a + b =~= a);
        assert(framed(a, sep) + framed(b, sep) =~= framed(a, sep));
    } else {
        assert((a + b).drop_last() =~= a + b.drop_last());
        assert((a + b).last() == b.last());
        lemma_framed_concat(a, b.drop_last(), sep);
        assert(framed(a + b, sep) =~= framed(a, sep) + framed(b, sep));
    }
}

fn contains_name(names: &Vec<String>, field: &String) -> (r: bool)
    ensures
        r == names_set(names@).contains(field@),
{
    let mut i: usize = 0;
    while i < names.len()
        invariant
            i <= names@.len(),
            forall|j: int| 0 <= j < i ==> names@[j]@ != field@,
        decreases names.len() - i,
    {
        if names[i] == *field {
            assert(names_set(names@).contains(field@));
            return true;
        }
        i = i + 1;
    }
    false
}

fn field_admitted(field_names: &Option<Vec<String>>, current_field: Option<&String>) -> (r: bool)
    ensures
        r == admits(filter_view(*field_names), field_view(current_field)),
{
    match field_names {
        None => true,
        Some(names) => match current_field {
            None => false,
            Some(field) => contains_name(names, field),
        },
    }
}

fn append_bytes(out: &mut Vec<u8>, bytes: &[u8])
    ensures
        final(out)@ == old(out)@ + bytes@,
{
    let ghost start = out@;
    let mut i: usize = 0;
    while i < bytes.len()
        invariant
            i <= bytes@.len(),
            out@ == start + bytes@.subrange(0, i as int),
        decreases bytes.len() - i,
    {
        out.push(bytes[i]);
        i = i + 1;
        assert(out@ =~= start + bytes@.subrange(0, i as int));
    }
    assert(bytes@.subrange(0, i as int) =~= bytes@);
}

/// Walks `value`, found under the key `current_field`, and appends to `out`
/// each qualifying string followed by `separator`, in document order.
///
/// A string qualifies when `field_names` is absent, or holds the key of its
/// nearest enclosing object, and its UTF-8 encoding is at least `min_size`
/// bytes long.
pub fn process_json_value(
    value: &JsonValue,
    min_size: usize,
    field_names: &Option<Vec<String>>,
    current_field: Option<&String>,
    separator: &[u8],
    out: &mut Vec<u8>,
)
    ensures
        final(out)@ == old(out)@ + framed(
            emitted(*value, min_size as nat, filter_view(*field_names), field_view(current_field)),
            separator@,
        ),
    decreases value,
{
    let ghost start = out@;
    let ghost filter = filter_view(*field_names);
    let ghost cur = field_view(current_field);
    match value {
        JsonValue::Str(s) => {
            let should_process = field_admitted(field_names, current_field);
            let text = s.as_str();
            let bytes = text.as_bytes();
            if should_process && bytes.len() >= min_size {
                append_bytes(out, bytes);
                append_bytes(out, separator);
                assert(framed(seq![s@], separator@) =~= encode_utf8(s@) + separator@) by {
                    let one = seq![s@];
                    assert(one.drop_last() =~= Seq::<Seq<char>>::empty());
                    assert(one.last() == s@);
                    assert(framed(Seq::<Seq<char>>::empty(), separator@) == Seq::<u8>::empty());
                }
                assert(out@ =~= start + framed(seq![s@], separator@));
            } else {
                assert(out@ =~= start + framed(seq![], separator@));
            }
        },
        JsonValue::Array(items) => {
            proof {
                assert forall|k: int| 0 <= k < items@.len() implies decreases_to!(*value => #[trigger] items@[k]) by {
                    assert(decreases_to!(*value => *items));
                    assert(decreases_to!(*items => items[k]));
                }
            }
            let mut i: usize = 0;
            while i < items.len()
                invariant
                    *value == JsonValue::Array(*items),
                    forall|k: int| 0 <= k < items@.len() ==> decreases_to!(*value => #[trigger] items@[k]),
                    i <= items@.len(),
                    filter == filter_view(*field_names),
                    cur == field_view(current_field),
                    out@ == start + framed(
                        emitted_items(items@.subrange(0, i as int), min_size as nat, filter, cur),
                        separator@,
                    ),
                decreases items.len() - i,
            {
                process_json_value(&items[i], min_size, field_names, current_field, separator, out);
                proof {
                    let prefix = items@.subrange(0, i as int);
                    assert(items@.subrange(0, i + 1).drop_last() =~= prefix);
                    lemma_framed_concat(
                        emitted_items(prefix, min_size as nat, filter, cur),
                        emitted(items@[i as int], min_size as nat, filter, cur),
                        separator@,
                    );
                }
                i = i + 1;
                assert(out@ =~= start + framed(
                    emitted_items(items@.subrange(0, i as int), min_size as nat, filter, cur),
                    separator@,
                ));
            }
            assert(items@.subrange(0, i as int) =~= items@);
        },
        JsonValue::Object(entries) => {
            proof {
                assert forall|k: int| 0 <= k < entries@.len() implies decreases_to!(*value => #[trigger] entries@[k].1) by {
                    assert(decreases_to!(*value => *entries));
                    assert(decreases_to!(*entries => entries[k]));
                    assert(decreases_to!(entries[k] => entries[k].1));
                }
            }
            let mut i: usize = 0;
            while i < entries.len()
                invariant
                    *value == JsonValue::Object(*entries),
                    forall|k: int| 0 <= k < entries@.len() ==> decreases_to!(*value => #[trigger] entries@[k].1),
                    i <= entries@.len(),
                    filter == filter_view(*field_names),
                    out@ == start + framed(
                        emitted_entries(entries@.subrange(0, i as int), min_size as nat, filter),
                        separator@,
                    ),
                decreases entries.len() - i,
            {
                let entry = &entries[i];
                process_json_value(&entry.1, min_size, field_names, Some(&entry.0), separator, out);
                proof {
                    let prefix = entries@.subrange(0, i as int);
                    assert(entries@.subrange(0, i + 1).drop_last() =~= prefix);
                    lemma_framed_concat(
                        emitted_entries(prefix, min_size as nat, filter),
                        emitted(entry.1, min_size as nat, filter, Some(entry.0@)),
                        separator@,
                    );
                }
                i = i + 1;
                assert(out@ =~= start + framed(
                    emitted_entries(entries@.subrange(0, i as int), min_size as nat, filter),
                    separator@,
                ));
            }
            assert(entries@.subrange(0, i as int) =~= entries@);
        },
        _ => {
            assert(out@ =~= start + framed(seq![], separator@));
        },
    }
}

/// Every string of `v` in document order, each with the key of its nearest
/// enclosing object, where `cur` is the key under which `v` stands.
pub open spec fn tagged(v: JsonValue, cur: Option<Seq<char>>) -> Seq<(Option<Seq<char>>, Seq<char>)>
    decreases v, 0nat,
{
    match v {
        JsonValue::Str(s) => seq![(cur, s@)],
        JsonValue::Array(items) => tagged_items(items@, cur),
        JsonValue::Object(entries) => tagged_entries(entries@),
        _ => seq![],
    }
}

/// The tagged strings of the elements of an array, each element under the
/// array's own key.
pub open spec fn tagged_items(items: Seq<JsonValue>, cur: Option<Seq<char>>) -> Seq<
    (Option<Seq<char>>, Seq<char>),
>
    decreases items, 0nat,
{
    if items.len() == 0 {
        seq![]
    } else {
        tagged_items(items.drop_last(), cur) + tagged(items.last(), cur)
    }
}

/// The tagged strings of the values of an object, each value under its own key.
pub open spec fn tagged_entries(entries: Seq<(String, JsonValue)>) -> Seq<
    (Option<Seq<char>>, Seq<char>),
>
    decreases entries, 0nat,
{
    if entries.len() == 0 {
        seq![]
    } else {
        tagged_entries(entries.drop_last()) + tagged(entries.last().1, Some(entries.last().0@))
    }
}

/// Every string of the document `v`, in document order.
pub open spec fn all_strings(v: JsonValue) -> Seq<Seq<char>> {
    tagged(v, None).map_values(|p: (Option<Seq<char>>, Seq<char>)| p.1)
}

/// The strings of `t` whose key the filter admits and whose encoding is at
/// least `min_size` bytes long, in order.
pub open spec fn select(
    t: Seq<(Option<Seq<char>>, Seq<char>)>,
    min_size: nat,
    filter: Option<Set<Seq<char>>>,
) -> Seq<Seq<char>>
    decreases t.len(),
{
    if t.len() == 0 {
        seq![]
    } else {
        select(t.drop_last(), min_size, filter) + if admits(filter, t.last().0) && byte_len(
            t.last().1,
        ) >= min_size {
            seq![t.last().1]
        } else {
            seq![]
        }
    }
}

proof fn lemma_select_concat(
    a: Seq<(Option<Seq<char>>, Seq<char>)>,
    b: Seq<(Option<Seq<char>>, Seq<char>)>,
    min_size: nat,
    filter: Option<Set<Seq<char>>>,
)
    ensures
        select(a + b, min_size, filter) == select(a, min_size, filter) + select(b, min_size, filter),
    decreases b.len(),
{
    if b.len() == 0 {
        assert(a + b =~= a);
        assert(select(a, min_size, filter) + select(b, min_size, filter) =~= select(a, min_size, filter));
    } else {
        assert((a + b).drop_last() =~= a + b.drop_last());
        lemma_select_concat(a, b.drop_last(), min_size, filter);
        assert(select(a + b, min_size, filter) =~= select(a, min_size, filter) + select(b, min_size, filter));
    }
}

proof fn lemma_emitted_value(v: JsonValue, min_size: nat, filter: Option<Set<Seq<char>>>, cur: Option<Seq<char>>)
    ensures
        emitted(v, min_size, filter, cur) == select(tagged(v, cur), min_size, filter),
    decreases v, 0nat,
{
    match v {
        JsonValue::Str(s) => {
            let t = tagged(v, cur);
            assert(t.drop_last() =~= Seq::<(Option<Seq<char>>, Seq<char>)>::empty());
            assert(select(t.drop_last(), min_size, filter) == Seq::<Seq<char>>::empty());
            assert(t.last() == (cur, s@));
            assert(select(t, min_size, filter) =~= emitted(v, min_size, filter, cur));
        },
        JsonValue::Array(items) => lemma_emitted_items(items@, min_size, filter, cur),
        JsonValue::Object(entries) => lemma_emitted_entries(entries@, min_size, filter),
        _ => {},
    }
}

proof fn lemma_emitted_items(
    items: Seq<JsonValue>,
    min_size: nat,
    filter: Option<Set<Seq<char>>>,
    cur: Option<Seq<char>>,
)
    ensures
        emitted_items(items, min_size, filter, cur) == select(tagged_items(items, cur), min_size, filter),
    decreases items, 0nat,
{
    if items.len() > 0 {
        lemma_emitted_items(items.drop_last(), min_size, filter, cur);
        lemma_emitted_value(items.last(), min_size, filter, cur);
        lemma_select_concat(tagged_items(items.drop_last(), cur), tagged(items.last(), cur), min_size, filter);
    }
}

proof fn lemma_emitted_entries(entries: Seq<(String, JsonValue)>, min_size: nat, filter: Option<Set<Seq<char>>>)
    ensures
        emitted_entries(entries, min_size, filter) == select(tagged_entries(entries), min_size, filter),
    decreases entries, 0nat,
{
    if entries.len() > 0 {
        let last = entries.last();
        lemma_emitted_entries(entries.drop_last(), min_size, filter);
        lemma_emitted_value(last.1, min_size, filter, Some(last.0@));
        lemma_select_concat(
            tagged_entries(entries.drop_last()),
            tagged(last.1, Some(last.0@)),
            min_size,
            filter,
        );
    }
}

/// The walk emits exactly the strings of the document, in document order,
/// whose nearest enclosing key the filter admits and whose encoding is at
/// least `min_size` bytes long.
pub proof fn lemma_emitted_is_selection(
    v: JsonValue,
    min_size: nat,
    filter: Option<Set<Seq<char>>>,
    cur: Option<Seq<char>>,
)
    ensures
        emitted(v, min_size, filter, cur) == select(tagged(v, cur), min_size, filter),
{
    lemma_emitted_value(v, min_size, filter, cur);
}

proof fn lemma_select_all(t: Seq<(Option<Seq<char>>, Seq<char>)>)
    ensures
        select(t, 0, None) == t.map_values(|p: (Option<Seq<char>>, Seq<char>)| p.1),
    decreases t.len(),
{
    if t.len() > 0 {
        lemma_select_all(t.drop_last());
        assert(select(t, 0, None) =~= t.map_values(|p: (Option<Seq<char>>, Seq<char>)| p.1));
    }
}

/// With no field filter and a minimum size of 0, the walk of a document emits
/// every string value in it exactly once, in document order.
pub proof fn lemma_every_string_once(v: JsonValue)
    ensures
        emitted(v, 0, None, None) == all_strings(v),
{
    lemma_emitted_value(v, 0, None, None);
    lemma_select_all(tagged(v, None));
}

proof fn lemma_select_threshold(
    t: Seq<(Option<Seq<char>>, Seq<char>)>,
    min_size: nat,
    filter: Option<Set<Seq<char>>>,
)
    ensures
        select(t, min_size, filter) == select(t, 0, filter).filter(
            |s: Seq<char>| byte_len(s) >= min_size,
        ),
    decreases t.len(),
{
    let long_enough = |s: Seq<char>| byte_len(s) >= min_size;
    if t.len() == 0 {
        reveal(Seq::filter);
    } else {
        lemma_select_threshold(t.drop_last(), min_size, filter);
        let last = t.last();
        let tail = if admits(filter, last.0) {
            seq![last.1]
        } else {
            seq![]
        };
        Seq::filter_distributes_over_add(select(t.drop_last(), 0, filter), tail, long_enough);
        reveal_with_fuel(Seq::filter, 2);
        assert(tail.filter(long_enough) =~= if admits(filter, last.0) && byte_len(last.1) >= min_size {
            seq![last.1]
        } else {
            seq![]
        }) by {
            if admits(filter, last.0) {
                assert(tail.drop_last() =~= Seq::<Seq<char>>::empty());
            }
        }
    }
}

/// A string is emitted only when its encoding is at least `min_size` bytes
/// long: raising the minimum size from 0 to `min_size` removes exactly the
/// shorter strings and keeps the order of the others.
pub proof fn lemma_size_threshold(
    v: JsonValue,
    min_size: nat,
    filter: Option<Set<Seq<char>>>,
    cur: Option<Seq<char>>,
)
    ensures
        emitted(v, min_size, filter, cur) == emitted(v, 0, filter, cur).filter(
            |s: Seq<char>| byte_len(s) >= min_size,
        ),
{
    lemma_emitted_value(v, min_size, filter, cur);
    lemma_emitted_value(v, 0, filter, cur);
    lemma_select_threshold(tagged(v, cur), min_size, filter);
}

/// With a field filter `names`, a string is emitted exactly when the key of
/// its nearest enclosing object is in `names` and its encoding is long
/// enough. That key is the one under which the string stands, directly or
/// through any number of arrays; a nested object replaces it with its own
/// keys, and a string outside every object has none and is never emitted.
pub proof fn lemma_field_filter(
    v: JsonValue,
    min_size: nat,
    names: Set<Seq<char>>,
    cur: Option<Seq<char>>,
)
    ensures
        emitted(v, min_size, Some(names), cur) == select(tagged(v, cur), min_size, Some(names)),
        v matches JsonValue::Str(s) ==> emitted(v, min_size, Some(names), cur) == if (cur matches Some(
            k,
        ) && names.contains(k)) && byte_len(s@) >= min_size {
            seq![s@]
        } else {
            seq![]
        },
        v matches JsonValue::Array(items) ==> tagged(v, cur) == tagged_items(items@, cur),
        v matches JsonValue::Object(entries) ==> tagged(v, cur) == tagged_entries(entries@),
{
    lemma_emitted_value(v, min_size, Some(names), cur);
    match v {
        JsonValue::Str(s) => {},
        _ => {},
    }
}

/// The bytes that the walk appends are fixed by the value, the minimum size,
/// the filter, the current field and the separator: two walks with the same
/// inputs over sinks that hold the same bytes leave the sinks equal.
pub proof fn lemma_output_determined(
    v: JsonValue,
    min_size: nat,
    filter: Option<Set<Seq<char>>>,
    cur: Option<Seq<char>>,
    sep: Seq<u8>,
    before1: Seq<u8>,
    after1: Seq<u8>,
    before2: Seq<u8>,
    after2: Seq<u8>,
)
    requires
        before1 == before2,
        after1 == before1 + framed(emitted(v, min_size, filter, cur), sep),
        after2 == before2 + framed(emitted(v, min_size, filter, cur), sep),
    ensures
        after1 == after2,
{
}

} // verus!
