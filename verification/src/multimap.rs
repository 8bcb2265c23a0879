//! The insertion-ordered multimap that sections and documents are stored in,
//! with the contracts that the rest of the library relies on.
//!
//! The collection is `ordered_multimap::ListOrderedMultimap`. Its contents are
//! modelled as the sequence of its key-value pairs in insertion order. The
//! functions marked `external_body` below state what the collection's methods
//! do to that sequence; these statements are taken on trust.

use vstd::prelude::*;
use ordered_multimap::ListOrderedMultimap;
use crate::value::{Entries, EntryValue, ValueView};

verus! {

/// `ordered_multimap::ListOrderedMultimap`: nothing is known of a value of
/// it but what the functions below say.
#[verifier::external_type_specification]
#[verifier::external_body]
#[verifier::reject_recursive_types(Key)]
#[verifier::reject_recursive_types(Value)]
#[verifier::reject_recursive_types(State)]
pub struct ExListOrderedMultimap<Key, Value, State>(ListOrderedMultimap<Key, Value, State>);

// ---------------------------------------------------------------------
// Sequences of pairs
// ---------------------------------------------------------------------

/// Whether some pair has the given key.
pub open spec fn has_key<V>(pairs: Seq<(Seq<char>, V)>, key: Seq<char>) -> bool {
    exists|i: int| 0 <= i < pairs.len() && (#[trigger] pairs[i]).0 == key
}

/// The values recorded under `key`, oldest first.
pub open spec fn values_of<V>(pairs: Seq<(Seq<char>, V)>, key: Seq<char>) -> Seq<V>
    decreases pairs.len(),
{
    if pairs.len() == 0 {
        Seq::empty()
    } else if pairs.last().0 == key {
        values_of(pairs.drop_last(), key).push(pairs.last().1)
    } else {
        values_of(pairs.drop_last(), key)
    }
}

/// The pairs whose key is not `key`, in their order.
pub open spec fn without_key<V>(pairs: Seq<(Seq<char>, V)>, key: Seq<char>) -> Seq<
    (Seq<char>, V),
>
    decreases pairs.len(),
{
    if pairs.len() == 0 {
        Seq::empty()
    } else if pairs.last().0 == key {
        without_key(pairs.drop_last(), key)
    } else {
        without_key(pairs.drop_last(), key).push(pairs.last())
    }
}

/// The keys of the pairs, in order, repetitions included.
pub open spec fn keys_of<V>(pairs: Seq<(Seq<char>, V)>) -> Seq<Seq<char>> {
    Seq::new(pairs.len(), |i: int| pairs[i].0)
}

/// Whether no key occurs in two pairs.
pub open spec fn keys_distinct<V>(pairs: Seq<(Seq<char>, V)>) -> bool {
    forall|i: int, j: int|
        0 <= i < j < pairs.len() ==> (#[trigger] pairs[i]).0 != (#[trigger] pairs[j]).0
}

/// The index of the first pair with the given key, or -1.
pub open spec fn first_index<V>(pairs: Seq<(Seq<char>, V)>, key: Seq<char>) -> int
    decreases pairs.len(),
{
    if pairs.len() == 0 {
        -1
    } else {
        let before = first_index(pairs.drop_last(), key);
        if before >= 0 {
            before
        } else if pairs.last().0 == key {
            pairs.len() - 1
        } else {
            -1
        }
    }
}

/// The index of the last pair with the given key, or -1.
pub open spec fn last_index<V>(pairs: Seq<(Seq<char>, V)>, key: Seq<char>) -> int
    decreases pairs.len(),
{
    if pairs.len() == 0 {
        -1
    } else if pairs.last().0 == key {
        pairs.len() - 1
    } else {
        last_index(pairs.drop_last(), key)
    }
}

// ---------------------------------------------------------------------
// The entries of one section
// ---------------------------------------------------------------------

/// The pairs that a section's multimap holds, in insertion order.
pub uninterp spec fn entry_pairs(m: ListOrderedMultimap<String, EntryValue>) -> Seq<
    (Seq<char>, ValueView),
>;

/// The views of a list of borrowed values.
pub open spec fn value_views(values: Seq<&EntryValue>) -> Seq<ValueView> {
    Seq::new(values.len(), |i: int| values[i]@)
}

/// The views of a list of borrowed pairs.
pub open spec fn pair_views(pairs: Seq<(&String, &EntryValue)>) -> Seq<(Seq<char>, ValueView)> {
    Seq::new(pairs.len(), |i: int| (pairs[i].0@, pairs[i].1@))
}

/// `ListOrderedMultimap::new`: a multimap without pairs.
#[verifier::external_body]
pub(crate) fn entries_new() -> (m: ListOrderedMultimap<String, EntryValue>)
    ensures
        entry_pairs(m) == Seq::<(Seq<char>, ValueView)>::empty(),
{
    ListOrderedMultimap::new()
}

/// `ListOrderedMultimap::append`: the pair becomes the newest one, and the
/// result tells whether the key was there before.
#[verifier::external_body]
pub(crate) fn entries_append(
    m: &mut ListOrderedMultimap<String, EntryValue>,
    key: String,
    value: EntryValue,
) -> (existed: bool)
    ensures
        entry_pairs(*final(m)) == entry_pairs(*old(m)).push((key@, value@)),
        existed == has_key(entry_pairs(*old(m)), key@),
{
    m.append(key, value)
}

/// `ListOrderedMultimap::contains_key`: whether a pair has the key.
#[verifier::external_body]
pub(crate) fn entries_contains_key(m: &ListOrderedMultimap<String, EntryValue>, key: &str) -> (r:
    bool)
    ensures
        r == has_key(entry_pairs(*m), key@),
{
    m.contains_key(key)
}

/// `ListOrderedMultimap::is_empty`: whether there is no pair at all.
#[verifier::external_body]
pub(crate) fn entries_is_empty(m: &ListOrderedMultimap<String, EntryValue>) -> (r: bool)
    ensures
        r == (entry_pairs(*m).len() == 0),
{
    m.is_empty()
}

/// `ListOrderedMultimap::get_all`: the values recorded under the key, oldest
/// first.
#[verifier::external_body]
pub(crate) fn entries_get_all<'a>(m: &'a ListOrderedMultimap<String, EntryValue>, key: &str) -> (r:
    Vec<&'a EntryValue>)
    ensures
        value_views(r@) == values_of(entry_pairs(*m), key@),
{
    m.get_all(key).collect()
}

/// `ListOrderedMultimap::get_all_mut`, taken from the back: the newest value
/// recorded under the key, to be changed in place. The pairs keep their
/// places.
#[verifier::external_body]
pub(crate) fn entries_last_mut<'a>(
    m: &'a mut ListOrderedMultimap<String, EntryValue>,
    key: &str,
) -> (r: Option<&'a mut EntryValue>)
    ensures
        match r {
            Some(v) => {
                let i = last_index(entry_pairs(*old(m)), key@);
                &&& i >= 0
                &&& (*v)@ == entry_pairs(*old(m))[i].1
                &&& entry_pairs(*final(m)) == entry_pairs(*old(m)).update(i, (key@, (*final(v))@))
            },
            None => last_index(entry_pairs(*old(m)), key@) < 0 && entry_pairs(*final(m))
                == entry_pairs(*old(m)),
        },
{
    m.get_all_mut(key).next_back()
}

/// `ListOrderedMultimap::iter`: every pair, in insertion order.
#[verifier::external_body]
pub(crate) fn entries_iter<'a>(m: &'a ListOrderedMultimap<String, EntryValue>) -> (r: Vec<
    (&'a String, &'a EntryValue),
>)
    ensures
        pair_views(r@) == entry_pairs(*m),
{
    m.iter().collect()
}

// ---------------------------------------------------------------------
// The sections of one document
// ---------------------------------------------------------------------

/// The sections that a document's multimap holds, in insertion order, each
/// with the pairs of its entries.
pub uninterp spec fn section_pairs(m: ListOrderedMultimap<String, Entries>) -> Seq<
    (Seq<char>, Seq<(Seq<char>, ValueView)>),
>;

/// The views of a list of borrowed sections.
pub open spec fn section_views(sections: Seq<(&String, &Entries)>) -> Seq<
    (Seq<char>, Seq<(Seq<char>, ValueView)>),
> {
    Seq::new(sections.len(), |i: int| (sections[i].0@, sections[i].1@))
}

/// The views of a list of entry collections.
pub open spec fn entries_views(list: Seq<Entries>) -> Seq<Seq<(Seq<char>, ValueView)>> {
    Seq::new(list.len(), |i: int| list[i]@)
}

/// `ListOrderedMultimap::new`: a multimap without pairs.
#[verifier::external_body]
pub(crate) fn sections_new() -> (m: ListOrderedMultimap<String, Entries>)
    ensures
        section_pairs(m) == Seq::<(Seq<char>, Seq<(Seq<char>, ValueView)>)>::empty(),
{
    ListOrderedMultimap::new()
}

/// `ListOrderedMultimap::append`: the pair becomes the newest one, and the
/// result tells whether the key was there before.
#[verifier::external_body]
pub(crate) fn sections_append(
    m: &mut ListOrderedMultimap<String, Entries>,
    name: String,
    entries: Entries,
) -> (existed: bool)
    ensures
        section_pairs(*final(m)) == section_pairs(*old(m)).push((name@, entries@)),
        existed == has_key(section_pairs(*old(m)), name@),
{
    m.append(name, entries)
}

/// `ListOrderedMultimap::get`: the first value recorded under the key.
#[verifier::external_body]
pub(crate) fn sections_get<'a>(m: &'a ListOrderedMultimap<String, Entries>, name: &str) -> (r:
    Option<&'a Entries>)
    ensures
        match r {
            Some(e) => first_index(section_pairs(*m), name@) >= 0 && e@ == section_pairs(
                *m,
            )[first_index(section_pairs(*m), name@)].1,
            None => first_index(section_pairs(*m), name@) < 0,
        },
{
    m.get(name)
}

/// `ListOrderedMultimap::get_mut`: the first value recorded under the key,
/// to be changed in place.
#[verifier::external_body]
pub(crate) fn sections_get_mut<'a>(
    m: &'a mut ListOrderedMultimap<String, Entries>,
    name: &str,
) -> (r: Option<&'a mut Entries>)
    ensures
        match r {
            Some(e) => {
                let i = first_index(section_pairs(*old(m)), name@);
                &&& i >= 0
                &&& (*e)@ == section_pairs(*old(m))[i].1
                &&& section_pairs(*final(m)) == section_pairs(*old(m)).update(
                    i,
                    (name@, (*final(e))@),
                )
            },
            None => first_index(section_pairs(*old(m)), name@) < 0 && section_pairs(*final(m))
                == section_pairs(*old(m)),
        },
{
    m.get_mut(name)
}

/// `ListOrderedMultimap::keys_len`: how many different keys there are.
#[verifier::external_body]
pub(crate) fn sections_keys_len(m: &ListOrderedMultimap<String, Entries>) -> (n: usize)
    ensures
        n == keys_of(section_pairs(*m)).to_set().len(),
{
    m.keys_len()
}

/// `ListOrderedMultimap::remove_all`: takes out every pair with the key and
/// hands back their values, oldest first; the other pairs keep their order.
#[verifier::external_body]
pub(crate) fn sections_remove_all(m: &mut ListOrderedMultimap<String, Entries>, name: &str) -> (r:
    Vec<Entries>)
    ensures
        entries_views(r@) == values_of(section_pairs(*old(m)), name@),
        section_pairs(*final(m)) == without_key(section_pairs(*old(m)), name@),
{
    m.remove_all(name).collect()
}

/// `ListOrderedMultimap::iter`: every pair, in insertion order.
#[verifier::external_body]
pub(crate) fn sections_iter<'a>(m: &'a ListOrderedMultimap<String, Entries>) -> (r: Vec<
    (&'a String, &'a Entries),
>)
    ensures
        section_views(r@) == section_pairs(*m),
{
    m.iter().collect()
}

} // verus!
