//! The document: named sections in first-seen order, each an ordered list of
//! key-value pairs.

use vstd::prelude::*;
use vstd::string::*;
use ordered_multimap::ListOrderedMultimap;
use std::path::PathBuf;
use crate::multimap::{
    entries_append, entries_contains_key, entries_get_all, entries_is_empty, entries_iter,
    entries_views, first_index, has_key, keys_distinct, keys_of, last_index, pair_views, section_pairs,
    section_views, sections_append, sections_get, sections_get_mut, sections_iter,
    sections_keys_len, sections_new, sections_remove_all, value_views, values_of, without_key,
};
use crate::parser::{parse_spec, reports, Parser};
use crate::quoted::{texts_of, unquote_spec};
use crate::Error;
use crate::value::{
    with_last_replaced, without_last, Entries, EntryValue, PairsView, ValueView,
};

verus! {

/// `std::path::PathBuf`: a document carries its path along and never looks
/// into it.
#[verifier::external_type_specification]
#[verifier::external_body]
pub struct ExPathBuf(PathBuf);

// ---------------------------------------------------------------------
// What a document is
// ---------------------------------------------------------------------

/// What a document is: its sections in first-seen order, each with its name
/// and its pairs.
pub type UnitView = Seq<(Seq<char>, PairsView)>;

/// The pairs of the section called `name`; none when there is no such
/// section.
pub open spec fn entries_in(
    d: UnitView,
    name: Seq<char>,
) -> PairsView {
    if first_index(d, name) >= 0 {
        d[first_index(d, name)].1
    } else {
        Seq::empty()
    }
}

/// The document with a section called `name`: unchanged when there is one,
/// else with an empty one added at the end.
pub open spec fn with_section(
    d: UnitView,
    name: Seq<char>,
) -> UnitView {
    if first_index(d, name) >= 0 {
        d
    } else {
        d.push((name, Seq::empty()))
    }
}

/// The document after `key = value` was appended to `section`.
pub open spec fn appended(
    d: UnitView,
    section: Seq<char>,
    key: Seq<char>,
    value: ValueView,
) -> UnitView {
    let e = with_section(d, section);
    let i = first_index(e, section);
    e.update(i, (section, e[i].1.push((key, value))))
}

/// The document after the newest value of `key` in `section` was replaced.
pub open spec fn replaced(
    d: UnitView,
    section: Seq<char>,
    key: Seq<char>,
    value: ValueView,
) -> UnitView {
    let e = with_section(d, section);
    let i = first_index(e, section);
    e.update(i, (section, with_last_replaced(e[i].1, key, value)))
}

/// The document after each of `pairs` was appended to `section`, in order.
pub open spec fn appended_all(
    d: UnitView,
    section: Seq<char>,
    pairs: PairsView,
) -> UnitView
    decreases pairs.len(),
{
    if pairs.len() == 0 {
        d
    } else {
        appended(
            appended_all(d, section, pairs.drop_last()),
            section,
            pairs.last().0,
            pairs.last().1,
        )
    }
}

/// The document after every pair of every section of `other` was appended to
/// the section of the same name.
pub open spec fn merged(
    d: UnitView,
    other: UnitView,
) -> UnitView
    decreases other.len(),
{
    if other.len() == 0 {
        d
    } else {
        appended_all(merged(d, other.drop_last()), other.last().0, other.last().1)
    }
}

/// Whether the document has a section of that name with at least one pair.
pub open spec fn section_has_entries(
    d: UnitView,
    name: Seq<char>,
) -> bool {
    entries_in(d, name).len() > 0
}

/// The document after the pairs of `from` were moved to the end of `to`.
/// Nothing changes when `from` has no pairs.
pub open spec fn renamed(
    d: UnitView,
    from: Seq<char>,
    to: Seq<char>,
) -> UnitView {
    if section_has_entries(d, from) {
        appended_all(without_key(d, from), to, entries_in(d, from))
    } else {
        d
    }
}

/// The logical strings of a list of values.
pub open spec fn logicals(values: Seq<ValueView>) -> Seq<Seq<char>> {
    Seq::new(values.len(), |i: int| values[i].logical)
}

/// What is left of a list of strings when every empty string discards what
/// came before it.
pub open spec fn after_resets(values: Seq<Seq<char>>) -> Seq<Seq<char>>
    decreases values.len(),
{
    if values.len() == 0 {
        Seq::empty()
    } else if values.last().len() == 0 {
        Seq::empty()
    } else {
        after_resets(values.drop_last()).push(values.last())
    }
}

/// Whether every literal of the list decodes.
pub open spec fn all_decodable(values: Seq<ValueView>) -> bool {
    forall|i: int| 0 <= i < values.len() ==> unquote_spec((#[trigger] values[i]).literal) is Ok
}

/// What the literal of a value decodes to.
pub open spec fn decoded(value: ValueView) -> Seq<char> {
    unquote_spec(value.literal)->Ok_0
}

/// What the literals of a list of values decode to.
pub open spec fn decoded_all(values: Seq<ValueView>) -> Seq<Seq<char>> {
    Seq::new(values.len(), |i: int| decoded(values[i]))
}

/// The values of a list of pairs.
pub open spec fn pair_values(pairs: PairsView) -> Seq<ValueView> {
    Seq::new(pairs.len(), |i: int| pairs[i].1)
}

// ---------------------------------------------------------------------
// The text of a document
// ---------------------------------------------------------------------

/// The line that records one pair.
pub open spec fn entry_line(key: Seq<char>, literal: Seq<char>) -> Seq<char> {
    (key.push('=') + literal).push('\n')
}

/// The lines of a section's pairs, oldest first.
pub open spec fn entries_text(pairs: PairsView) -> Seq<char>
    decreases pairs.len(),
{
    if pairs.len() == 0 {
        Seq::empty()
    } else {
        entries_text(pairs.drop_last()) + entry_line(pairs.last().0, pairs.last().1.literal)
    }
}

/// The text of one section: the header line, the entry lines and a blank
/// line.
pub open spec fn section_text(name: Seq<char>, pairs: PairsView) -> Seq<char> {
    (seq!['['] + name + seq![']', '\n'] + entries_text(pairs)).push('\n')
}

/// The text of a document: the texts of its sections, in order.
pub open spec fn unit_text(d: UnitView) -> Seq<char>
    decreases d.len(),
{
    if d.len() == 0 {
        Seq::empty()
    } else {
        unit_text(d.drop_last()) + section_text(d.last().0, d.last().1)
    }
}

// ---------------------------------------------------------------------
// Facts about sequences of pairs
// ---------------------------------------------------------------------

/// `first_index` finds the first pair with the key, and is negative exactly
/// when no pair has it.
pub proof fn lemma_first_index<V>(pairs: Seq<(Seq<char>, V)>, key: Seq<char>)
    ensures
        -1 <= first_index(pairs, key) < pairs.len(),
        first_index(pairs, key) >= 0 ==> pairs[first_index(pairs, key)].0 == key,
        first_index(pairs, key) >= 0 <==> has_key(pairs, key),
        forall|i: int|
            0 <= i < pairs.len() && (#[trigger] pairs[i]).0 == key ==> 0 <= first_index(pairs, key)
                <= i,
    decreases pairs.len(),
{
    if pairs.len() > 0 {
        let front = pairs.drop_last();
        lemma_first_index(front, key);
        assert forall|i: int| 0 <= i < pairs.len() && (#[trigger] pairs[i]).0 == key implies 0
            <= first_index(pairs, key) <= i by {
            if i < front.len() {
                assert(front[i].0 == key);
            }
        }
        if has_key(pairs, key) {
            let i = choose|i: int| 0 <= i < pairs.len() && (#[trigger] pairs[i]).0 == key;
            assert(first_index(pairs, key) >= 0);
        }
        if first_index(pairs, key) >= 0 {
            let i = first_index(pairs, key);
            if i < front.len() {
                assert(front[i].0 == key);
            }
            assert(pairs[i].0 == key);
        }
    }
}

/// Changing one section's pairs, or adding a section under a new name, keeps
/// the names distinct.
pub proof fn lemma_keys_distinct_kept<V>(pairs: Seq<(Seq<char>, V)>, key: Seq<char>, v: V)
    requires
        keys_distinct(pairs),
    ensures
        first_index(pairs, key) >= 0 ==> keys_distinct(
            pairs.update(first_index(pairs, key), (key, v)),
        ),
        first_index(pairs, key) >= 0 ==> first_index(
            pairs.update(first_index(pairs, key), (key, v)),
            key,
        ) == first_index(pairs, key),
        first_index(pairs, key) < 0 ==> keys_distinct(pairs.push((key, v))),
        first_index(pairs, key) < 0 ==> first_index(pairs.push((key, v)), key) == pairs.len(),
{
    lemma_first_index(pairs, key);
    let i = first_index(pairs, key);
    if i >= 0 {
        let next = pairs.update(i, (key, v));
        assert forall|a: int, b: int| 0 <= a < b < next.len() implies (#[trigger] next[a]).0 != (
        #[trigger] next[b]).0 by {
            assert(pairs[a].0 != pairs[b].0);
        }
        lemma_first_index(next, key);
        assert(next[i].0 == key);
    } else {
        let next = pairs.push((key, v));
        assert forall|a: int, b: int| 0 <= a < b < next.len() implies (#[trigger] next[a]).0 != (
        #[trigger] next[b]).0 by {
            if b < pairs.len() {
                assert(pairs[a].0 != pairs[b].0);
            } else {
                assert(pairs[a].0 != key);
            }
        }
        assert(next.drop_last() =~= pairs);
    }
}

/// With distinct keys there are as many different keys as pairs.
pub proof fn lemma_distinct_key_count<V>(pairs: Seq<(Seq<char>, V)>)
    requires
        keys_distinct(pairs),
    ensures
        keys_of(pairs).to_set().len() == pairs.len(),
{
    let keys = keys_of(pairs);
    assert forall|i: int, j: int| 0 <= i < keys.len() && 0 <= j < keys.len() && i != j implies keys[i]
        != keys[j] by {
        if i < j {
            assert(pairs[i].0 != pairs[j].0);
        } else {
            assert(pairs[j].0 != pairs[i].0);
        }
    }
    keys.unique_seq_to_set();
}

/// With distinct keys, the key of a pair has that pair's value as its only
/// value, and taking the key out takes out that pair alone.
pub proof fn lemma_distinct_values<V>(pairs: Seq<(Seq<char>, V)>, key: Seq<char>)
    requires
        keys_distinct(pairs),
    ensures
        first_index(pairs, key) >= 0 ==> values_of(pairs, key) == seq![
            pairs[first_index(pairs, key)].1,
        ],
        first_index(pairs, key) < 0 ==> values_of(pairs, key).len() == 0,
        first_index(pairs, key) < 0 ==> without_key(pairs, key) == pairs,
        keys_distinct(without_key(pairs, key)),
        first_index(without_key(pairs, key), key) < 0,
        without_key(pairs, key).len() <= pairs.len(),
        forall|k: int|
            0 <= k < without_key(pairs, key).len() ==> exists|j: int|
                0 <= j < pairs.len() && pairs[j] == #[trigger] without_key(pairs, key)[k],
    decreases pairs.len(),
{
    lemma_first_index(pairs, key);
    if pairs.len() > 0 {
        let front = pairs.drop_last();
        assert forall|a: int, b: int| 0 <= a < b < front.len() implies (#[trigger] front[a]).0 != (
        #[trigger] front[b]).0 by {
            assert(pairs[a].0 != pairs[b].0);
        }
        lemma_distinct_values(front, key);
        lemma_first_index(front, key);
        let w = without_key(pairs, key);
        let wf = without_key(front, key);
        lemma_first_index(w, key);
        if pairs.last().0 == key {
            if first_index(front, key) >= 0 {
                let i = first_index(front, key);
                assert(pairs[i].0 == key);
                assert(pairs[i].0 != pairs[pairs.len() - 1].0);
            }
            assert(values_of(pairs, key) =~= seq![pairs[first_index(pairs, key)].1]);
            assert forall|k: int| 0 <= k < w.len() implies exists|j: int|
                0 <= j < pairs.len() && pairs[j] == #[trigger] w[k] by {
                let j = choose|j: int| 0 <= j < front.len() && front[j] == wf[k];
                assert(pairs[j] == w[k]);
            }
        } else {
            assert forall|k: int| 0 <= k < w.len() implies exists|j: int|
                0 <= j < pairs.len() && pairs[j] == #[trigger] w[k] by {
                if k < wf.len() {
                    let j = choose|j: int| 0 <= j < front.len() && front[j] == wf[k];
                    assert(pairs[j] == w[k]);
                } else {
                    assert(pairs[pairs.len() - 1] == w[k]);
                }
            }
            assert forall|a: int, b: int| 0 <= a < b < w.len() implies (#[trigger] w[a]).0 != (
            #[trigger] w[b]).0 by {
                if b < wf.len() {
                    assert(wf[a].0 != wf[b].0);
                } else {
                    let j = choose|j: int| 0 <= j < front.len() && front[j] == wf[a];
                    assert(pairs[j].0 != pairs[pairs.len() - 1].0);
                }
            }
            assert(w.drop_last() =~= wf);
            if first_index(pairs, key) >= 0 {
                assert(values_of(pairs, key) =~= seq![pairs[first_index(pairs, key)].1]);
            } else {
                assert(w =~= pairs);
            }
        }
    }
}

/// Appending to a section keeps the names distinct.
pub proof fn lemma_appended_distinct(
    d: UnitView,
    section: Seq<char>,
    key: Seq<char>,
    value: ValueView,
)
    requires
        keys_distinct(d),
    ensures
        keys_distinct(appended(d, section, key, value)),
{
    let empty = PairsView::empty();
    lemma_keys_distinct_kept(d, section, empty);
    let e = with_section(d, section);
    lemma_first_index(e, section);
    lemma_keys_distinct_kept(e, section, e[first_index(e, section)].1.push((key, value)));
}

/// Appending a list of pairs to a section keeps the names distinct.
pub proof fn lemma_appended_all_distinct(
    d: UnitView,
    section: Seq<char>,
    pairs: PairsView,
)
    requires
        keys_distinct(d),
    ensures
        keys_distinct(appended_all(d, section, pairs)),
    decreases pairs.len(),
{
    if pairs.len() > 0 {
        lemma_appended_all_distinct(d, section, pairs.drop_last());
        lemma_appended_distinct(
            appended_all(d, section, pairs.drop_last()),
            section,
            pairs.last().0,
            pairs.last().1,
        );
    }
}

// ---------------------------------------------------------------------
// What appending, replacing and renaming do to lookups
// ---------------------------------------------------------------------

/// Where the first pair with a key stands depends on the keys alone.
pub proof fn lemma_first_index_same_keys<V>(
    a: Seq<(Seq<char>, V)>,
    b: Seq<(Seq<char>, V)>,
    key: Seq<char>,
)
    requires
        a.len() == b.len(),
        forall|i: int| 0 <= i < a.len() ==> (#[trigger] a[i]).0 == b[i].0,
    ensures
        first_index(a, key) == first_index(b, key),
    decreases a.len(),
{
    if a.len() > 0 {
        assert(a[a.len() - 1].0 == b[a.len() - 1].0);
        assert forall|i: int| 0 <= i < a.drop_last().len() implies (#[trigger] a.drop_last()[i]).0
            == b.drop_last()[i].0 by {
            assert(a[i].0 == b[i].0);
        }
        lemma_first_index_same_keys(a.drop_last(), b.drop_last(), key);
    }
}

/// A pair added at the end changes nothing for the other keys.
pub proof fn lemma_first_index_push<V>(
    pairs: Seq<(Seq<char>, V)>,
    k: Seq<char>,
    v: V,
    key: Seq<char>,
)
    requires
        key != k,
    ensures
        first_index(pairs.push((k, v)), key) == first_index(pairs, key),
{
    assert(pairs.push((k, v)).drop_last() =~= pairs);
}

/// A pair added at the end adds its value to the values of its key, and
/// nothing to those of another key.
pub proof fn lemma_values_of_push<V>(pairs: Seq<(Seq<char>, V)>, k: Seq<char>, v: V, key: Seq<char>)
    ensures
        values_of(pairs.push((k, v)), key) == if key == k {
            values_of(pairs, key).push(v)
        } else {
            values_of(pairs, key)
        },
{
    assert(pairs.push((k, v)).drop_last() =~= pairs);
}

/// The last pair of a key is where the key's newest value stands: a key has
/// a last pair exactly when it has values.
pub proof fn lemma_last_index<V>(pairs: Seq<(Seq<char>, V)>, key: Seq<char>)
    ensures
        -1 <= last_index(pairs, key) < pairs.len(),
        last_index(pairs, key) >= 0 ==> pairs[last_index(pairs, key)].0 == key,
        last_index(pairs, key) >= 0 <==> values_of(pairs, key).len() > 0,
        last_index(pairs, key) >= 0 ==> values_of(pairs, key).last() == pairs[last_index(
            pairs,
            key,
        )].1,
    decreases pairs.len(),
{
    if pairs.len() > 0 {
        lemma_last_index(pairs.drop_last(), key);
    }
}

/// A new value in the last pair of a key takes the place of the key's newest
/// value, and changes nothing for the other keys.
pub proof fn lemma_values_of_replaced<V>(
    pairs: Seq<(Seq<char>, V)>,
    key: Seq<char>,
    v: V,
    other_key: Seq<char>,
)
    requires
        last_index(pairs, key) >= 0,
    ensures
        values_of(pairs.update(last_index(pairs, key), (key, v)), other_key) == if other_key
            == key {
            values_of(pairs, key).drop_last().push(v)
        } else {
            values_of(pairs, other_key)
        },
    decreases pairs.len(),
{
    let i = last_index(pairs, key);
    let next = pairs.update(i, (key, v));
    let front = pairs.drop_last();
    lemma_last_index(pairs, key);
    if pairs.last().0 == key {
        assert(next.drop_last() =~= front);
        assert(next.last() == (key, v));
        if other_key == key {
            assert(values_of(pairs, key).drop_last() =~= values_of(front, key));
        }
    } else {
        lemma_last_index(front, key);
        lemma_values_of_replaced(front, key, v, other_key);
        assert(next.drop_last() =~= front.update(i, (key, v)));
        assert(next.last() == pairs.last());
        if other_key == key {
        } else if pairs.last().0 == other_key {
        }
    }
}

/// The pairs of a section after its pairs were exchanged for `pairs`, or
/// after it was added with them: the section `section` has `pairs`, every
/// other section has what it had.
pub proof fn lemma_entries_in_changed(
    d: UnitView,
    section: Seq<char>,
    pairs: PairsView,
    name: Seq<char>,
)
    requires
        keys_distinct(d),
    ensures
        ({
            let e = with_section(d, section);
            let next = e.update(first_index(e, section), (section, pairs));
            entries_in(next, name) == if name == section {
                pairs
            } else {
                entries_in(d, name)
            }
        }),
{
    let empty = PairsView::empty();
    let e = with_section(d, section);
    lemma_first_index(d, section);
    lemma_keys_distinct_kept(d, section, empty);
    lemma_first_index(e, section);
    let i = first_index(e, section);
    let next = e.update(i, (section, pairs));
    lemma_keys_distinct_kept(e, section, pairs);
    if name == section {
    } else {
        assert forall|j: int| 0 <= j < e.len() implies (#[trigger] next[j]).0 == e[j].0 by {}
        lemma_first_index_same_keys(next, e, name);
        lemma_first_index(e, name);
        if first_index(d, section) < 0 {
            lemma_first_index_push(d, section, empty, name);
        }
    }
}

/// After `key = value` was appended to `section`, a lookup of that key in
/// that section finds what it found before and then `value`; every other
/// lookup finds what it found before.
pub proof fn lemma_append_then_lookup(
    d: UnitView,
    section: Seq<char>,
    key: Seq<char>,
    value: ValueView,
    other_section: Seq<char>,
    other_key: Seq<char>,
)
    requires
        keys_distinct(d),
    ensures
        values_of(entries_in(appended(d, section, key, value), other_section), other_key) == if
        other_section == section && other_key == key {
            values_of(entries_in(d, section), key).push(value)
        } else {
            values_of(entries_in(d, other_section), other_key)
        },
{
    let e = with_section(d, section);
    let pairs = e[first_index(e, section)].1;
    lemma_entries_in_changed(d, section, pairs.push((key, value)), other_section);
    lemma_entries_in_changed(d, section, pairs, section);
    lemma_first_index(e, section);
    lemma_keys_distinct_kept(d, section, PairsView::empty());
    assert(e.update(first_index(e, section), (section, pairs)) =~= e);
    lemma_values_of_push(pairs, key, value, other_key);
}

/// After the newest value of `key` in `section` was replaced by `value`, a
/// lookup of that key in that section finds the older values as they were
/// and then `value`; every other lookup finds what it found before.
pub proof fn lemma_set_then_lookup(
    d: UnitView,
    section: Seq<char>,
    key: Seq<char>,
    value: ValueView,
    other_section: Seq<char>,
    other_key: Seq<char>,
)
    requires
        keys_distinct(d),
    ensures
        values_of(entries_in(replaced(d, section, key, value), other_section), other_key) == if
        other_section == section && other_key == key {
            without_last(values_of(entries_in(d, section), key)).push(value)
        } else {
            values_of(entries_in(d, other_section), other_key)
        },
{
    let e = with_section(d, section);
    let pairs = e[first_index(e, section)].1;
    lemma_entries_in_changed(d, section, with_last_replaced(pairs, key, value), other_section);
    lemma_entries_in_changed(d, section, pairs, section);
    lemma_first_index(e, section);
    lemma_keys_distinct_kept(d, section, PairsView::empty());
    assert(e.update(first_index(e, section), (section, pairs)) =~= e);
    lemma_last_index(pairs, key);
    if last_index(pairs, key) >= 0 {
        lemma_values_of_replaced(pairs, key, value, other_key);
    } else {
        lemma_values_of_push(pairs, key, value, other_key);
    }
}

/// Replacing the newest value of a key that has one leaves every pair in its
/// place, and every pair but the last of that key as it was: the section has
/// as many pairs as before, with the same keys in the same order.
pub proof fn lemma_set_keeps_places(pairs: PairsView, key: Seq<char>, value: ValueView)
    requires
        values_of(pairs, key).len() > 0,
    ensures
        with_last_replaced(pairs, key, value).len() == pairs.len(),
        keys_of(with_last_replaced(pairs, key, value)) == keys_of(pairs),
        forall|i: int|
            0 <= i < pairs.len() && i != last_index(pairs, key) ==> with_last_replaced(
                pairs,
                key,
                value,
            )[i] == #[trigger] pairs[i],
        with_last_replaced(pairs, key, value)[last_index(pairs, key)] == (key, value),
{
    lemma_last_index(pairs, key);
    assert(keys_of(with_last_replaced(pairs, key, value)) =~= keys_of(pairs));
}

/// After a list of pairs was appended to `section`, that section has what it
/// had and then the list; every other section has what it had.
pub proof fn lemma_appended_all_entries(
    d: UnitView,
    section: Seq<char>,
    pairs: PairsView,
    name: Seq<char>,
)
    requires
        keys_distinct(d),
    ensures
        entries_in(appended_all(d, section, pairs), name) == if name == section {
            entries_in(d, section) + pairs
        } else {
            entries_in(d, name)
        },
    decreases pairs.len(),
{
    if pairs.len() == 0 {
        assert(entries_in(d, section) + pairs =~= entries_in(d, section));
    } else {
        let before = appended_all(d, section, pairs.drop_last());
        lemma_appended_all_entries(d, section, pairs.drop_last(), name);
        lemma_appended_all_entries(d, section, pairs.drop_last(), section);
        lemma_appended_all_distinct(d, section, pairs.drop_last());
        let e = with_section(before, section);
        let old_pairs = e[first_index(e, section)].1;
        lemma_entries_in_changed(before, section, old_pairs.push(pairs.last()), name);
        lemma_entries_in_changed(before, section, old_pairs, section);
        lemma_first_index(e, section);
        lemma_keys_distinct_kept(before, section, PairsView::empty());
        assert(e.update(first_index(e, section), (section, old_pairs)) =~= e);
        if name == section {
            assert((entries_in(d, section) + pairs.drop_last()).push(pairs.last()) =~= entries_in(
                d,
                section,
            ) + pairs);
        }
    }
}

/// Taking a section out changes nothing for the sections of other names.
pub proof fn lemma_entries_in_without(
    d: UnitView,
    from: Seq<char>,
    name: Seq<char>,
)
    requires
        name != from,
    ensures
        entries_in(without_key(d, from), name) == entries_in(d, name),
        first_index(without_key(d, from), name) >= 0 <==> first_index(d, name) >= 0,
    decreases d.len(),
{
    if d.len() > 0 {
        let front = d.drop_last();
        lemma_entries_in_without(front, from, name);
        lemma_first_index(front, name);
        lemma_first_index(without_key(front, from), name);
        if d.last().0 != from {
            assert(without_key(d, from).drop_last() =~= without_key(front, from));
        }
    }
}

/// Renaming a section that has no pairs, or that is not there, changes
/// nothing.
pub proof fn lemma_rename_without_entries(
    d: UnitView,
    from: Seq<char>,
    to: Seq<char>,
)
    requires
        !section_has_entries(d, from),
    ensures
        renamed(d, from, to) == d,
{
}

/// After a section with pairs was renamed to another name, the section of
/// the new name has what it had and then the pairs of the old one, in their
/// order; the old name has no pairs; every other section has what it had.
pub proof fn lemma_rename_moves_entries(
    d: UnitView,
    from: Seq<char>,
    to: Seq<char>,
    name: Seq<char>,
)
    requires
        keys_distinct(d),
        section_has_entries(d, from),
        from != to,
    ensures
        entries_in(renamed(d, from, to), name) == if name == to {
            entries_in(d, to) + entries_in(d, from)
        } else if name == from {
            PairsView::empty()
        } else {
            entries_in(d, name)
        },
        !section_has_entries(renamed(d, from, to), from),
{
    let rest = without_key(d, from);
    lemma_distinct_values(d, from);
    lemma_appended_all_entries(rest, to, entries_in(d, from), name);
    lemma_appended_all_entries(rest, to, entries_in(d, from), from);
    if name != from {
        lemma_entries_in_without(d, from, name);
    }
    lemma_entries_in_without(d, from, to);
}

// ---------------------------------------------------------------------
// The document
// ---------------------------------------------------------------------

#[derive(Debug, PartialEq)]
pub struct SystemdUnit {
    pub path: Option<PathBuf>,
    sections: ListOrderedMultimap<String, Entries>,
}

impl View for SystemdUnit {
    type V = UnitView;

    /// The sections in first-seen order, each with its name and its pairs.
    closed spec fn view(&self) -> UnitView {
        section_pairs(self.sections)
    }
}

impl SystemdUnit {
    /// The path that the document is said to come from.
    pub closed spec fn source_path(&self) -> Option<PathBuf> {
        self.path
    }

    /// No name stands for two sections.
    pub open spec fn wf(&self) -> bool {
        keys_distinct(self@)
    }

    /// An empty document without a path.
    pub fn new() -> (unit: Self)
        ensures
            unit.wf(),
            unit@.len() == 0,
            unit.source_path() is None,
    {
        SystemdUnit { path: None, sections: sections_new() }
    }

    /// Parses unit-file text into a document.
    pub fn load_from_str(data: &str) -> (r: Result<Self, Error>)
        ensures
            match parse_spec(data@) {
                Ok(d) => r matches Ok(unit) && unit.wf() && unit@ == d && unit.source_path()
                    is None,
                Err(f) => r matches Err(Error::Unit(e)) && reports(e, data@, f),
            },
    {
        let mut parser = Parser::new(data);
        match parser.parse() {
            Ok(unit) => Ok(unit),
            Err(e) => Err(Error::from(e)),
        }
    }

    /// Makes sure that there is a section called `name`, adding an empty one
    /// at the end when there is none.
    pub(crate) fn ensure_section(&mut self, name: &str)
        requires
            old(self).wf(),
        ensures
            final(self).wf(),
            final(self)@ == with_section(old(self)@, name@),
            final(self).source_path() == old(self).source_path(),
    {
        proof {
            lemma_keys_distinct_kept(self@, name@, PairsView::empty());
        }
        if sections_get(&self.sections, name).is_none() {
            sections_append(&mut self.sections, name.to_owned(), Entries::default());
        }
    }

    /// Appends `key = value` to `section`, with `value` a logical string.
    pub fn append_entry(&mut self, section: &str, key: &str, value: &str)
        requires
            old(self).wf(),
        ensures
            final(self).wf(),
            final(self)@ == appended(
                old(self)@,
                section@,
                key@,
                EntryValue::from_unquoted_spec(value@),
            ),
            final(self).source_path() == old(self).source_path(),
    {
        self.append_entry_value(section, key, EntryValue::from_unquoted(value));
    }

    /// Appends `key = value` to `section`: the pair becomes the newest of the
    /// section, which is created at the end of the document if it is new.
    pub fn append_entry_value(&mut self, section: &str, key: &str, value: EntryValue)
        requires
            old(self).wf(),
        ensures
            final(self).wf(),
            final(self)@ == appended(old(self)@, section@, key@, value@),
            final(self).source_path() == old(self).source_path(),
    {
        self.ensure_section(section);
        let ghost e = self@;
        proof {
            lemma_first_index(e, section@);
            lemma_first_index(old(self)@, section@);
            lemma_keys_distinct_kept(
                old(self)@,
                section@,
                PairsView::empty(),
            );
            lemma_keys_distinct_kept(
                e,
                section@,
                e[first_index(e, section@)].1.push((key@, value@)),
            );
        }
        match sections_get_mut(&mut self.sections, section) {
            Some(entries) => {
                entries_append(&mut entries.data, key.to_owned(), value);
            },
            None => {},
        }
    }

    /// Whether `key` has a value in `section`.
    pub fn has_key(&self, section: &str, key: &str) -> (r: bool)
        requires
            self.wf(),
        ensures
            r == has_key(entries_in(self@, section@), key@),
    {
        match sections_get(&self.sections, section) {
            Some(e) => entries_contains_key(&e.data, key),
            None => {
                assert(!has_key(PairsView::empty(), key@));
                false
            },
        }
    }

    /// Whether there is a section called `name` with at least one entry.
    pub fn has_section(&self, name: &str) -> (r: bool)
        requires
            self.wf(),
        ensures
            r == section_has_entries(self@, name@),
    {
        match sections_get(&self.sections, name) {
            Some(e) => !entries_is_empty(&e.data),
            None => false,
        }
    }

    /// The number of sections.
    pub fn len(&self) -> (n: usize)
        requires
            self.wf(),
        ensures
            n == self@.len(),
    {
        proof {
            lemma_distinct_key_count(self@);
        }
        sections_keys_len(&self.sections)
    }

    /// The values of `key` in `section`, oldest first.
    pub fn lookup_all_values(&self, section: &str, key: &str) -> (r: Vec<&EntryValue>)
        requires
            self.wf(),
        ensures
            value_views(r@) == values_of(entries_in(self@, section@), key@),
    {
        match sections_get(&self.sections, section) {
            Some(e) => entries_get_all(&e.data, key),
            None => {
                let r: Vec<&EntryValue> = Vec::new();
                assert(value_views(r@) =~= values_of(entries_in(self@, section@), key@));
                r
            },
        }
    }

    /// The newest value of `key` in `section`, if there is one.
    pub fn lookup_last_value(&self, section: &str, key: &str) -> (r: Option<&EntryValue>)
        requires
            self.wf(),
        ensures
            match r {
                Some(v) => values_of(entries_in(self@, section@), key@).len() > 0 && v@
                    == values_of(entries_in(self@, section@), key@).last(),
                None => values_of(entries_in(self@, section@), key@).len() == 0,
            },
    {
        let values = self.lookup_all_values(section, key);
        if values.len() == 0 {
            None
        } else {
            let v: &EntryValue = values[values.len() - 1];
            assert(value_views(values@)[values.len() - 1] == v@);
            Some(v)
        }
    }

    /// The values of `key` in `section`, oldest first, each decoded from its
    /// literal.
    pub fn lookup_all(&self, section: &str, key: &str) -> (r: Vec<String>)
        requires
            self.wf(),
            all_decodable(values_of(entries_in(self@, section@), key@)),
        ensures
            texts(r@) == decoded_all(values_of(entries_in(self@, section@), key@)),
    {
        let values = self.lookup_all_values(section, key);
        let ghost views = value_views(values@);
        let mut r: Vec<String> = Vec::new();
        let mut i: usize = 0;
        while i < values.len()
            invariant
                i <= values.len(),
                views == value_views(values@),
                all_decodable(views),
                r@.len() == i,
                texts(r@) == decoded_all(views.take(i as int)),
            decreases values.len() - i,
        {
            let v: &EntryValue = values[i];
            let ghost before = r@;
            assert(views[i as int] == v@);
            let text = v.unquote();
            assert(text@ == decoded(views[i as int]));
            r.push(text);
            i += 1;
            assert forall|k: int| 0 <= k < i implies texts(r@)[k] == decoded_all(
                views.take(i as int),
            )[k] by {
                if k < i - 1 {
                    assert(texts(before)[k] == decoded_all(views.take(i - 1))[k]);
                    assert(r@[k] == before[k]);
                } else {
                    assert(r@[k] == text);
                }
            }
            assert(texts(r@) =~= decoded_all(views.take(i as int)));
        }
        assert(views.take(values.len() as int) =~= views);
        r
    }

    /// The logical strings recorded for `key` in `section`, oldest first,
    /// where an empty string discards everything recorded before it.
    pub fn lookup_all_with_reset<'a>(&'a self, section: &str, key: &str) -> (r: Vec<&'a str>)
        requires
            self.wf(),
        ensures
            texts_of(r@) == after_resets(logicals(values_of(entries_in(self@, section@), key@))),
    {
        let values = self.lookup_all_values(section, key);
        let ghost all = logicals(value_views(values@));
        let mut res: Vec<&str> = Vec::new();
        let mut i: usize = 0;
        while i < values.len()
            invariant
                i <= values.len(),
                all == logicals(value_views(values@)),
                texts_of(res@) == after_resets(all.take(i as int)),
            decreases values.len() - i,
        {
            let value: &EntryValue = values[i];
            let v: &str = value.unquoted().as_str();
            proof {
                assert(all.take(i as int + 1).drop_last() =~= all.take(i as int));
                assert(all.take(i as int + 1).last() == v@);
            }
            if v.is_empty() {
                res.clear();
            } else {
                res.push(v);
            }
            i += 1;
            assert(texts_of(res@) =~= after_resets(all.take(i as int)));
        }
        assert(all.take(values.len() as int) =~= all);
        res
    }

    /// The newest value of `key` in `section`, decoded from its literal.
    pub fn lookup_last(&self, section: &str, key: &str) -> (r: Option<String>)
        requires
            self.wf(),
            values_of(entries_in(self@, section@), key@).len() > 0 ==> unquote_spec(
                values_of(entries_in(self@, section@), key@).last().literal,
            ) is Ok,
        ensures
            match r {
                Some(s) => values_of(entries_in(self@, section@), key@).len() > 0 && s@ == decoded(
                    values_of(entries_in(self@, section@), key@).last(),
                ),
                None => values_of(entries_in(self@, section@), key@).len() == 0,
            },
    {
        match self.lookup_last_value(section, key) {
            Some(v) => Some(v.unquote()),
            None => None,
        }
    }

    /// Appends every pair of every section of `other`, in `other`'s order, to
    /// the section of the same name. Nothing is replaced.
    pub fn merge_from(&mut self, other: &SystemdUnit)
        requires
            old(self).wf(),
        ensures
            final(self).wf(),
            final(self)@ == merged(old(self)@, other@),
            final(self).source_path() == old(self).source_path(),
    {
        let sections = sections_iter(&other.sections);
        let ghost all = other@;
        let mut i: usize = 0;
        while i < sections.len()
            invariant
                i <= sections.len(),
                section_views(sections@) == all,
                self.wf(),
                self@ == merged(old(self)@, all.take(i as int)),
                self.source_path() == old(self).source_path(),
            decreases sections.len() - i,
        {
            let section: &String = sections[i].0;
            let entries: &Entries = sections[i].1;
            proof {
                assert(all[i as int] == (section@, entries@));
                assert(all.take(i as int + 1).drop_last() =~= all.take(i as int));
            }
            self.append_all(section.as_str(), entries);
            i += 1;
        }
        assert(all.take(sections.len() as int) =~= all);
    }

    /// Appends every pair of `entries` to `section`, in order.
    fn append_all(&mut self, section: &str, entries: &Entries)
        requires
            old(self).wf(),
        ensures
            final(self).wf(),
            final(self)@ == appended_all(old(self)@, section@, entries@),
            final(self).source_path() == old(self).source_path(),
    {
        let pairs = entries_iter(&entries.data);
        let ghost all = entries@;
        let mut i: usize = 0;
        while i < pairs.len()
            invariant
                i <= pairs.len(),
                pair_views(pairs@) == all,
                self.wf(),
                self@ == appended_all(old(self)@, section@, all.take(i as int)),
                self.source_path() == old(self).source_path(),
            decreases pairs.len() - i,
        {
            let key: &String = pairs[i].0;
            let value: &EntryValue = pairs[i].1;
            proof {
                assert(all[i as int] == (key@, value@));
                assert(all.take(i as int + 1).drop_last() =~= all.take(i as int));
            }
            self.append_entry_value(section, key.as_str(), value.clone());
            i += 1;
        }
        assert(all.take(pairs.len() as int) =~= all);
    }

    /// The path that the document is said to come from.
    pub fn path(&self) -> (p: &Option<PathBuf>)
        ensures
            *p == self.source_path(),
    {
        &self.path
    }

    /// Moves every pair of section `from` to the end of section `to`, which
    /// is created if need be, and removes `from`. Nothing happens when `from`
    /// has no pairs.
    pub fn rename_section(&mut self, from: &str, to: &str)
        requires
            old(self).wf(),
        ensures
            final(self).wf(),
            final(self)@ == renamed(old(self)@, from@, to@),
            final(self).source_path() == old(self).source_path(),
    {
        if !self.has_section(from) {
            return ;
        }
        let ghost d = self@;
        proof {
            lemma_distinct_values(d, from@);
            lemma_first_index(d, from@);
        }
        let mut from_values: Vec<Entries> = sections_remove_all(&mut self.sections, from);
        proof {
            assert(entries_views(from_values@) == seq![entries_in(d, from@)]);
            assert(entries_views(from_values@)[0] == from_values@[0]@);
        }
        // the names are distinct: one section is to be moved
        if let Some(entries) = from_values.pop() {
            self.append_all(to, &entries);
        }
    }

    /// The pairs of section `name`, oldest first, each value decoded from
    /// its literal.
    pub fn section_entries<'a>(&'a self, name: &str) -> (r: Vec<(&'a str, String)>)
        requires
            self.wf(),
            all_decodable(pair_values(entries_in(self@, name@))),
        ensures
            r@.len() == entries_in(self@, name@).len(),
            forall|i: int|
                0 <= i < r@.len() ==> (#[trigger] r@[i]).0@ == entries_in(self@, name@)[i].0
                    && r@[i].1@ == decoded(entries_in(self@, name@)[i].1),
    {
        let pairs = self.section_entry_values(name);
        let ghost all = entries_in(self@, name@);
        let mut r: Vec<(&str, String)> = Vec::new();
        let mut i: usize = 0;
        while i < pairs.len()
            invariant
                i <= pairs.len(),
                pairs@.len() == all.len(),
                forall|k: int|
                    0 <= k < pairs@.len() ==> (#[trigger] pairs@[k]).0@ == all[k].0
                        && pairs@[k].1@ == all[k].1,
                all_decodable(pair_values(all)),
                r@.len() == i,
                forall|k: int|
                    0 <= k < i ==> (#[trigger] r@[k]).0@ == all[k].0 && r@[k].1@ == decoded(
                        all[k].1,
                    ),
            decreases pairs.len() - i,
        {
            let key: &str = pairs[i].0;
            let value: &EntryValue = pairs[i].1;
            assert(pair_values(all)[i as int] == all[i as int].1);
            r.push((key, value.unquote()));
            i += 1;
        }
        r
    }

    /// The pairs of section `name`, oldest first.
    pub fn section_entry_values<'a>(&'a self, name: &str) -> (r: Vec<(&'a str, &'a EntryValue)>)
        requires
            self.wf(),
        ensures
            r@.len() == entries_in(self@, name@).len(),
            forall|i: int|
                0 <= i < r@.len() ==> (#[trigger] r@[i]).0@ == entries_in(self@, name@)[i].0
                    && r@[i].1@ == entries_in(self@, name@)[i].1,
    {
        let mut r: Vec<(&str, &EntryValue)> = Vec::new();
        match sections_get(&self.sections, name) {
            Some(e) => {
                let pairs = entries_iter(&e.data);
                let ghost all = e@;
                let mut i: usize = 0;
                while i < pairs.len()
                    invariant
                        i <= pairs.len(),
                        pair_views(pairs@) == all,
                        r@.len() == i,
                        forall|k: int|
                            0 <= k < i ==> (#[trigger] r@[k]).0@ == all[k].0 && r@[k].1@
                                == all[k].1,
                    decreases pairs.len() - i,
                {
                    let key: &String = pairs[i].0;
                    let value: &EntryValue = pairs[i].1;
                    assert(pair_views(pairs@)[i as int] == (key@, value@));
                    r.push((key.as_str(), value));
                    i += 1;
                }
            },
            None => {},
        }
        r
    }

    /// Replaces the newest value of `key` in `section` by the value that
    /// means `value`.
    pub fn set_entry(&mut self, section: &str, key: &str, value: &str)
        requires
            old(self).wf(),
        ensures
            final(self).wf(),
            final(self)@ == replaced(
                old(self)@,
                section@,
                key@,
                EntryValue::from_unquoted_spec(value@),
            ),
            final(self).source_path() == old(self).source_path(),
    {
        self.set_entry_value(section, key, EntryValue::from_unquoted(value));
    }

    /// Replaces the newest value of `key` in `section` by the value whose
    /// literal is `value`, which must decode.
    pub fn set_entry_raw(&mut self, section: &str, key: &str, value: &str)
        requires
            old(self).wf(),
            unquote_spec(value@) is Ok,
        ensures
            final(self).wf(),
            final(self)@ == replaced(
                old(self)@,
                section@,
                key@,
                ValueView { literal: value@, logical: unquote_spec(value@)->Ok_0 },
            ),
            final(self).source_path() == old(self).source_path(),
    {
        match EntryValue::try_from_raw(value) {
            Ok(v) => self.set_entry_value(section, key, v),
            Err(_) => {},
        }
    }

    /// Replaces the newest value of `key` in `section` by `value`, where it
    /// stands: every other pair of the section, the older values of the key
    /// among them, stays as it is and in its place. A key without values
    /// gets `value` as its only one, at the end of the section, and a new
    /// section is created at the end of the document.
    pub fn set_entry_value(&mut self, section: &str, key: &str, value: EntryValue)
        requires
            old(self).wf(),
        ensures
            final(self).wf(),
            final(self)@ == replaced(old(self)@, section@, key@, value@),
            final(self).source_path() == old(self).source_path(),
    {
        self.ensure_section(section);
        let ghost e = self@;
        proof {
            lemma_first_index(e, section@);
            lemma_keys_distinct_kept(
                e,
                section@,
                with_last_replaced(e[first_index(e, section@)].1, key@, value@),
            );
        }
        match sections_get_mut(&mut self.sections, section) {
            Some(entries) => {
                entries.replace_last(key, value);
            },
            None => {},
        }
    }

    /// Writes the document to the end of `writer`: for every section, in
    /// first-seen order, the header line, a line `key=literal` for each
    /// pair, oldest first, and a blank line.
    pub fn write_to(&self, writer: &mut String)
        requires
            self.wf(),
        ensures
            final(writer)@ == old(writer)@ + unit_text(self@),
    {
        let sections = sections_iter(&self.sections);
        let ghost all = self@;
        let ghost start = writer@;
        let mut i: usize = 0;
        while i < sections.len()
            invariant
                i <= sections.len(),
                section_views(sections@) == all,
                writer@ == start + unit_text(all.take(i as int)),
            decreases sections.len() - i,
        {
            let section: &String = sections[i].0;
            let entries: &Entries = sections[i].1;
            let ghost head = writer@;
            proof {
                assert(all[i as int] == (section@, entries@));
                assert(all.take(i as int + 1).drop_last() =~= all.take(i as int));
            }
            writer.push('[');
            writer.append(section.as_str());
            writer.append("]\n");
            let pairs = entries_iter(&entries.data);
            let ghost lines = entries@;
            let ghost body = writer@;
            proof {
                reveal_strlit("]\n");
                assert(body =~= head + (seq!['['] + section@ + seq![']', '\n']));
            }
            let mut k: usize = 0;
            while k < pairs.len()
                invariant
                    k <= pairs.len(),
                    pair_views(pairs@) == lines,
                    writer@ == body + entries_text(lines.take(k as int)),
                decreases pairs.len() - k,
            {
                let key: &String = pairs[k].0;
                let value: &EntryValue = pairs[k].1;
                proof {
                    assert(lines[k as int] == (key@, value@));
                    assert(lines.take(k as int + 1).drop_last() =~= lines.take(k as int));
                }
                writer.append(key.as_str());
                writer.push('=');
                writer.append(value.raw().as_str());
                writer.push('\n');
                k += 1;
                assert(writer@ =~= body + entries_text(lines.take(k as int)));
            }
            writer.push('\n');
            i += 1;
            proof {
                assert(lines.take(pairs.len() as int) =~= lines);
                assert(writer@ =~= start + unit_text(all.take(i as int)));
            }
        }
        assert(all.take(sections.len() as int) =~= all);
    }
}

/// The character sequences of a list of strings.
pub open spec fn texts(strings: Seq<String>) -> Seq<Seq<char>> {
    Seq::new(strings.len(), |i: int| strings[i]@)
}

} // verus!
