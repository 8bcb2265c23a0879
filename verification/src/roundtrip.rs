//! Writing a document as text and parsing the text again.

use vstd::prelude::*;
use crate::cursor::{scan_until, scan_while};
use crate::multimap::{first_index, keys_distinct};
use crate::parser::{
    blanks, entry_at, header_at, is_comment_start, is_key_char, is_key_spec, key_stops,
    parse_spec, section_at, section_body, unit_scan, value_scan, with_raw_entries, Fault,
};
use crate::quoted::{
    code_point_at, digit_at, digits_run, escape_at, escape_len, named_escape, opens_quote,
    unquote_from, unquote_spec,
};
use crate::text::is_ascii_space;
use crate::unit::{
    appended_all, decoded, entries_text, entry_line, lemma_first_index, lemma_keys_distinct_kept,
    section_text, unit_text, with_section, UnitView,
};
use crate::value::{PairsView, ValueView};

verus! {

// ---------------------------------------------------------------------
// Documents whose text can be read again
// ---------------------------------------------------------------------

/// Whether a backslash is left without the character it escapes after the
/// first `n` characters, when each backslash is paired with the character
/// behind it.
pub open spec fn dangling(literal: Seq<char>, n: int) -> bool
    decreases n,
{
    if n <= 0 {
        false
    } else {
        !dangling(literal, n - 1) && literal[n - 1] == '\\'
    }
}

/// Whether a literal can stand on one line behind an equals sign and be read
/// back as it is: it holds no line feed, does not start with a space or a
/// tab, and decodes.
pub open spec fn literal_fits_line(literal: Seq<char>) -> bool {
    &&& forall|i: int| 0 <= i < literal.len() ==> #[trigger] literal[i] != '\n'
    &&& literal.len() > 0 ==> literal[0] != ' ' && literal[0] != '\t'
    &&& unquote_spec(literal) is Ok
}

/// Whether a name can stand in a section header: it is not empty and holds
/// neither a closing bracket nor a line feed.
pub open spec fn name_fits_header(name: Seq<char>) -> bool {
    &&& name.len() > 0
    &&& forall|i: int| 0 <= i < name.len() ==> #[trigger] name[i] != ']' && name[i] != '\n'
}

/// Whether a pair can be written as a line and read back: its key is a key
/// and its literal fits a line.
pub open spec fn pair_fits(pair: (Seq<char>, ValueView)) -> bool {
    is_key_spec(pair.0) && literal_fits_line(pair.1.literal)
}

/// Whether every pair of a list can be written as a line and read back.
pub open spec fn pairs_fit(pairs: PairsView) -> bool {
    forall|i: int| 0 <= i < pairs.len() ==> pair_fits(#[trigger] pairs[i])
}

/// Whether a section can be written and read back: its name fits a header
/// and its pairs fit their lines.
pub open spec fn section_fits(section: (Seq<char>, PairsView)) -> bool {
    name_fits_header(section.0) && pairs_fit(section.1)
}

/// Whether the text of a document says all there is to the document but the
/// logical strings: the section names are distinct and fit a header, the keys
/// are keys, and the literals fit a line.
pub open spec fn writable(d: UnitView) -> bool {
    &&& keys_distinct(d)
    &&& forall|i: int| 0 <= i < d.len() ==> section_fits(#[trigger] d[i])
}

/// The value as it is read from its literal.
pub open spec fn reread_value(v: ValueView) -> ValueView {
    ValueView { literal: v.literal, logical: decoded(v) }
}

/// The pairs as they are read from their lines.
pub open spec fn reread_pairs(pairs: PairsView) -> PairsView {
    Seq::new(pairs.len(), |i: int| (pairs[i].0, reread_value(pairs[i].1)))
}

/// The document as it is read from its text: every logical string is what
/// the literal decodes to.
pub open spec fn reread(d: UnitView) -> UnitView {
    Seq::new(d.len(), |i: int| (d[i].0, reread_pairs(d[i].1)))
}

/// Keys and literals of a list of pairs.
pub open spec fn raw_pairs(pairs: PairsView) -> Seq<(Seq<char>, Seq<char>)> {
    Seq::new(pairs.len(), |i: int| (pairs[i].0, pairs[i].1.literal))
}

// ---------------------------------------------------------------------
// A text within a text
// ---------------------------------------------------------------------

/// Whether `t` holds the text `x` from index `p` on.
pub open spec fn has_at(t: Seq<char>, p: int, x: Seq<char>) -> bool {
    &&& 0 <= p
    &&& p + x.len() <= t.len()
    &&& forall|i: int| 0 <= i < x.len() ==> t[p + i] == #[trigger] x[i]
}

/// A text that stands at `p` has its first part at `p` and its second part
/// right behind.
pub proof fn lemma_has_at_parts(t: Seq<char>, p: int, a: Seq<char>, b: Seq<char>)
    requires
        has_at(t, p, a + b),
    ensures
        has_at(t, p, a),
        has_at(t, p + a.len(), b),
{
    assert forall|i: int| 0 <= i < a.len() implies t[p + i] == #[trigger] a[i] by {
        assert((a + b)[i] == a[i]);
    }
    assert forall|i: int| 0 <= i < b.len() implies t[p + a.len() + i] == #[trigger] b[i] by {
        assert((a + b)[a.len() + i] == b[i]);
    }
}

/// A text stands where it was put.
pub proof fn lemma_has_at_concat(a: Seq<char>, x: Seq<char>, b: Seq<char>)
    ensures
        has_at(a + x + b, a.len() as int, x),
{
    let t = a + x + b;
    assert forall|i: int| 0 <= i < x.len() implies t[a.len() + i] == #[trigger] x[i] by {}
}

// ---------------------------------------------------------------------
// A literal that decodes ends in no lone backslash
// ---------------------------------------------------------------------

/// A run of digits as long as was asked for is made of digits.
pub proof fn lemma_digits_run_full(s: Seq<char>, start: int, count: nat, radix: int)
    requires
        digits_run(s, start, count, radix) == count,
    ensures
        forall|k: int| start <= k < start + count ==> #[trigger] digit_at(s, k, radix),
    decreases count,
{
    if count > 0 {
        lemma_digits_run_bound(s, start + 1, (count - 1) as nat, radix);
        lemma_digits_run_full(s, start + 1, (count - 1) as nat, radix);
        assert(digit_at(s, start, radix));
    }
}

/// A run of digits is no longer than was asked for.
pub proof fn lemma_digits_run_bound(s: Seq<char>, start: int, count: nat, radix: int)
    ensures
        digits_run(s, start, count, radix) <= count,
    decreases count,
{
    if count > 0 {
        lemma_digits_run_bound(s, start + 1, (count - 1) as nat, radix);
    }
}

/// Behind a place where no backslash waits, a run without backslashes
/// leaves none waiting.
pub proof fn lemma_dangling_run(s: Seq<char>, a: int, b: int)
    requires
        0 <= a <= b <= s.len(),
        !dangling(s, a),
        forall|k: int| a <= k < b ==> #[trigger] s[k] != '\\',
    ensures
        !dangling(s, b),
    decreases b - a,
{
    if a < b {
        lemma_dangling_run(s, a, b - 1);
        assert(s[b - 1] != '\\');
    }
}

/// A numeric escape that decodes is made of digits, none of them a
/// backslash.
pub proof fn lemma_code_point_digits(s: Seq<char>, start: int, count: nat, radix: int)
    requires
        0 <= start,
        code_point_at(s, start, count, radix) is Ok,
    ensures
        start + count <= s.len(),
        forall|k: int| start <= k < start + count ==> #[trigger] s[k] != '\\',
{
    lemma_digits_run_bound(s, start, count, radix);
    lemma_digits_run_full(s, start, count, radix);
    assert forall|k: int| start <= k < start + count implies #[trigger] s[k] != '\\' by {
        assert(digit_at(s, k, radix));
    }
    if count > 0 {
        assert(digit_at(s, start + count - 1, radix));
    }
}

/// Where decoding succeeds from a place at which no backslash waits, no
/// backslash waits at the end.
pub proof fn lemma_decodable_not_dangling(
    s: Seq<char>,
    i: int,
    out: Seq<char>,
    quote: Option<char>,
)
    requires
        0 <= i <= s.len(),
        !dangling(s, i),
        unquote_from(s, i, out, quote) is Ok,
    ensures
        !dangling(s, s.len() as int),
    decreases s.len() - i,
{
    if i < s.len() {
        let c = s[i];
        if (c == '\'' || c == '"') && quote is None && opens_quote(out) {
            lemma_decodable_not_dangling(s, i + 1, out, Some(c));
        } else if c == '\\' {
            let sel = s[i + 1];
            let j = i + 1 + escape_len(sel);
            let ch = escape_at(s, i + 1, false)->Ok_0;
            assert(dangling(s, i + 1));
            assert(!dangling(s, i + 2));
            if named_escape(sel) is Some {
            } else if sel == 'x' {
                lemma_code_point_digits(s, i + 2, 2, 16);
            } else if sel == 'u' {
                lemma_code_point_digits(s, i + 2, 4, 16);
            } else if sel == 'U' {
                lemma_code_point_digits(s, i + 2, 8, 16);
            } else {
                lemma_code_point_digits(s, i + 1, 3, 8);
            }
            lemma_dangling_run(s, i + 2, j);
            lemma_decodable_not_dangling(s, j, out.push(ch), quote);
        } else if quote == Some(c) {
            lemma_decodable_not_dangling(s, i + 1, out, None);
        } else {
            lemma_decodable_not_dangling(s, i + 1, out.push(c), quote);
        }
    }
}

// ---------------------------------------------------------------------
// Reading one line
// ---------------------------------------------------------------------

/// `scan_until` stops at the first stop: at `j`, when there is none before
/// `j` and `j` holds one or is the end.
pub proof fn lemma_scan_until_to(t: Seq<char>, i: int, j: int, stops: Seq<char>)
    requires
        0 <= i <= j <= t.len(),
        forall|k: int| i <= k < j ==> !stops.contains(#[trigger] t[k]),
        j == t.len() || stops.contains(t[j]),
    ensures
        scan_until(t, i, stops) == j,
    decreases j - i,
{
    if i < j {
        assert(!stops.contains(t[i]));
        lemma_scan_until_to(t, i + 1, j, stops);
    }
}

/// A key character ends no key and starts nothing but an entry.
pub proof fn lemma_key_char(c: char)
    requires
        is_key_char(c),
    ensures
        !key_stops().contains(c),
        !is_comment_start(c),
        c != '[',
        !is_ascii_space(c),
{
    if key_stops().contains(c) {
        let i = choose|i: int| 0 <= i < key_stops().len() && key_stops()[i] == c;
        assert(c == '=' || c == ' ' || c == '\t' || c == '\n' || c == '\r');
    }
}

/// What has been collected after the first `k` characters of a literal:
/// all of them, but for a backslash that waits for its character.
pub open spec fn collected(literal: Seq<char>, k: int) -> Seq<char> {
    if dangling(literal, k) {
        literal.take(k - 1)
    } else {
        literal.take(k)
    }
}

/// Scanning a value that fits its line gives the literal as it stands, and
/// stops at the line feed behind it.
pub proof fn lemma_value_scan_plain(t: Seq<char>, p: int, literal: Seq<char>, k: int)
    requires
        has_at(t, p, literal),
        p + literal.len() < t.len(),
        t[p + literal.len()] == '\n',
        forall|i: int| 0 <= i < literal.len() ==> #[trigger] literal[i] != '\n',
        !dangling(literal, literal.len() as int),
        0 <= k <= literal.len(),
    ensures
        value_scan(t, p + k, dangling(literal, k), false, collected(literal, k)) == (
            literal,
            p + literal.len(),
        ),
    decreases literal.len() - k,
{
    if k == literal.len() {
        assert(literal.take(k) =~= literal);
    } else {
        let c = literal[k];
        assert(t[p + k] == c);
        assert(c != '\n');
        lemma_value_scan_plain(t, p, literal, k + 1);
        if dangling(literal, k) {
            assert(literal[k - 1] == '\\');
            assert(literal.take(k - 1).push('\\').push(c) =~= literal.take(k + 1));
        } else if c == '\\' {
            assert(dangling(literal, k + 1));
        } else {
            assert(literal.take(k).push(c) =~= literal.take(k + 1));
        }
    }
}

/// An entry line is read as its key and its literal, up to the line feed.
pub proof fn lemma_entry_line(t: Seq<char>, p: int, key: Seq<char>, literal: Seq<char>)
    requires
        has_at(t, p, entry_line(key, literal)),
        is_key_spec(key),
        literal_fits_line(literal),
    ensures
        entry_at(t, p) == Ok::<((Seq<char>, Seq<char>), int), Fault>(
            ((key, literal), p + key.len() + 1 + literal.len()),
        ),
        p + key.len() + 1 + literal.len() < t.len(),
        t[p + key.len() + 1 + literal.len()] == '\n',
        !is_comment_start(t[p]),
        t[p] != '[',
        !is_ascii_space(t[p]),
{
    let line = entry_line(key, literal);
    let eq = p + key.len();
    let start = eq + 1;
    let stop = start + literal.len();
    assert(line.len() == key.len() + literal.len() + 2);
    assert forall|i: int| 0 <= i < key.len() implies t[p + i] == #[trigger] key[i] by {
        assert(line[i] == key[i]);
    }
    assert(t[eq] == '=') by {
        assert(line[key.len() as int] == '=');
    }
    assert forall|i: int| 0 <= i < literal.len() implies t[start + i] == #[trigger] literal[i] by {
        assert(line[key.len() + 1 + i] == literal[i]);
    }
    assert(t[stop] == '\n') by {
        assert(line[key.len() + 1 + literal.len() as int] == '\n');
    }
    // the key
    assert forall|k: int| p <= k < eq implies !key_stops().contains(#[trigger] t[k]) by {
        assert(t[p + (k - p)] == key[k - p]);
        lemma_key_char(key[k - p]);
    }
    assert(key_stops()[0] == '=');
    lemma_scan_until_to(t, p, eq, key_stops());
    assert(t.subrange(p, eq) =~= key);
    // the equals sign, with nothing around it
    assert(!blanks().contains('='));
    if literal.len() > 0 {
        assert(t[start + 0] == literal[0]);
        assert(!blanks().contains(literal[0]));
    } else {
        assert(!blanks().contains('\n'));
    }
    assert(scan_while(t, start, blanks()) == start);
    // the value
    assert(has_at(t, start, literal));
    lemma_decodable_not_dangling(literal, 0, Seq::empty(), None);
    lemma_value_scan_plain(t, start, literal, 0);
    assert(literal.take(0) =~= Seq::<char>::empty());
    // how the line starts
    assert(t[p + 0] == key[0]);
    lemma_key_char(key[0]);
}

// ---------------------------------------------------------------------
// Reading one section
// ---------------------------------------------------------------------

/// The lines of two lists of pairs joined are the lines of the one and then
/// the lines of the other.
pub proof fn lemma_entries_text_concat(
    a: PairsView,
    b: PairsView,
)
    ensures
        entries_text(a + b) == entries_text(a) + entries_text(b),
    decreases b.len(),
{
    if b.len() == 0 {
        assert(a + b =~= a);
        assert(entries_text(a) + entries_text(b) =~= entries_text(a));
    } else {
        lemma_entries_text_concat(a, b.drop_last());
        assert((a + b).drop_last() =~= a + b.drop_last());
        assert((a + b).last() == b.last());
        let line = entry_line(b.last().0, b.last().1.literal);
        assert(entries_text(a) + entries_text(b.drop_last()) + line =~= entries_text(a) + (
        entries_text(b.drop_last()) + line));
    }
}

/// In the lines of a section, the line of the pair at index `k` stands right
/// behind the lines of the pairs before it.
pub proof fn lemma_entries_text_at(pairs: PairsView, k: int)
    requires
        0 <= k < pairs.len(),
    ensures
        entries_text(pairs.take(k + 1)) == entries_text(pairs.take(k)) + entry_line(
            pairs[k].0,
            pairs[k].1.literal,
        ),
        entries_text(pairs) == entries_text(pairs.take(k + 1)) + entries_text(pairs.skip(k + 1)),
{
    assert(pairs.take(k + 1).drop_last() =~= pairs.take(k));
    assert(pairs.take(k + 1) + pairs.skip(k + 1) =~= pairs);
    lemma_entries_text_concat(pairs.take(k + 1), pairs.skip(k + 1));
}

/// Reading the lines of a section from the line of the pair at index `k` on
/// comes to the end of the lines with all the pairs.
pub proof fn lemma_section_lines(
    t: Seq<char>,
    p: int,
    pairs: PairsView,
    k: int,
)
    requires
        has_at(t, p, entries_text(pairs)),
        pairs_fit(pairs),
        0 <= k <= pairs.len(),
    ensures
        section_body(t, p + entries_text(pairs.take(k)).len(), raw_pairs(pairs.take(k)))
            == section_body(t, p + entries_text(pairs).len(), raw_pairs(pairs)),
    decreases pairs.len() - k,
{
    if k == pairs.len() {
        assert(pairs.take(k) =~= pairs);
    } else {
        let key = pairs[k].0;
        let literal = pairs[k].1.literal;
        let line = entry_line(key, literal);
        let at = p + entries_text(pairs.take(k)).len();
        lemma_entries_text_at(pairs, k);
        assert(pair_fits(pairs[k]));
        // the line stands at `at`
        let head = entries_text(pairs.take(k));
        let tail = entries_text(pairs.skip(k + 1));
        assert(entries_text(pairs) =~= head + (line + tail));
        lemma_has_at_parts(t, p, head, line + tail);
        lemma_has_at_parts(t, at, line, tail);
        lemma_entry_line(t, at, key, literal);
        let stop = at + key.len() + 1 + literal.len();
        assert(line.len() == key.len() + literal.len() + 2);
        assert(raw_pairs(pairs.take(k)).push((key, literal)) =~= raw_pairs(pairs.take(k + 1)));
        // the entry, then the line feed behind it
        assert(section_body(t, at, raw_pairs(pairs.take(k))) == section_body(
            t,
            stop,
            raw_pairs(pairs.take(k + 1)),
        ));
        assert(section_body(t, stop, raw_pairs(pairs.take(k + 1))) == section_body(
            t,
            stop + 1,
            raw_pairs(pairs.take(k + 1)),
        ));
        lemma_section_lines(t, p, pairs, k + 1);
    }
}

/// The text of a section, followed by the end of the text or by another
/// header, is read as the section's name and its pairs.
pub proof fn lemma_section_text(
    t: Seq<char>,
    p: int,
    name: Seq<char>,
    pairs: PairsView,
)
    requires
        has_at(t, p, section_text(name, pairs)),
        name_fits_header(name),
        pairs_fit(pairs),
        p + section_text(name, pairs).len() == t.len() || t[p + section_text(name, pairs).len()]
            == '[',
    ensures
        t[p] == '[',
        section_at(t, p) == Ok::<((Seq<char>, Seq<(Seq<char>, Seq<char>)>), int), Fault>(
            ((name, raw_pairs(pairs)), p + section_text(name, pairs).len()),
        ),
{
    let text = section_text(name, pairs);
    let lines = entries_text(pairs);
    let close = p + 1 + name.len();
    let first = close + 2;
    let blank = first + lines.len();
    assert(text.len() == name.len() + lines.len() + 4);
    assert(t[p] == '[') by {
        assert(text[0] == '[');
    }
    assert forall|i: int| 0 <= i < name.len() implies t[p + 1 + i] == #[trigger] name[i] by {
        assert(text[1 + i] == name[i]);
    }
    assert(t[close] == ']') by {
        assert(text[1 + name.len() as int] == ']');
    }
    assert(t[close + 1] == '\n') by {
        assert(text[2 + name.len() as int] == '\n');
    }
    assert forall|i: int| 0 <= i < lines.len() implies t[first + i] == #[trigger] lines[i] by {
        assert(text[3 + name.len() + i] == lines[i]);
    }
    assert(t[blank] == '\n') by {
        assert(text[3 + name.len() + lines.len() as int] == '\n');
    }
    // the header
    let stops = seq![']', '\n'];
    assert(stops[0] == ']' && stops[1] == '\n');
    assert forall|k: int| p + 1 <= k < close implies !stops.contains(#[trigger] t[k]) by {
        assert(t[p + 1 + (k - p - 1)] == name[k - p - 1]);
    }
    lemma_scan_until_to(t, p + 1, close, stops);
    assert(t.subrange(p + 1, close) =~= name);
    assert(header_at(t, p) == Ok::<(Seq<char>, int), Fault>((name, close + 1)));
    // the line feed behind the header, the lines, the blank line
    let none = Seq::<(Seq<char>, Seq<char>)>::empty();
    assert(section_body(t, close + 1, none) == section_body(t, first, none));
    assert(has_at(t, first, lines));
    lemma_section_lines(t, first, pairs, 0);
    assert(pairs.take(0) =~= PairsView::empty());
    assert(raw_pairs(pairs.take(0)) =~= none);
    assert(section_body(t, blank, raw_pairs(pairs)) == section_body(
        t,
        blank + 1,
        raw_pairs(pairs),
    ));
}

// ---------------------------------------------------------------------
// Reading the document
// ---------------------------------------------------------------------

/// The raw entries of pairs that fit are all decoded and appended.
pub proof fn lemma_with_raw_entries_fit(
    d: UnitView,
    name: Seq<char>,
    pairs: PairsView,
)
    requires
        pairs_fit(pairs),
    ensures
        with_raw_entries(d, name, raw_pairs(pairs)) == Ok::<UnitView, Seq<char>>(
            appended_all(d, name, reread_pairs(pairs)),
        ),
    decreases pairs.len(),
{
    if pairs.len() > 0 {
        let front = pairs.drop_last();
        assert forall|i: int| 0 <= i < front.len() implies pair_fits(#[trigger] front[i]) by {
            assert(pair_fits(pairs[i]));
        }
        lemma_with_raw_entries_fit(d, name, front);
        assert(raw_pairs(pairs).drop_last() =~= raw_pairs(front));
        assert(reread_pairs(pairs).drop_last() =~= reread_pairs(front));
        assert(pair_fits(pairs[pairs.len() - 1]));
    } else {
        assert(raw_pairs(pairs) =~= Seq::<(Seq<char>, Seq<char>)>::empty());
        assert(reread_pairs(pairs) =~= PairsView::empty());
    }
}

/// Appending a list of pairs to a section that is new gives the document
/// with that section, holding the list, at its end.
pub proof fn lemma_appended_all_new(
    d: UnitView,
    name: Seq<char>,
    pairs: PairsView,
)
    requires
        keys_distinct(d),
        first_index(d, name) < 0,
    ensures
        appended_all(with_section(d, name), name, pairs) == d.push((name, pairs)),
    decreases pairs.len(),
{
    let empty = PairsView::empty();
    if pairs.len() == 0 {
        assert(pairs =~= empty);
    } else {
        lemma_appended_all_new(d, name, pairs.drop_last());
        let before = d.push((name, pairs.drop_last()));
        lemma_keys_distinct_kept(d, name, pairs.drop_last());
        assert(first_index(before, name) == d.len());
        assert(pairs.drop_last().push(pairs.last()) =~= pairs);
        assert(before.update(d.len() as int, (name, pairs)) =~= d.push((name, pairs)));
    }
}

/// The text of two lists of sections joined is the text of the one and then
/// the text of the other.
pub proof fn lemma_unit_text_concat(
    a: UnitView,
    b: UnitView,
)
    ensures
        unit_text(a + b) == unit_text(a) + unit_text(b),
    decreases b.len(),
{
    if b.len() == 0 {
        assert(a + b =~= a);
        assert(unit_text(a) + unit_text(b) =~= unit_text(a));
    } else {
        lemma_unit_text_concat(a, b.drop_last());
        assert((a + b).drop_last() =~= a + b.drop_last());
        assert((a + b).last() == b.last());
        let text = section_text(b.last().0, b.last().1);
        assert(unit_text(a) + unit_text(b.drop_last()) + text =~= unit_text(a) + (unit_text(
            b.drop_last(),
        ) + text));
    }
}

/// The text of a document that has sections starts with a bracket.
pub proof fn lemma_unit_text_starts(d: UnitView)
    requires
        d.len() > 0,
    ensures
        unit_text(d).len() > 0,
        unit_text(d)[0] == '[',
    decreases d.len(),
{
    let text = section_text(d.last().0, d.last().1);
    let front = unit_text(d.drop_last());
    assert(text[0] == '[');
    assert(unit_text(d) == front + text);
    if d.len() > 1 {
        lemma_unit_text_starts(d.drop_last());
        assert((front + text)[0] == front[0]);
    } else {
        assert(front.len() == 0);
        assert((front + text)[0] == text[0]);
    }
}

/// Only the literals show in the text.
pub proof fn lemma_entries_text_reread(pairs: PairsView)
    ensures
        entries_text(reread_pairs(pairs)) == entries_text(pairs),
    decreases pairs.len(),
{
    if pairs.len() > 0 {
        lemma_entries_text_reread(pairs.drop_last());
        assert(reread_pairs(pairs).drop_last() =~= reread_pairs(pairs.drop_last()));
    } else {
        assert(reread_pairs(pairs) =~= pairs);
    }
}

/// A document and what is read from its text have the same text.
pub proof fn lemma_unit_text_reread(d: UnitView)
    ensures
        unit_text(reread(d)) == unit_text(d),
    decreases d.len(),
{
    if d.len() > 0 {
        lemma_unit_text_reread(d.drop_last());
        assert(reread(d).drop_last() =~= reread(d.drop_last()));
        lemma_entries_text_reread(d.last().1);
    } else {
        assert(reread(d) =~= d);
    }
}

/// Reading the text of a writable document from the section at index `k`
/// on, with the sections before it read, gives the document as it is read
/// from its text.
pub proof fn lemma_unit_scan_sections(d: UnitView, k: int)
    requires
        writable(d),
        0 <= k <= d.len(),
    ensures
        unit_scan(unit_text(d), unit_text(d.take(k)).len() as int, reread(d.take(k))) == Ok::<
            UnitView,
            Fault,
        >(reread(d)),
    decreases d.len() - k,
{
    let t = unit_text(d);
    if k == d.len() {
        assert(d.take(k) =~= d);
    } else {
        let name = d[k].0;
        let pairs = d[k].1;
        let acc = reread(d.take(k));
        let head = unit_text(d.take(k));
        let text = section_text(name, pairs);
        let tail = unit_text(d.skip(k + 1));
        let p = head.len() as int;
        // where the section stands in the text
        assert(d.take(k + 1).drop_last() =~= d.take(k));
        assert(d.take(k + 1) + d.skip(k + 1) =~= d);
        lemma_unit_text_concat(d.take(k + 1), d.skip(k + 1));
        assert(unit_text(d.take(k + 1)) == head + text);
        assert(t =~= head + text + tail);
        lemma_has_at_concat(head, text, tail);
        if k + 1 < d.len() {
            lemma_unit_text_starts(d.skip(k + 1));
            assert(t[p + text.len()] == tail[0]);
        }
        assert(section_fits(d[k]));
        lemma_section_text(t, p, name, pairs);
        // what the section adds to the document
        assert forall|i: int, j: int| 0 <= i < j < acc.len() implies (#[trigger] acc[i]).0 != (
        #[trigger] acc[j]).0 by {
            assert(d[i].0 != d[j].0);
        }
        lemma_first_index(acc, name);
        if first_index(acc, name) >= 0 {
            let i = first_index(acc, name);
            assert(acc[i].0 == d[i].0);
            assert(d[i].0 != d[k].0);
        }
        lemma_with_raw_entries_fit(with_section(acc, name), name, pairs);
        lemma_appended_all_new(acc, name, reread_pairs(pairs));
        assert(acc.push((name, reread_pairs(pairs))) =~= reread(d.take(k + 1)));
        lemma_unit_scan_sections(d, k + 1);
    }
}

/// Parsing the text of a writable document gives the document, with every
/// logical string read from its literal; and the text of what was parsed is
/// the text that was written.
pub proof fn lemma_write_then_parse(d: UnitView)
    requires
        writable(d),
    ensures
        parse_spec(unit_text(d)) == Ok::<UnitView, Fault>(
            reread(d),
        ),
        unit_text(reread(d)) == unit_text(d),
{
    lemma_unit_scan_sections(d, 0);
    assert(d.take(0) =~= UnitView::empty());
    assert(reread(d.take(0)) =~= UnitView::empty());
    lemma_unit_text_reread(d);
}

} // verus!
