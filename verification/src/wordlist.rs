//! Encoding a list of words and splitting the literal into words again.

use vstd::prelude::*;
use crate::cursor::{lemma_scan_while_bounds, scan_while};
use crate::quoted::{
    code_point_at, digits_run, digits_value, escape_at, escape_len, escape_of,
    lemma_hex_digits_of, lemma_quote_at, needs_escaping, quote_spec, quote_words_spec,
    quoted_word, word_needs_escaping_spec,
};
use crate::roundtrip::has_at;
use crate::split::{separators, word_next, word_scan};
use crate::text::is_separator;

verus! {

// ---------------------------------------------------------------------
// All the words of a text
// ---------------------------------------------------------------------

/// A scan never goes backwards, never loses what was collected, and has
/// gone forwards when it has collected something.
pub proof fn lemma_word_scan_progress(
    s: Seq<char>,
    i: int,
    quote: Option<char>,
    backslash: bool,
    word: Seq<char>,
)
    requires
        0 <= i,
    ensures
        i <= word_scan(s, i, quote, backslash, word).1,
        word_scan(s, i, quote, backslash, word).0 matches Some(w) ==> word.len() <= w.len() && (
        word.len() < w.len() ==> i < word_scan(s, i, quote, backslash, word).1),
    decreases (if i < s.len() { s.len() - i } else { 0 }),
{
    if i < s.len() {
        let c = s[i];
        if backslash {
            match escape_at(s, i, true) {
                Err(_) => {},
                Ok(ch) => {
                    lemma_word_scan_progress(s, i + escape_len(c), quote, false, word.push(ch));
                },
            }
        } else if c == '\\' {
            lemma_word_scan_progress(s, i + 1, quote, true, word);
        } else {
            match quote {
                Some(q) => if c == q {
                    lemma_word_scan_progress(s, i + 1, None, false, word);
                } else {
                    lemma_word_scan_progress(s, i + 1, quote, false, word.push(c));
                },
                None => if c == '\'' || c == '"' {
                    lemma_word_scan_progress(s, i + 1, Some(c), false, word);
                } else if is_separator(c) {
                } else {
                    lemma_word_scan_progress(s, i + 1, None, false, word.push(c));
                },
            }
        }
    }
}

/// A call that yields a word leaves the tokenizer further on.
pub proof fn lemma_word_next_progress(s: Seq<char>, i: int)
    requires
        0 <= i <= s.len(),
    ensures
        word_next(s, i).0 is Some ==> i < word_next(s, i).1,
{
    lemma_scan_while_bounds(s, i, separators());
    lemma_word_scan_progress(s, scan_while(s, i, separators()), None, false, Seq::empty());
}

/// The words that the interpreting tokenizer yields from index `i` on, call
/// after call, up to the first call that yields none.
pub open spec fn words_from(s: Seq<char>, i: int) -> Seq<Seq<char>>
    decreases (if 0 <= i < s.len() { s.len() - i } else { 0 }),
{
    if i < 0 || i >= s.len() {
        Seq::empty()
    } else {
        match word_next(s, i).0 {
            None => Seq::empty(),
            Some(w) => {
                proof {
                    lemma_word_next_progress(s, i);
                }
                seq![w] + words_from(s, word_next(s, i).1)
            },
        }
    }
}

// ---------------------------------------------------------------------
// One encoded word
// ---------------------------------------------------------------------

/// Whether a word comes back when its list is encoded and split: it is not
/// empty and holds no NUL.
pub open spec fn word_survives(w: Seq<char>) -> bool {
    w.len() > 0 && forall|i: int| 0 <= i < w.len() ==> #[trigger] w[i] != '\0'
}

/// Whether a text ends at index `e` or goes on with a space there.
pub open spec fn ends_word(t: Seq<char>, e: int) -> bool {
    e == t.len() || (0 <= e < t.len() && t[e] == ' ')
}

/// A word that stands bare in the text, with nothing in it that the encoder
/// looks at, is scanned as it stands.
pub proof fn lemma_word_scan_bare(t: Seq<char>, p: int, w: Seq<char>, j: int)
    requires
        has_at(t, p, w),
        !word_needs_escaping_spec(w),
        ends_word(t, p + w.len()),
        0 <= j <= w.len(),
    ensures
        word_scan(t, p + j, None, false, w.take(j)) == (Some(w), p + w.len()),
    decreases w.len() - j,
{
    if j == w.len() {
        assert(w.take(j) =~= w);
    } else {
        let c = w[j];
        assert(t[p + j] == c);
        assert(!needs_escaping(c));
        assert(w.take(j).push(c) =~= w.take(j + 1));
        lemma_word_scan_bare(t, p, w, j + 1);
    }
}

/// Inside double quotes the scan steps over the escape of one character
/// that is not NUL, and collects that character.
pub proof fn lemma_word_scan_step(t: Seq<char>, p: int, word: Seq<char>, c: char)
    requires
        0 <= p,
        p + escape_of(c).len() <= t.len(),
        forall|k: int| 0 <= k < escape_of(c).len() ==> #[trigger] t[p + k] == escape_of(c)[k],
        c != '\0',
    ensures
        word_scan(t, p, Some('"'), false, word) == word_scan(
            t,
            p + escape_of(c).len(),
            Some('"'),
            false,
            word.push(c),
        ),
{
    let esc = escape_of(c);
    assert(t[p + 0] == esc[0]);
    if esc.len() == 1 {
    } else {
        // a backslash, and the escape behind it
        assert(t[p + 1] == esc[1]);
        if esc.len() > 2 {
            assert(t[p + 2] == esc[2]);
            assert(t[p + 3] == esc[3]);
            let n = c as u32 as int;
            lemma_hex_digits_of(n);
            reveal_with_fuel(digits_run, 3);
            reveal_with_fuel(digits_value, 3);
            assert(digits_run(t, p + 2, 2, 16) == 2);
            assert(digits_value(t, p + 2, 2, 16) == n);
            assert(code_point_at(t, p + 2, 2, 16) == Ok::<char, Seq<char>>(c));
        }
        assert(escape_at(t, p + 1, true) == Ok::<char, Seq<char>>(c));
        assert(p + 1 + escape_len(t[p + 1]) == p + esc.len());
        assert(word_scan(t, p, Some('"'), false, word) == word_scan(
            t,
            p + 1,
            Some('"'),
            true,
            word,
        ));
        assert(word_scan(t, p + 1, Some('"'), true, word) == word_scan(
            t,
            p + 1 + escape_len(t[p + 1]),
            Some('"'),
            false,
            word.push(c),
        ));
    }
}

/// Inside double quotes, the literal of a word without NUL is scanned back
/// into the word.
pub proof fn lemma_word_scan_quoted(t: Seq<char>, p: int, w: Seq<char>, j: int)
    requires
        has_at(t, p, quote_spec(w)),
        forall|i: int| 0 <= i < w.len() ==> #[trigger] w[i] != '\0',
        0 <= j <= w.len(),
    ensures
        word_scan(t, p + quote_spec(w.take(j)).len(), Some('"'), false, w.take(j)) == word_scan(
            t,
            p + quote_spec(w).len(),
            Some('"'),
            false,
            w,
        ),
    decreases w.len() - j,
{
    if j == w.len() {
        assert(w.take(j) =~= w);
    } else {
        let q = quote_spec(w);
        let at = quote_spec(w.take(j)).len() as int;
        lemma_quote_at(w, j);
        assert forall|k: int| 0 <= k < escape_of(w[j]).len() implies #[trigger] t[p + at + k]
            == escape_of(w[j])[k] by {
            assert(q[at + k] == escape_of(w[j])[k]);
            assert(t[p + (at + k)] == q[at + k]);
        }
        lemma_word_scan_step(t, p + at, w.take(j), w[j]);
        assert(w.take(j).push(w[j]) =~= w.take(j + 1));
        lemma_word_scan_quoted(t, p, w, j + 1);
    }
}

/// An encoded word that stands in the text, with the end of the text or a
/// space behind it, is scanned back into the word.
pub proof fn lemma_word_scan_encoded(t: Seq<char>, p: int, w: Seq<char>)
    requires
        has_at(t, p, quoted_word(w)),
        word_survives(w),
        ends_word(t, p + quoted_word(w).len()),
    ensures
        word_scan(t, p, None, false, Seq::empty()) == (Some(w), p + quoted_word(w).len()),
        !is_separator(t[p]),
{
    if word_needs_escaping_spec(w) {
        let q = quote_spec(w);
        let text = quoted_word(w);
        assert(text.len() == q.len() + 2);
        assert(t[p] == '"') by {
            assert(text[0] == '"');
            assert(t[p + 0] == text[0]);
        }
        assert forall|k: int| 0 <= k < q.len() implies t[p + 1 + k] == #[trigger] q[k] by {
            assert(text[1 + k] == q[k]);
            assert(t[p + (1 + k)] == text[1 + k]);
        }
        assert(t[p + 1 + q.len()] == '"') by {
            assert(text[1 + q.len() as int] == '"');
            assert(t[p + (1 + q.len())] == text[1 + q.len() as int]);
        }
        assert(has_at(t, p + 1, q));
        lemma_word_scan_quoted(t, p + 1, w, 0);
        assert(w.take(0) =~= Seq::<char>::empty());
        let close = p + 1 + q.len();
        assert(word_scan(t, close, Some('"'), false, w) == word_scan(t, close + 1, None, false, w));
    } else {
        lemma_word_scan_bare(t, p, w, 0);
        assert(w.take(0) =~= Seq::<char>::empty());
        assert(t[p + 0] == w[0]);
        assert(!needs_escaping(w[0]));
    }
}

// ---------------------------------------------------------------------
// The encoded list
// ---------------------------------------------------------------------

/// Where the encoded word at index `k` starts in the encoded list: behind
/// the words before it and, but for the first word, behind one space.
pub open spec fn word_start(ws: Seq<Seq<char>>, k: int) -> int {
    if k == 0 {
        0
    } else {
        quote_words_spec(ws.take(k)).len() as int + 1
    }
}

/// The encoded list holds the encoded word at index `k` at its start, with
/// a space before it unless it is the first, and with a space or the end of
/// the list behind it.
pub proof fn lemma_quote_words_at(ws: Seq<Seq<char>>, k: int)
    requires
        0 <= k < ws.len(),
    ensures
        has_at(quote_words_spec(ws), word_start(ws, k), quoted_word(ws[k])),
        word_start(ws, k) + quoted_word(ws[k]).len() == quote_words_spec(ws.take(k + 1)).len(),
        k > 0 ==> quote_words_spec(ws)[word_start(ws, k) - 1] == ' ',
        k + 1 == ws.len() ==> quote_words_spec(ws.take(k + 1)) == quote_words_spec(ws),
    decreases ws.len() - k,
{
    let t = quote_words_spec(ws);
    let word = quoted_word(ws[k]);
    if k + 1 == ws.len() {
        assert(ws.take(k + 1) =~= ws);
        assert(ws.drop_last() =~= ws.take(k));
        if k == 0 {
            assert(has_at(t, 0, word));
        } else {
            let head = quote_words_spec(ws.take(k));
            assert(t == head + seq![' '] + word);
            assert forall|i: int| 0 <= i < word.len() implies t[head.len() + 1 + i]
                == #[trigger] word[i] by {}
        }
    } else {
        let front = ws.drop_last();
        lemma_quote_words_at(front, k);
        assert(front[k] == ws[k]);
        assert(front.take(k) =~= ws.take(k));
        assert(front.take(k + 1) =~= ws.take(k + 1));
        let head = quote_words_spec(front);
        assert(t == head + seq![' '] + quoted_word(ws.last()));
        assert forall|i: int| 0 <= i < word.len() implies t[word_start(ws, k) + i]
            == #[trigger] word[i] by {
            assert(head[word_start(front, k) + i] == word[i]);
        }
        if k > 0 {
            assert(t[word_start(ws, k) - 1] == head[word_start(front, k) - 1]);
        }
    }
}

/// Skipping separators from a space that stands before something else, or
/// from that something itself, stops there.
pub proof fn lemma_skip_one_space(t: Seq<char>, from: int, start: int)
    requires
        0 <= from <= start < t.len(),
        from == start || (from + 1 == start && t[from] == ' '),
        !is_separator(t[start]),
    ensures
        scan_while(t, from, separators()) == start,
{
    assert(separators()[0] == ' ');
    if separators().contains(t[start]) {
        let i = choose|i: int| 0 <= i < separators().len() && separators()[i] == t[start];
        assert(is_separator(t[start]));
    }
    assert(scan_while(t, start, separators()) == start);
}

/// From the end of the encoded word before it, one call of the tokenizer
/// yields the word at index `k` and stops at the end of its encoding.
pub proof fn lemma_word_next_encoded(ws: Seq<Seq<char>>, k: int)
    requires
        forall|i: int| 0 <= i < ws.len() ==> word_survives(#[trigger] ws[i]),
        0 <= k < ws.len(),
    ensures
        quote_words_spec(ws.take(k)).len() < quote_words_spec(ws).len(),
        word_next(quote_words_spec(ws), quote_words_spec(ws.take(k)).len() as int) == (
            Some(ws[k]),
            quote_words_spec(ws.take(k + 1)).len() as int,
        ),
{
    let t = quote_words_spec(ws);
    let from = quote_words_spec(ws.take(k)).len() as int;
    let w = ws[k];
    let start = word_start(ws, k);
    let end = quote_words_spec(ws.take(k + 1)).len() as int;
    lemma_quote_words_at(ws, k);
    assert(word_survives(w));
    if k + 1 < ws.len() {
        lemma_quote_words_at(ws, k + 1);
        assert(t[end] == ' ');
    }
    assert(ends_word(t, end));
    lemma_word_scan_encoded(t, start, w);
    if k == 0 {
        assert(ws.take(0) =~= Seq::<Seq<char>>::empty());
    }
    lemma_skip_one_space(t, from, start);
}

/// From the end of the encoded word before the one at index `k`, the
/// interpreting tokenizer yields the words from index `k` on.
pub proof fn lemma_words_from_encoded(ws: Seq<Seq<char>>, k: int)
    requires
        forall|i: int| 0 <= i < ws.len() ==> word_survives(#[trigger] ws[i]),
        0 <= k <= ws.len(),
    ensures
        words_from(quote_words_spec(ws), quote_words_spec(ws.take(k)).len() as int) == ws.skip(k),
    decreases ws.len() - k,
{
    if k == ws.len() {
        assert(ws.take(k) =~= ws);
        assert(ws.skip(k) =~= Seq::<Seq<char>>::empty());
    } else {
        lemma_word_next_encoded(ws, k);
        lemma_words_from_encoded(ws, k + 1);
        assert(seq![ws[k]] + ws.skip(k + 1) =~= ws.skip(k));
    }
}

/// Splitting the literal of a list of words with the interpreting tokenizer
/// gives the words back, provided none of them is empty or holds a NUL.
pub proof fn lemma_quote_words_then_split(ws: Seq<Seq<char>>)
    requires
        forall|i: int| 0 <= i < ws.len() ==> word_survives(#[trigger] ws[i]),
    ensures
        words_from(quote_words_spec(ws), 0) == ws,
{
    lemma_words_from_encoded(ws, 0);
    assert(ws.take(0) =~= Seq::<Seq<char>>::empty());
    assert(ws.skip(0) =~= ws);
}

} // verus!
