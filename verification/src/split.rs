//! The two tokenizers that split one value into words at whitespace,
//! honouring single and double quotes.

use vstd::prelude::*;
use crate::cursor::{lemma_scan_until_bounds, scan_until, scan_while, Cursor};
use crate::quoted::{code_point_at, escape_at, escape_len, named_escape_of, read_code_point};
use crate::text::{char_is_separator, is_separator};

verus! {

/// The separators, as the list that the scanners are handed.
pub open spec fn separators() -> Seq<char> {
    seq![' ', '\t', '\n', '\r']
}

/// A word as a tokenizer hands it out: an empty word is no word.
pub open spec fn word_or_none(word: Seq<char>) -> Option<Seq<char>> {
    if word.len() == 0 {
        None
    } else {
        Some(word)
    }
}

// ---------------------------------------------------------------------
// Retain-escape tokenizer
// ---------------------------------------------------------------------

/// Scanning one word from index `i` on, with `quote` the quotation that is
/// open and `word` collected so far. A backslash is a character like any
/// other. Gives the word and the index where the scan stops: at a separator
/// outside quotes, or at the end.
pub open spec fn strv_scan(s: Seq<char>, i: int, quote: Option<char>, word: Seq<char>) -> (
    Seq<char>,
    int,
)
    decreases s.len() - i,
{
    if i < 0 || i >= s.len() {
        (word, i)
    } else {
        let c = s[i];
        match quote {
            Some(q) => if c == q {
                strv_scan(s, i + 1, None, word)
            } else {
                strv_scan(s, i + 1, quote, word.push(c))
            },
            None => if c == '\'' || c == '"' {
                strv_scan(s, i + 1, Some(c), word)
            } else if is_separator(c) {
                (word, i)
            } else {
                strv_scan(s, i + 1, None, word.push(c))
            },
        }
    }
}

/// What one call of the retain-escape tokenizer does at index `i`: the word
/// it yields, if any, and the index it leaves the cursor at.
pub open spec fn strv_next(s: Seq<char>, i: int) -> (Option<Seq<char>>, int) {
    let (word, end) = strv_scan(s, scan_while(s, i, separators()), None, Seq::empty());
    (word_or_none(word), end)
}

/// A word ends at or after where it starts, within the text.
pub proof fn lemma_strv_scan_bounds(s: Seq<char>, i: int, quote: Option<char>, word: Seq<char>)
    requires
        0 <= i <= s.len(),
    ensures
        i <= strv_scan(s, i, quote, word).1 <= s.len(),
    decreases s.len() - i,
{
    if i < s.len() {
        let c = s[i];
        match quote {
            Some(q) => if c == q {
                lemma_strv_scan_bounds(s, i + 1, None, word)
            } else {
                lemma_strv_scan_bounds(s, i + 1, quote, word.push(c))
            },
            None => if c == '\'' || c == '"' {
                lemma_strv_scan_bounds(s, i + 1, Some(c), word)
            } else if is_separator(c) {
            } else {
                lemma_strv_scan_bounds(s, i + 1, None, word.push(c))
            },
        }
    }
}

/// Splits a string at whitespace and removes quotes, keeping whitespace
/// inside quotes and leaving every backslash where it is.
pub struct SplitStrv {
    cursor: Cursor,
}

impl SplitStrv {
    /// The text being split.
    pub closed spec fn source(&self) -> Seq<char> {
        self.cursor.source()
    }

    /// How many characters of the text have been consumed.
    pub closed spec fn position(&self) -> nat {
        self.cursor.position()
    }

    /// The position never passes the end of the text.
    pub proof fn lemma_position_in_bounds(&self)
        ensures
            self.position() <= self.source().len(),
    {
        self.cursor.lemma_position_in_bounds();
    }

    fn bump(&mut self)
        ensures
            final(self).source() == old(self).source(),
            final(self).position() == if old(self).position() < old(self).source().len() {
                old(self).position() + 1
            } else {
                old(self).position()
            },
    {
        self.cursor.bump();
    }

    /// A tokenizer at the start of `src`.
    pub fn new(src: &str) -> (s: Self)
        ensures
            s.source() == src@,
            s.position() == 0,
    {
        SplitStrv { cursor: Cursor::new(src) }
    }

    /// The next word, or `None` when the scan comes upon an empty word or the
    /// end of the text.
    pub fn next(&mut self) -> (r: Option<String>)
        ensures
            final(self).source() == old(self).source(),
            final(self).position() == strv_next(old(self).source(), old(self).position() as int).1,
            old(self).position() <= final(self).position() <= old(self).source().len(),
            match strv_next(old(self).source(), old(self).position() as int).0 {
                Some(w) => r matches Some(word) && word@ == w,
                None => r is None,
            },
    {
        let ghost src = self.source();
        let ghost begin = self.position() as int;
        let mut word = String::new();

        // skip initial whitespace
        self.parse_until_none_of(&[' ', '\t', '\n', '\r']);
        let ghost start = self.position() as int;
        let ghost goal = strv_scan(src, start, None, Seq::empty());
        proof {
            assert(seq![' ', '\t', '\n', '\r'] =~= separators());
            lemma_strv_scan_bounds(src, start, None, Seq::empty());
        }

        let mut quote: Option<char> = None;
        let mut cur = self.cursor.cur();
        while cur.is_some()
            invariant
                self.source() == src,
                cur == self.cursor.current(),
                self.position() <= src.len(),
                strv_scan(src, self.position() as int, quote, word@) == goal,
            ensures
                self.source() == src,
                goal == (word@, self.position() as int),
            decreases src.len() - self.position(),
        {
            let c = cur.unwrap();
            if let Some(q) = quote {
                // inside either single or double quotes
                if c == q {
                    quote = None;
                } else {
                    word.push(c);
                }
            } else {
                if c == '\'' || c == '"' {
                    quote = Some(c);
                } else if char_is_separator(c) {
                    // word is done
                    break ;
                } else {
                    word.push(c);
                }
            }
            self.bump();
            cur = self.cursor.cur();
        }

        if word.as_str().is_empty() {
            None
        } else {
            Some(word)
        }
    }

    fn parse_until_none_of(&mut self, end: &[char]) -> (s: String)
        ensures
            final(self).source() == old(self).source(),
            final(self).position() == scan_while(
                old(self).source(),
                old(self).position() as int,
                end@,
            ),
            old(self).position() <= final(self).position() <= old(self).source().len(),
            s@ == old(self).source().subrange(
                old(self).position() as int,
                final(self).position() as int,
            ),
    {
        self.cursor.parse_until_none_of(end)
    }
}

// ---------------------------------------------------------------------
// Interpreting tokenizer
// ---------------------------------------------------------------------

/// Scanning one word from index `i` on, with `quote` the quotation that is
/// open, `backslash` set when the character before was a backslash that
/// starts an escape, and `word` collected so far. Gives the word and the
/// index where the scan stops. A malformed escape gives no word and stops
/// at the end of the text; a backslash that is the last character is dropped.
pub open spec fn word_scan(
    s: Seq<char>,
    i: int,
    quote: Option<char>,
    backslash: bool,
    word: Seq<char>,
) -> (Option<Seq<char>>, int)
    decreases (if i < s.len() { s.len() - i } else { 0 }),
{
    if i < 0 || i >= s.len() {
        (Some(word), i)
    } else {
        let c = s[i];
        if backslash {
            match escape_at(s, i, true) {
                Err(_) => (None, s.len() as int),
                Ok(ch) => word_scan(s, i + escape_len(c), quote, false, word.push(ch)),
            }
        } else if c == '\\' {
            word_scan(s, i + 1, quote, true, word)
        } else {
            match quote {
                Some(q) => if c == q {
                    word_scan(s, i + 1, None, false, word)
                } else {
                    word_scan(s, i + 1, quote, false, word.push(c))
                },
                None => if c == '\'' || c == '"' {
                    word_scan(s, i + 1, Some(c), false, word)
                } else if is_separator(c) {
                    (Some(word), i)
                } else {
                    word_scan(s, i + 1, None, false, word.push(c))
                },
            }
        }
    }
}

/// What one call of the interpreting tokenizer does at index `i`: the word it
/// yields, if any, and the index it leaves the cursor at.
pub open spec fn word_next(s: Seq<char>, i: int) -> (Option<Seq<char>>, int) {
    let (word, end) = word_scan(s, scan_while(s, i, separators()), None, false, Seq::empty());
    match word {
        Some(w) => (word_or_none(w), end),
        None => (None, end),
    }
}

/// Inside a quotation, a run of characters that are neither the closing
/// quote nor a backslash goes into the word as it stands.
pub proof fn lemma_word_scan_quoted_run(s: Seq<char>, i: int, j: int, q: char, word: Seq<char>)
    requires
        0 <= i <= j <= s.len(),
        q != '\\',
        forall|k: int| i <= k < j ==> #[trigger] s[k] != q && s[k] != '\\',
    ensures
        word_scan(s, i, Some(q), false, word) == word_scan(
            s,
            j,
            Some(q),
            false,
            word + s.subrange(i, j),
        ),
    decreases j - i,
{
    if i < j {
        assert(s[i] != q && s[i] != '\\');
        lemma_word_scan_quoted_run(s, i + 1, j, q, word.push(s[i]));
        assert(word.push(s[i]) + s.subrange(i + 1, j) =~= word + s.subrange(i, j));
    } else {
        assert(word + s.subrange(i, j) =~= word);
    }
}

/// Splits a string at whitespace and removes quotes, keeping whitespace
/// inside quotes and replacing escape sequences by what they stand for.
pub struct SplitWord {
    cursor: Cursor,
}

impl SplitWord {
    /// The text being split.
    pub closed spec fn source(&self) -> Seq<char> {
        self.cursor.source()
    }

    /// How many characters of the text have been consumed.
    pub closed spec fn position(&self) -> nat {
        self.cursor.position()
    }

    /// The position never passes the end of the text.
    pub proof fn lemma_position_in_bounds(&self)
        ensures
            self.position() <= self.source().len(),
    {
        self.cursor.lemma_position_in_bounds();
    }

    fn bump(&mut self)
        ensures
            final(self).source() == old(self).source(),
            final(self).position() == if old(self).position() < old(self).source().len() {
                old(self).position() + 1
            } else {
                old(self).position()
            },
    {
        self.cursor.bump();
    }

    /// A tokenizer at the start of `src`.
    pub fn new(src: &str) -> (s: Self)
        ensures
            s.source() == src@,
            s.position() == 0,
    {
        SplitWord { cursor: Cursor::new(src) }
    }

    /// The next word, or `None` when the scan comes upon an empty word, a
    /// malformed escape or the end of the text. After a malformed escape the
    /// text counts as consumed: no later call yields a word.
    pub fn next(&mut self) -> (r: Option<String>)
        ensures
            final(self).source() == old(self).source(),
            final(self).position() == word_next(old(self).source(), old(self).position() as int).1,
            final(self).position() <= old(self).source().len(),
            match word_next(old(self).source(), old(self).position() as int).0 {
                Some(w) => r matches Some(word) && word@ == w,
                None => r is None,
            },
    {
        let ghost src = self.source();
        let mut word = String::new();

        // skip initial whitespace
        self.parse_until_none_of(&[' ', '\t', '\n', '\r']);
        let ghost start = self.position() as int;
        let ghost goal = word_scan(src, start, None, false, Seq::empty());
        proof {
            assert(seq![' ', '\t', '\n', '\r'] =~= separators());
        }

        let mut quote: Option<char> = None;
        let mut backslash = false;
        let mut cur = self.cursor.cur();
        while cur.is_some()
            invariant
                self.source() == src,
                src == old(self).source(),
                goal == word_scan(
                    src,
                    scan_while(src, old(self).position() as int, separators()),
                    None,
                    false,
                    Seq::empty(),
                ),
                cur == self.cursor.current(),
                self.position() <= src.len(),
                quote matches Some(q) ==> q == '\'' || q == '"',
                word_scan(src, self.position() as int, quote, backslash, word@) == goal,
            ensures
                self.source() == src,
                self.position() <= src.len(),
                goal == (Some(word@), self.position() as int),
            decreases src.len() - self.position(),
        {
            let c = cur.unwrap();
            if backslash {
                match self.parse_escape_sequence() {
                    Some(r) => word.push(r),
                    None => {
                        self.cursor.exhaust();
                        return None;
                    },
                }
                backslash = false;
            } else if let Some(q) = quote {
                // inside either single or double quotes
                let ghost from = self.position() as int;
                let ghost before = word@;
                let run = self.parse_until_any_of(&[q, '\\']);
                word.append(run.as_str());
                proof {
                    let to = self.position() as int;
                    lemma_scan_until_bounds(src, from, seq![q, '\\']);
                    assert(seq![q, '\\'][0] == q && seq![q, '\\'][1] == '\\');
                    assert forall|k: int| from <= k < to implies #[trigger] src[k] != q && src[k]
                        != '\\' by {
                        assert(!seq![q, '\\'].contains(src[k]));
                    }
                    lemma_word_scan_quoted_run(src, from, to, q, before);
                }
                match self.cursor.cur() {
                    Some(c) => {
                        if c == q {
                            quote = None;
                        } else if c == '\\' {
                            backslash = true;
                        } else {
                            assert(seq![q, '\\'].contains(c));
                        }
                    },
                    None => {},
                }
            } else {
                if c == '\'' || c == '"' {
                    quote = Some(c);
                } else if c == '\\' {
                    backslash = true;
                } else if char_is_separator(c) {
                    // word is done
                    break ;
                } else {
                    word.push(c);
                }
            }
            self.bump();
            cur = self.cursor.cur();
        }

        if word.as_str().is_empty() {
            None
        } else {
            Some(word)
        }
    }

    /// Decodes the escape whose first character after the backslash is the
    /// current one, leaving the cursor on the escape's last character. A
    /// letter that introduces no escape stands for itself.
    fn parse_escape_sequence(&mut self) -> (r: Option<char>)
        ensures
            final(self).source() == old(self).source(),
            match escape_at(old(self).source(), old(self).position() as int, true) {
                Ok(ch) => r == Some(ch),
                Err(_) => r is None,
            },
            r is Some ==> old(self).position() < old(self).source().len() && final(
                self
            ).position() == old(self).position() + escape_len(
                old(self).source()[old(self).position() as int],
            ) - 1 && final(self).position() < old(self).source().len(),
    {
        if let Some(c) = self.cursor.cur() {
            let r = match named_escape_of(c) {
                Some(r) => r,
                None => match c {
                    'x' => {
                        // 2 character hex encoding
                        self.bump();
                        self.parse_unicode_escape(Some('x'), 2, 16)?
                    },
                    'u' => {
                        // 4 character hex encoding
                        self.bump();
                        self.parse_unicode_escape(Some('u'), 4, 16)?
                    },
                    'U' => {
                        // 8 character hex encoding
                        self.bump();
                        self.parse_unicode_escape(Some('U'), 8, 16)?
                    },
                    '0'..='7' => {
                        // 3 character octal encoding
                        self.parse_unicode_escape(None, 3, 8)?
                    },
                    c => c,
                },
            };
            Some(r)
        } else {
            None
        }
    }

    fn parse_unicode_escape(&mut self, prefix: Option<char>, max_chars: usize, radix: u32) -> (r:
        Option<char>)
        requires
            prefix is None || prefix == Some('x') || prefix == Some('u') || prefix == Some('U'),
            (radix == 16 && 1 <= max_chars <= 8) || (radix == 8 && 1 <= max_chars <= 10),
        ensures
            final(self).source() == old(self).source(),
            match code_point_at(
                old(self).source(),
                old(self).position() as int,
                max_chars as nat,
                radix as int,
            ) {
                Ok(ch) => r == Some(ch),
                Err(_) => r is None,
            },
            r is Some ==> final(self).position() == old(self).position() + max_chars - 1
                && final(self).position() < old(self).source().len(),
    {
        match read_code_point(&mut self.cursor, max_chars, radix) {
            Ok(ch) => Some(ch),
            Err(_) => None,
        }
    }

    fn parse_until_any_of(&mut self, end: &[char]) -> (s: String)
        ensures
            final(self).source() == old(self).source(),
            final(self).position() == scan_until(
                old(self).source(),
                old(self).position() as int,
                end@,
            ),
            old(self).position() <= final(self).position() <= old(self).source().len(),
            s@ == old(self).source().subrange(
                old(self).position() as int,
                final(self).position() as int,
            ),
    {
        self.cursor.parse_until_any_of(end)
    }

    fn parse_until_none_of(&mut self, end: &[char]) -> (s: String)
        ensures
            final(self).source() == old(self).source(),
            final(self).position() == scan_while(
                old(self).source(),
                old(self).position() as int,
                end@,
            ),
            old(self).position() <= final(self).position() <= old(self).source().len(),
            s@ == old(self).source().subrange(
                old(self).position() as int,
                final(self).position() as int,
            ),
    {
        self.cursor.parse_until_none_of(end)
    }
}

} // verus!
