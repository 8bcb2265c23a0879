//! One recorded value, kept both as the literal that stands in the file and
//! as the logical string it means.

use vstd::prelude::*;
use vstd::string::*;
use ordered_multimap::ListOrderedMultimap;
use crate::multimap::{
    entries_append, entries_last_mut, entries_new, entry_pairs, last_index,
};
use crate::quoted::{
    is_decoding, lemma_quote_then_unquote, quote_spec, quote_value, survives_quoting, unquote_spec,
    unquote_value,
};
use crate::text::{char_is_white_space, is_white_space, same_text, string_of, to_chars};
use crate::Error;

verus! {

/// What a value is: its literal and its logical string.
pub ghost struct ValueView {
    pub literal: Seq<char>,
    pub logical: Seq<char>,
}

/// What the entries of a section are: the pairs of key and value, oldest
/// first.
pub type PairsView = Seq<(Seq<char>, ValueView)>;

#[derive(Debug)]
pub struct EntryValue {
    raw: String,
    unquoted: String,
}

/// The entries of one section: key-value pairs in the order they were
/// recorded.
#[derive(Debug, PartialEq)]
pub struct Entries {
    pub data: ListOrderedMultimap<String, EntryValue>,
}

impl View for Entries {
    type V = PairsView;

    open spec fn view(&self) -> PairsView {
        entry_pairs(self.data)
    }
}

impl Default for Entries {
    fn default() -> (e: Self)
        ensures
            e@ == PairsView::empty(),
    {
        Entries { data: entries_new() }
    }
}

/// A list without its last item; the empty list stays empty.
pub open spec fn without_last<A>(s: Seq<A>) -> Seq<A> {
    if s.len() == 0 {
        s
    } else {
        s.drop_last()
    }
}

/// The pairs of a section after the newest value of `key` was replaced by
/// `value`: the last pair of `key` holds `value` where it stands, and every
/// other pair is as it was. A key without a pair gets one at the end.
pub open spec fn with_last_replaced(pairs: PairsView, key: Seq<char>, value: ValueView) -> PairsView {
    if last_index(pairs, key) >= 0 {
        pairs.update(last_index(pairs, key), (key, value))
    } else {
        pairs.push((key, value))
    }
}

impl Entries {
    /// Replaces the newest value of `key` by `value`, where it stands; a key
    /// without values gets `value` as its only one, at the end.
    pub(crate) fn replace_last(&mut self, key: &str, value: EntryValue)
        ensures
            final(self)@ == with_last_replaced(old(self)@, key@, value@),
    {
        match entries_last_mut(&mut self.data, key) {
            Some(newest) => {
                *newest = value;
            },
            None => {
                entries_append(&mut self.data, key.to_owned(), value);
            },
        }
    }
}

impl View for EntryValue {
    type V = ValueView;

    closed spec fn view(&self) -> ValueView {
        ValueView { literal: self.raw@, logical: self.unquoted@ }
    }
}

/// Two values are equal when their literals and their logical strings are.
impl PartialEq for EntryValue {
    fn eq(&self, other: &Self) -> (r: bool) {
        self.raw == other.raw && self.unquoted == other.unquoted
    }
}

impl vstd::std_specs::cmp::PartialEqSpecImpl for EntryValue {
    open spec fn obeys_eq_spec() -> bool {
        true
    }

    open spec fn eq_spec(&self, other: &Self) -> bool {
        self@ == other@
    }
}

impl Clone for EntryValue {
    fn clone(&self) -> (v: Self)
        ensures
            v == *self,
    {
        EntryValue { raw: self.raw.clone(), unquoted: self.unquoted.clone() }
    }
}

impl Default for EntryValue {
    fn default() -> (v: Self)
        ensures
            v@ == (ValueView { literal: Seq::empty(), logical: Seq::empty() }),
    {
        EntryValue { raw: String::new(), unquoted: String::new() }
    }
}

// ---------------------------------------------------------------------
// Boolean words
// ---------------------------------------------------------------------

/// The boolean that a word stands for, if it is one of the eight accepted
/// words.
pub open spec fn bool_of(s: Seq<char>) -> Option<bool> {
    if s == "1"@ || s == "yes"@ || s == "true"@ || s == "on"@ {
        Some(true)
    } else if s == "0"@ || s == "no"@ || s == "false"@ || s == "off"@ {
        Some(false)
    } else {
        None
    }
}

/// Reads a boolean word: one of `1`, `yes`, `true`, `on`, or one of `0`, `no`,
/// `false`, `off`. Case matters and nothing is trimmed.
pub fn parse_bool(s: &str) -> (r: Result<bool, Error>)
    ensures
        match bool_of(s@) {
            Some(b) => r == Ok::<bool, Error>(b),
            None => r == Err::<bool, Error>(Error::ParseBool),
        },
{
    if same_text(s, "1") || same_text(s, "yes") || same_text(s, "true") || same_text(s, "on") {
        return Ok(true);
    } else if same_text(s, "0") || same_text(s, "no") || same_text(s, "false") || same_text(
        s,
        "off",
    ) {
        return Ok(false);
    }
    Err(Error::ParseBool)
}

/// The index of the first character at or after `i` that is not whitespace.
pub open spec fn trim_start(s: Seq<char>, i: int) -> int
    decreases s.len() - i,
{
    if i < 0 || i >= s.len() || !is_white_space(s[i]) {
        i
    } else {
        trim_start(s, i + 1)
    }
}

/// The index right after the last character before `n` that is not
/// whitespace, but not below `from`.
pub open spec fn trim_end(s: Seq<char>, from: int, n: int) -> int
    decreases n,
{
    if n <= from || n > s.len() || n <= 0 || !is_white_space(s[n - 1]) {
        n
    } else {
        trim_end(s, from, n - 1)
    }
}

/// The text without the whitespace at its two ends.
pub open spec fn trim_spec(s: Seq<char>) -> Seq<char> {
    let from = trim_start(s, 0);
    s.subrange(from, trim_end(s, from, s.len() as int))
}

impl EntryValue {
    /// What the value that means `unquoted` is: its literal is the encoding
    /// of that string.
    pub open spec fn from_unquoted_spec(unquoted: Seq<char>) -> ValueView {
        ValueView { literal: quote_spec(unquoted), logical: unquoted }
    }

    /// The value that means `unquoted`: its literal is the encoding of that
    /// string.
    pub fn from_unquoted(unquoted: &str) -> (v: Self)
        ensures
            v@ == Self::from_unquoted_spec(unquoted@),
            unquote_spec(v@.literal) == Ok::<Seq<char>, Seq<char>>(v@.logical) <==> survives_quoting(
                unquoted@,
            ),
    {
        proof {
            lemma_quote_then_unquote(unquoted@);
        }
        EntryValue { raw: quote_value(unquoted), unquoted: unquoted.to_owned() }
    }

    /// The literal, as it stands in a file.
    pub fn raw(&self) -> (r: &String)
        ensures
            r@ == self@.literal,
    {
        &self.raw
    }

    /// The logical string, decoded from the literal now.
    pub fn unquote(&self) -> (r: String)
        requires
            unquote_spec(self@.literal) is Ok,
        ensures
            unquote_spec(self@.literal) == Ok::<Seq<char>, Seq<char>>(r@),
    {
        match self.try_unquote() {
            Ok(s) => s,
            Err(_) => vstd::pervasive::unreached(),
        }
    }

    /// The logical string that was recorded when the value was made.
    pub fn unquoted(&self) -> (r: &String)
        ensures
            r@ == self@.logical,
    {
        &self.unquoted
    }

    /// Reads the literal as a boolean: surrounding whitespace is dropped, an
    /// empty literal is `false`, and anything but a boolean word is an error.
    pub fn to_bool(&self) -> (r: Result<bool, Error>)
        ensures
            r == (if trim_spec(self@.literal).len() == 0 {
                Ok::<bool, Error>(false)
            } else {
                match bool_of(trim_spec(self@.literal)) {
                    Some(b) => Ok::<bool, Error>(b),
                    None => Err::<bool, Error>(Error::ParseBool),
                }
            }),
    {
        let chars = to_chars(self.raw.as_str());
        let mut from: usize = 0;
        while from < chars.len() && char_is_white_space(chars[from])
            invariant
                from <= chars.len(),
                trim_start(chars@, from as int) == trim_start(chars@, 0),
            decreases chars.len() - from,
        {
            from += 1;
        }
        let mut to: usize = chars.len();
        while to > from && char_is_white_space(chars[to - 1])
            invariant
                from <= to <= chars.len(),
                trim_end(chars@, from as int, to as int) == trim_end(
                    chars@,
                    from as int,
                    chars.len() as int,
                ),
            decreases to,
        {
            to -= 1;
        }
        let trimmed = string_of(&chars, from, to);
        if trimmed.as_str().is_empty() {
            return Ok(false);
        }
        parse_bool(trimmed.as_str())
    }

    /// The value whose literal is `raw`; its logical string is what the
    /// literal decodes to. A malformed escape in the literal is an error.
    pub fn try_from_raw(raw: &str) -> (r: Result<Self, Error>)
        ensures
            match unquote_spec(raw@) {
                Ok(text) => r matches Ok(v) && v@ == (ValueView { literal: raw@, logical: text }),
                Err(message) => r matches Err(Error::Unquoting(m)) && m@ == message,
            },
    {
        match unquote_value(raw) {
            Ok(unquoted) => Ok(EntryValue { unquoted, raw: raw.to_owned() }),
            Err(e) => Err(e),
        }
    }

    /// Decodes the literal.
    pub fn try_unquote(&self) -> (r: Result<String, Error>)
        ensures
            is_decoding(r, unquote_spec(self@.literal)),
    {
        unquote_value(self.raw.as_str())
    }
}

/// Values can be made from logical strings by `from` and `into`. The
/// result is stated by its view.
impl From<&str> for EntryValue {
    fn from(unquoted: &str) -> (v: Self)
        ensures
            v@ == EntryValue::from_unquoted_spec(unquoted@),
    {
        Self::from_unquoted(unquoted)
    }
}

impl vstd::std_specs::convert::FromSpecImpl<&str> for EntryValue {
    open spec fn obeys_from_spec() -> bool {
        false
    }

    open spec fn from_spec(unquoted: &str) -> Self {
        arbitrary()
    }
}

impl From<String> for EntryValue {
    fn from(unquoted: String) -> (v: Self)
        ensures
            v@ == EntryValue::from_unquoted_spec(unquoted@),
    {
        Self::from_unquoted(unquoted.as_str())
    }
}

impl vstd::std_specs::convert::FromSpecImpl<String> for EntryValue {
    open spec fn obeys_from_spec() -> bool {
        false
    }

    open spec fn from_spec(unquoted: String) -> Self {
        arbitrary()
    }
}

/// Values can be parsed from literals.
impl std::str::FromStr for EntryValue {
    type Err = Error;

    fn from_str(raw: &str) -> (r: Result<Self, Error>)
        ensures
            match unquote_spec(raw@) {
                Ok(text) => r matches Ok(v) && v@ == (ValueView { literal: raw@, logical: text }),
                Err(message) => r matches Err(Error::Unquoting(m)) && m@ == message,
            },
    {
        Self::try_from_raw(raw)
    }
}

} // verus!
