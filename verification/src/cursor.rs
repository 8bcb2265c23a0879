//! A forward-only cursor over the characters of a source text.

use vstd::prelude::*;
use crate::text::{string_of, to_chars};

verus! {

/// The first index at or after `i` where `s` holds one of `stops`, or the
/// length of `s` when there is none.
pub open spec fn scan_until(s: Seq<char>, i: int, stops: Seq<char>) -> int
    decreases s.len() - i,
{
    if i < 0 || i >= s.len() || stops.contains(s[i]) {
        i
    } else {
        scan_until(s, i + 1, stops)
    }
}

/// The first index at or after `i` where `s` holds a character that is not
/// among `skipped`, or the length of `s` when there is none.
pub open spec fn scan_while(s: Seq<char>, i: int, skipped: Seq<char>) -> int
    decreases s.len() - i,
{
    if i < 0 || i >= s.len() || !skipped.contains(s[i]) {
        i
    } else {
        scan_while(s, i + 1, skipped)
    }
}

/// Where `scan_until` stops: within the text, at a stop or at the end, with
/// no stop before.
pub proof fn lemma_scan_until_bounds(s: Seq<char>, i: int, stops: Seq<char>)
    requires
        0 <= i <= s.len(),
    ensures
        i <= scan_until(s, i, stops) <= s.len(),
        scan_until(s, i, stops) < s.len() ==> stops.contains(s[scan_until(s, i, stops)]),
        forall|k: int| i <= k < scan_until(s, i, stops) ==> !stops.contains(#[trigger] s[k]),
    decreases s.len() - i,
{
    if i < s.len() && !stops.contains(s[i]) {
        lemma_scan_until_bounds(s, i + 1, stops);
    }
}

/// Where `scan_while` stops: within the text, at a character that is not
/// skipped or at the end, with only skipped characters before.
pub proof fn lemma_scan_while_bounds(s: Seq<char>, i: int, skipped: Seq<char>)
    requires
        0 <= i <= s.len(),
    ensures
        i <= scan_while(s, i, skipped) <= s.len(),
        scan_while(s, i, skipped) < s.len() ==> !skipped.contains(s[scan_while(s, i, skipped)]),
        forall|k: int| i <= k < scan_while(s, i, skipped) ==> skipped.contains(#[trigger] s[k]),
    decreases s.len() - i,
{
    if i < s.len() && skipped.contains(s[i]) {
        lemma_scan_while_bounds(s, i + 1, skipped);
    }
}

/// Whether `c` occurs in `set`.
pub fn is_any_of(set: &[char], c: char) -> (r: bool)
    ensures
        r == set@.contains(c),
{
    let mut i: usize = 0;
    while i < set.len()
        invariant
            i <= set.len(),
            forall|k: int| 0 <= k < i ==> set@[k] != c,
        decreases set.len() - i,
    {
        if set[i] == c {
            return true;
        }
        i += 1;
    }
    false
}

/// A text and a place in it.
pub struct Cursor {
    chars: Vec<char>,
    pos: usize,
}

impl Cursor {
    /// The whole text the cursor runs over.
    pub closed spec fn source(&self) -> Seq<char> {
        self.chars@
    }

    /// How many characters lie before the current one.
    pub closed spec fn position(&self) -> nat {
        if self.pos <= self.chars.len() {
            self.pos as nat
        } else {
            self.chars.len() as nat
        }
    }

    /// The position never passes the end of the text, and the text is no
    /// longer than a vector can be.
    pub proof fn lemma_position_in_bounds(&self)
        ensures
            self.position() <= self.source().len() <= usize::MAX,
    {
    }

    /// The current character, `None` once the text is exhausted.
    pub open spec fn current(&self) -> Option<char> {
        if self.position() < self.source().len() {
            Some(self.source()[self.position() as int])
        } else {
            None
        }
    }

    #[verifier::type_invariant]
    spec fn within_bounds(&self) -> bool {
        self.pos <= self.chars.len()
    }

    /// A cursor at the first character of `src`.
    pub fn new(src: &str) -> (r: Self)
        ensures
            r.source() == src@,
            r.position() == 0,
    {
        Cursor { chars: to_chars(src), pos: 0 }
    }

    /// The current character, `None` once the text is exhausted.
    pub fn cur(&self) -> (c: Option<char>)
        ensures
            c == self.current(),
            self.position() <= self.source().len(),
    {
        proof {
            use_type_invariant(self);
        }
        if self.pos < self.chars.len() {
            Some(self.chars[self.pos])
        } else {
            None
        }
    }

    /// Steps to the next character; at the end of the text nothing changes.
    pub fn bump(&mut self)
        ensures
            final(self).source() == old(self).source(),
            old(self).position() <= old(self).source().len(),
            final(self).position() == if old(self).position() < old(self).source().len() {
                old(self).position() + 1
            } else {
                old(self).position()
            },
    {
        proof {
            use_type_invariant(&*self);
        }
        if self.pos < self.chars.len() {
            self.pos += 1;
        }
    }

    /// Moves the cursor to the end of the text.
    pub fn exhaust(&mut self)
        ensures
            final(self).source() == old(self).source(),
            final(self).position() == old(self).source().len(),
    {
        self.pos = self.chars.len();
    }

    /// Consumes characters up to the first one that is in `end` and returns
    /// them.
    pub fn parse_until_any_of(&mut self, end: &[char]) -> (s: String)
        ensures
            final(self).source() == old(self).source(),
            final(self).position() == scan_until(
                old(self).source(),
                old(self).position() as int,
                end@,
            ),
            old(self).position() <= final(self).position() <= old(self).source().len(),
            s@ == old(self).source().subrange(
                old(self).position() as int,
                final(self).position() as int,
            ),
    {
        proof {
            use_type_invariant(&*self);
        }
        let start = self.pos;
        while self.pos < self.chars.len() && !is_any_of(end, self.chars[self.pos])
            invariant
                start <= self.pos <= self.chars.len(),
                self.chars == old(self).chars,
                scan_until(self.chars@, self.pos as int, end@) == scan_until(
                    self.chars@,
                    start as int,
                    end@,
                ),
            decreases self.chars.len() - self.pos,
        {
            self.pos += 1;
        }
        string_of(&self.chars, start, self.pos)
    }

    /// Consumes characters up to the first one that is not in `end` and
    /// returns them.
    pub fn parse_until_none_of(&mut self, end: &[char]) -> (s: String)
        ensures
            final(self).source() == old(self).source(),
            final(self).position() == scan_while(
                old(self).source(),
                old(self).position() as int,
                end@,
            ),
            old(self).position() <= final(self).position() <= old(self).source().len(),
            s@ == old(self).source().subrange(
                old(self).position() as int,
                final(self).position() as int,
            ),
    {
        proof {
            use_type_invariant(&*self);
        }
        let start = self.pos;
        while self.pos < self.chars.len() && is_any_of(end, self.chars[self.pos])
            invariant
                start <= self.pos <= self.chars.len(),
                self.chars == old(self).chars,
                scan_while(self.chars@, self.pos as int, end@) == scan_while(
                    self.chars@,
                    start as int,
                    end@,
                ),
            decreases self.chars.len() - self.pos,
        {
            self.pos += 1;
        }
        string_of(&self.chars, start, self.pos)
    }
}

} // verus!
