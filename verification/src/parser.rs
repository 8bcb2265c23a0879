//! The recursive-descent parser for unit-file text.
//!
//! ```text
//! UNIT           = [COMMENT | SECTION]*
//! COMMENT        = ('#' | ';') ANY* NL
//! SECTION        = SECTION_HEADER [COMMENT | ENTRY]*
//! SECTION_HEADER = '[' ANY+ ']' NL
//! ENTRY          = KEY WS* '=' WS* VALUE NL
//! KEY            = [A-Za-z0-9-]
//! VALUE          = ANY* CONTINUE_NL [COMMENT]* VALUE
//! ```

use vstd::prelude::*;
use vstd::string::*;
use crate::cursor::{
    is_any_of, lemma_scan_until_bounds, lemma_scan_while_bounds, scan_until, scan_while, Cursor,
};
use crate::quoted::unquote_spec;
use crate::text::{
    char_debug, char_debug_text, char_is_alphanumeric, char_is_ascii_space, decimal,
    decimal_string, is_alphanumeric, is_ascii_space, str_debug, str_debug_text,
};
use crate::unit::{appended, with_section, SystemdUnit, UnitView};
use crate::value::{EntryValue, ValueView};

verus! {

/// A grammar violation, with the place where the parser stood when it gave
/// up.
#[derive(Debug, Eq)]
pub struct ParseError {
    pub line: usize,
    pub col: usize,
    pub msg: String,
}

/// Two parse errors are equal when place and message are.
impl PartialEq for ParseError {
    fn eq(&self, other: &Self) -> (r: bool) {
        self.line == other.line && self.col == other.col && self.msg == other.msg
    }
}

impl vstd::std_specs::cmp::PartialEqSpecImpl for ParseError {
    open spec fn obeys_eq_spec() -> bool {
        true
    }

    open spec fn eq_spec(&self, other: &Self) -> bool {
        self.line == other.line && self.col == other.col && self.msg@ == other.msg@
    }
}

impl ParseError {
    /// The error in one line: line, column and message.
    pub open spec fn text(&self) -> Seq<char> {
        (decimal(self.line as nat).push(':') + decimal(self.col as nat)).push(' ') + self.msg@
    }

    /// The error in one line: line, column and message.
    pub fn to_string(&self) -> (s: String)
        ensures
            s@ == self.text(),
    {
        let mut s = decimal_string(self.line);
        s.push(':');
        s.append(decimal_string(self.col).as_str());
        s.push(' ');
        s.append(self.msg.as_str());
        s
    }
}

// ---------------------------------------------------------------------
// Positions
// ---------------------------------------------------------------------

/// How many characters the parser has taken in when it stands at index `p`:
/// the current character counts.
pub open spec fn seen(s: Seq<char>, p: int) -> int {
    if p < s.len() {
        p + 1
    } else {
        s.len() as int
    }
}

/// The number of line feeds among the first `n` characters.
pub open spec fn line_of(s: Seq<char>, n: int) -> nat
    decreases n,
{
    if n <= 0 {
        0
    } else if s[n - 1] == '\n' {
        line_of(s, n - 1) + 1
    } else {
        line_of(s, n - 1)
    }
}

/// The number of characters after the last line feed among the first `n`
/// characters.
pub open spec fn column_of(s: Seq<char>, n: int) -> nat
    decreases n,
{
    if n <= 0 {
        0
    } else if s[n - 1] == '\n' {
        0
    } else {
        column_of(s, n - 1) + 1
    }
}

/// Lines and columns count characters: neither exceeds how many were taken
/// in.
pub proof fn lemma_line_column_bounds(s: Seq<char>, n: int)
    requires
        0 <= n,
    ensures
        line_of(s, n) <= n,
        column_of(s, n) <= n,
    decreases n,
{
    if n > 0 {
        lemma_line_column_bounds(s, n - 1);
    }
}

/// What went wrong and where: the index the parser stood at, and the
/// message.
pub ghost struct Fault {
    pub at: int,
    pub msg: Seq<char>,
}

/// Whether a parse error reports the given fault in the text `s`: line and
/// column count what the parser had taken in.
pub open spec fn reports(e: ParseError, s: Seq<char>, f: Fault) -> bool {
    &&& e.line == line_of(s, seen(s, f.at))
    &&& e.col == column_of(s, seen(s, f.at))
    &&& e.msg@ == f.msg
}

// ---------------------------------------------------------------------
// The grammar
// ---------------------------------------------------------------------

/// The two characters that start a comment.
pub open spec fn is_comment_start(c: char) -> bool {
    c == '#' || c == ';'
}

/// What `what` was expected, and what was found at index `i` instead.
pub open spec fn unexpected(what: Seq<char>, s: Seq<char>, i: int) -> Fault {
    if 0 <= i < s.len() {
        Fault { at: i, msg: what + ", but found "@ + char_debug_text(s[i]) }
    } else {
        Fault { at: i, msg: what + ", but found EOF"@ }
    }
}

/// A comment that starts at index `i`: its text, and the index of the line
/// feed that ends it.
pub open spec fn comment_at(s: Seq<char>, i: int) -> Result<(Seq<char>, int), Fault> {
    if 0 <= i < s.len() && is_comment_start(s[i]) {
        Ok((s.subrange(i, scan_until(s, i, seq!['\n'])), scan_until(s, i, seq!['\n'])))
    } else {
        Err(unexpected("expected comment"@, s, i))
    }
}

/// A section header that starts at index `i`: the name between the brackets,
/// and the index after the closing bracket.
pub open spec fn header_at(s: Seq<char>, i: int) -> Result<(Seq<char>, int), Fault> {
    if 0 <= i < s.len() && s[i] == '[' {
        let close = scan_until(s, i + 1, seq![']', '\n']);
        if close < s.len() && s[close] == ']' {
            if close == i + 1 {
                Err(Fault { at: close + 1, msg: "section header cannot be empty"@ })
            } else {
                Ok((s.subrange(i + 1, close), close + 1))
            }
        } else {
            Err(unexpected("expected ']' as end of section header"@, s, close))
        }
    } else {
        Err(unexpected("expected '[' as start of section header"@, s, i))
    }
}

/// The characters that end a key.
pub open spec fn key_stops() -> Seq<char> {
    seq!['=', ' ', '\t', '\n', '\r']
}

/// Letters, digits and the hyphen.
pub open spec fn is_key_char(c: char) -> bool {
    is_alphanumeric(c) || c == '-'
}

/// Whether every character of `key` is a key character.
pub open spec fn all_key_chars(key: Seq<char>) -> bool {
    forall|i: int| 0 <= i < key.len() ==> is_key_char(#[trigger] key[i])
}

/// Whether `key` is a key: one key character or more, and nothing else.
pub open spec fn is_key_spec(key: Seq<char>) -> bool {
    key.len() > 0 && all_key_chars(key)
}

/// A key that starts at index `i`: the key, and the index of the character
/// that ends it. What stands there must be a key: an empty one is none.
pub open spec fn key_at(s: Seq<char>, i: int) -> Result<(Seq<char>, int), Fault> {
    let end = scan_until(s, i, key_stops());
    let key = s.subrange(i, end);
    if is_key_spec(key) {
        Ok((key, end))
    } else {
        Err(
            Fault {
                at: end,
                msg: "Invalid key "@ + str_debug_text(key) + ". Allowed characters are A-Za-z0-9-"@,
            },
        )
    }
}

/// Scanning a value from index `i` on. `backslash` is set when the character
/// before was a backslash, `continued` right after a line continuation, and
/// `value` is what was collected so far. Gives the raw value and the index
/// where the scan stops: at the line feed or the bracket that ends the value,
/// or at the end of the text.
pub open spec fn value_scan(
    s: Seq<char>,
    i: int,
    backslash: bool,
    continued: bool,
    value: Seq<char>,
) -> (Seq<char>, int)
    decreases (if i < s.len() { s.len() - i } else { 0 }),
{
    if i < 0 || i >= s.len() {
        (value, i)
    } else {
        let c = s[i];
        if backslash {
            if c == '\n' {
                // a line continuation stands for one space
                value_scan(s, i + 1, false, true, value.push(' '))
            } else {
                // an escape sequence is kept as it stands
                value_scan(s, i + 1, false, false, value.push('\\').push(c))
            }
        } else if continued {
            if is_comment_start(c) {
                // a comment line between continued lines is skipped
                let end = scan_until(s, i, seq!['\n']);
                proof {
                    lemma_scan_until_bounds(s, i, seq!['\n']);
                }
                if end >= s.len() {
                    (value, end)
                } else {
                    value_scan(s, end + 1, false, true, value)
                }
            } else if c == '\n' || c == '[' {
                (value, i)
            } else if c == '\\' {
                value_scan(s, i + 1, true, false, value)
            } else {
                value_scan(s, i + 1, false, false, value.push(c))
            }
        } else {
            if c == '\\' {
                value_scan(s, i + 1, true, false, value)
            } else if c == '\n' {
                (value, i)
            } else {
                value_scan(s, i + 1, false, false, value.push(c))
            }
        }
    }
}

/// The characters skipped around the equals sign.
pub open spec fn blanks() -> Seq<char> {
    seq![' ', '\t']
}

/// An entry that starts at index `i`: key and raw value, and the index where
/// the value ends.
pub open spec fn entry_at(s: Seq<char>, i: int) -> Result<((Seq<char>, Seq<char>), int), Fault> {
    match key_at(s, i) {
        Err(f) => Err(f),
        Ok((key, end)) => {
            let eq = scan_while(s, end, blanks());
            if 0 <= eq < s.len() && s[eq] == '=' {
                let start = scan_while(s, eq + 1, blanks());
                let (value, stop) = value_scan(s, start, false, false, Seq::empty());
                Ok(((key, value), stop))
            } else {
                Err(unexpected("expected '=' after key"@, s, eq))
            }
        },
    }
}

/// A value ends at or after where it starts, within the text.
pub proof fn lemma_value_scan_bounds(
    s: Seq<char>,
    i: int,
    backslash: bool,
    continued: bool,
    value: Seq<char>,
)
    requires
        0 <= i <= s.len(),
    ensures
        i <= value_scan(s, i, backslash, continued, value).1 <= s.len(),
    decreases s.len() - i,
{
    if i < s.len() {
        let c = s[i];
        if backslash {
            if c == '\n' {
                lemma_value_scan_bounds(s, i + 1, false, true, value.push(' '));
            } else {
                lemma_value_scan_bounds(s, i + 1, false, false, value.push('\\').push(c));
            }
        } else if continued {
            if is_comment_start(c) {
                let end = scan_until(s, i, seq!['\n']);
                lemma_scan_until_bounds(s, i, seq!['\n']);
                if end < s.len() {
                    lemma_value_scan_bounds(s, end + 1, false, true, value);
                }
            } else if c == '\n' || c == '[' {
            } else if c == '\\' {
                lemma_value_scan_bounds(s, i + 1, true, false, value);
            } else {
                lemma_value_scan_bounds(s, i + 1, false, false, value.push(c));
            }
        } else {
            if c == '\\' {
                lemma_value_scan_bounds(s, i + 1, true, false, value);
            } else if c == '\n' {
            } else {
                lemma_value_scan_bounds(s, i + 1, false, false, value.push(c));
            }
        }
    }
}

/// An entry ends after where it starts, within the text.
pub proof fn lemma_entry_at_bounds(s: Seq<char>, i: int)
    requires
        0 <= i <= s.len(),
    ensures
        entry_at(s, i) matches Ok((_, stop)) ==> i < stop <= s.len(),
{
    lemma_scan_until_bounds(s, i, key_stops());
    let end = scan_until(s, i, key_stops());
    lemma_scan_while_bounds(s, end, blanks());
    let eq = scan_while(s, end, blanks());
    if eq < s.len() {
        lemma_scan_while_bounds(s, eq + 1, blanks());
        let start = scan_while(s, eq + 1, blanks());
        lemma_value_scan_bounds(s, start, false, false, Seq::empty());
    }
}

/// The entries of a section body from index `i` on, after `entries`: the
/// body runs up to the next section header or the end of the text.
pub open spec fn section_body(s: Seq<char>, i: int, entries: Seq<(Seq<char>, Seq<char>)>) -> Result<
    (Seq<(Seq<char>, Seq<char>)>, int),
    Fault,
>
    decreases (if 0 <= i < s.len() { s.len() - i } else { 0 }),
{
    if i < 0 || i >= s.len() {
        Ok((entries, i))
    } else {
        let c = s[i];
        if is_comment_start(c) {
            proof {
                lemma_scan_until_bounds(s, i, seq!['\n']);
                assert(seq!['\n'].contains(s[scan_until(s, i, seq!['\n'])]) ==> s[scan_until(
                    s,
                    i,
                    seq!['\n'],
                )] == '\n');
            }
            section_body(s, scan_until(s, i, seq!['\n']), entries)
        } else if c == '[' {
            Ok((entries, i))
        } else if is_ascii_space(c) {
            section_body(s, i + 1, entries)
        } else {
            match entry_at(s, i) {
                Err(f) => Err(f),
                Ok((entry, stop)) => {
                    proof {
                        lemma_entry_at_bounds(s, i);
                    }
                    section_body(s, stop, entries.push(entry))
                },
            }
        }
    }
}

/// A section that starts at index `i`: its name and its entries, and the
/// index where its body ends.
pub open spec fn section_at(s: Seq<char>, i: int) -> Result<
    ((Seq<char>, Seq<(Seq<char>, Seq<char>)>), int),
    Fault,
> {
    match header_at(s, i) {
        Err(f) => Err(f),
        Ok((name, after)) => match section_body(s, after, Seq::empty()) {
            Err(f) => Err(f),
            Ok((entries, stop)) => Ok(((name, entries), stop)),
        },
    }
}

/// The document after the raw entries were decoded and appended to section
/// `name`, in order; the message of the first literal that does not decode.
pub open spec fn with_raw_entries(
    d: UnitView,
    name: Seq<char>,
    raws: Seq<(Seq<char>, Seq<char>)>,
) -> Result<UnitView, Seq<char>>
    decreases raws.len(),
{
    if raws.len() == 0 {
        Ok(d)
    } else {
        match with_raw_entries(d, name, raws.drop_last()) {
            Err(m) => Err(m),
            Ok(before) => match unquote_spec(raws.last().1) {
                Err(m) => Err(m),
                Ok(text) => Ok(
                    appended(
                        before,
                        name,
                        raws.last().0,
                        ValueView { literal: raws.last().1, logical: text },
                    ),
                ),
            },
        }
    }
}

/// The message of a parse error that wraps a decoding failure.
pub open spec fn msg_unquoting(m: Seq<char>) -> Seq<char> {
    "failed unquoting value: "@ + m
}

/// Parsing from index `i` on, with `d` the document built so far: comments
/// and whitespace are skipped, and each section met is put into the
/// document, folded into the section of the same name if there is one.
pub open spec fn unit_scan(
    s: Seq<char>,
    i: int,
    d: UnitView,
) -> Result<UnitView, Fault>
    decreases (if 0 <= i < s.len() { s.len() - i } else { 0 }),
{
    if i < 0 || i >= s.len() {
        Ok(d)
    } else {
        let c = s[i];
        if is_comment_start(c) {
            proof {
                lemma_scan_until_bounds(s, i, seq!['\n']);
                assert(seq!['\n'].contains(s[scan_until(s, i, seq!['\n'])]) ==> s[scan_until(
                    s,
                    i,
                    seq!['\n'],
                )] == '\n');
            }
            unit_scan(s, scan_until(s, i, seq!['\n']), d)
        } else if c == '[' {
            match section_at(s, i) {
                Err(f) => Err(f),
                Ok(((name, raws), stop)) => {
                    proof {
                        lemma_section_at_bounds(s, i);
                    }
                    match with_raw_entries(with_section(d, name), name, raws) {
                        Err(m) => Err(Fault { at: stop, msg: msg_unquoting(m) }),
                        Ok(next) => unit_scan(s, stop, next),
                    }
                },
            }
        } else if is_ascii_space(c) {
            unit_scan(s, i + 1, d)
        } else {
            Err(Fault { at: i, msg: "Expected comment or section"@ })
        }
    }
}

/// What parsing the text `s` gives: the document, or the first fault.
pub open spec fn parse_spec(s: Seq<char>) -> Result<UnitView, Fault> {
    unit_scan(s, 0, Seq::empty())
}

/// A section body ends at or after where it starts, within the text.
pub proof fn lemma_section_body_bounds(s: Seq<char>, i: int, entries: Seq<(Seq<char>, Seq<char>)>)
    requires
        0 <= i <= s.len(),
    ensures
        section_body(s, i, entries) matches Ok((_, stop)) ==> i <= stop <= s.len(),
    decreases s.len() - i,
{
    if i < s.len() {
        let c = s[i];
        if is_comment_start(c) {
            lemma_scan_until_bounds(s, i, seq!['\n']);
            let end = scan_until(s, i, seq!['\n']);
            assert(seq!['\n'].contains(s[end]) ==> s[end] == '\n');
            lemma_section_body_bounds(s, end, entries);
        } else if c == '[' {
        } else if is_ascii_space(c) {
            lemma_section_body_bounds(s, i + 1, entries);
        } else {
            lemma_entry_at_bounds(s, i);
            match entry_at(s, i) {
                Err(f) => {},
                Ok((entry, stop)) => {
                    lemma_section_body_bounds(s, stop, entries.push(entry));
                },
            }
        }
    }
}

/// A section ends after where it starts, within the text.
pub proof fn lemma_section_at_bounds(s: Seq<char>, i: int)
    requires
        0 <= i <= s.len(),
    ensures
        section_at(s, i) matches Ok((_, stop)) ==> i < stop <= s.len(),
{
    if i < s.len() && s[i] == '[' {
        lemma_scan_until_bounds(s, i + 1, seq![']', '\n']);
        let close = scan_until(s, i + 1, seq![']', '\n']);
        if close < s.len() {
            lemma_section_body_bounds(s, close + 1, Seq::empty());
        }
    }
}

// ---------------------------------------------------------------------
// The parser
// ---------------------------------------------------------------------

/// The views of a list of raw entries.
pub open spec fn raw_views(entries: Seq<(String, String)>) -> Seq<(Seq<char>, Seq<char>)> {
    Seq::new(entries.len(), |i: int| (entries[i].0@, entries[i].1@))
}

pub struct Parser {
    cursor: Cursor,
    line: usize,
    column: usize,
}

impl Parser {
    /// The text being parsed.
    pub closed spec fn source(&self) -> Seq<char> {
        self.cursor.source()
    }

    /// The index of the current character.
    pub closed spec fn position(&self) -> nat {
        self.cursor.position()
    }

    /// Line and column count what the parser has taken in.
    pub closed spec fn wf(&self) -> bool {
        &&& self.line == line_of(self.source(), seen(self.source(), self.position() as int))
        &&& self.column == column_of(self.source(), seen(self.source(), self.position() as int))
    }

    /// The current character, `None` at the end of the text.
    pub open spec fn current(&self) -> Option<char> {
        if self.position() < self.source().len() {
            Some(self.source()[self.position() as int])
        } else {
            None
        }
    }

    /// The position never passes the end of the text.
    pub proof fn lemma_position_in_bounds(&self)
        ensures
            self.position() <= self.source().len(),
    {
        self.cursor.lemma_position_in_bounds();
    }

    /// A parser that stands at the first character of `buf`.
    pub fn new(buf: &str) -> (p: Self)
        ensures
            p.wf(),
            p.source() == buf@,
            p.position() == 0,
    {
        let cursor = Cursor::new(buf);
        let mut line: usize = 0;
        let mut column: usize = 0;
        proof {
            reveal_with_fuel(line_of, 2);
            reveal_with_fuel(column_of, 2);
        }
        match cursor.cur() {
            Some('\n') => {
                line = 1;
            },
            Some(_) => {
                column = 1;
            },
            None => {},
        }
        Parser { cursor, line, column }
    }

    fn cur(&self) -> (c: Option<char>)
        ensures
            c == self.current(),
            self.position() <= self.source().len(),
    {
        self.cursor.cur()
    }

    fn bump(&mut self)
        requires
            old(self).wf(),
        ensures
            final(self).wf(),
            final(self).source() == old(self).source(),
            final(self).position() == if old(self).position() < old(self).source().len() {
                old(self).position() + 1
            } else {
                old(self).position()
            },
    {
        proof {
            self.cursor.lemma_position_in_bounds();
            lemma_line_column_bounds(self.source(), seen(self.source(), self.position() as int));
        }
        self.cursor.bump();
        match self.cursor.cur() {
            Some('\n') => {
                self.line += 1;
                self.column = 0;
            },
            Some(_) => {
                self.column += 1;
            },
            None => {},
        }
    }

    fn error(&self, msg: String) -> (e: ParseError)
        requires
            self.wf(),
        ensures
            reports(e, self.source(), Fault { at: self.position() as int, msg: msg@ }),
    {
        ParseError { line: self.line, col: self.column, msg }
    }

    /// The error for finding something else than `what` at the current
    /// character.
    fn unexpected(&self, what: &str) -> (e: ParseError)
        requires
            self.wf(),
        ensures
            reports(e, self.source(), unexpected(what@, self.source(), self.position() as int)),
    {
        let mut msg = String::from_str(what);
        match self.cur() {
            Some(c) => {
                msg.append(", but found ");
                msg.append(char_debug(c).as_str());
            },
            None => {
                msg.append(", but found EOF");
            },
        }
        self.error(msg)
    }

    /// Parses the rest of the text into a document. The parse stops at the
    /// first fault; there is no partial document.
    pub fn parse(&mut self) -> (r: Result<SystemdUnit, ParseError>)
        requires
            old(self).wf(),
        ensures
            final(self).wf(),
            final(self).source() == old(self).source(),
            match unit_scan(old(self).source(), old(self).position() as int, Seq::empty()) {
                Ok(d) => r matches Ok(unit) && unit.wf() && unit@ == d && unit.source_path()
                    is None,
                Err(f) => r matches Err(e) && reports(e, old(self).source(), f),
            },
    {
        self.parse_unit()
    }

    // COMMENT        = ('#' | ';') ANY* NL
    fn parse_comment(&mut self) -> (r: Result<String, ParseError>)
        requires
            old(self).wf(),
        ensures
            final(self).wf(),
            final(self).source() == old(self).source(),
            match comment_at(old(self).source(), old(self).position() as int) {
                Ok((text, end)) => r matches Ok(c) && c@ == text && final(self).position() == end,
                Err(f) => r matches Err(e) && reports(e, old(self).source(), f),
            },
    {
        match self.cur() {
            Some('#' | ';') => (),
            _ => {
                return Err(self.unexpected("expected comment"));
            },
        }
        let comment = self.parse_until_any_of(&['\n']);
        assert(['\n']@ =~= seq!['\n']);
        Ok(comment)
    }

    // ENTRY          = KEY WS* '=' WS* VALUE NL
    fn parse_entry(&mut self) -> (r: Result<(String, String), ParseError>)
        requires
            old(self).wf(),
        ensures
            final(self).wf(),
            final(self).source() == old(self).source(),
            match entry_at(old(self).source(), old(self).position() as int) {
                Ok((entry, end)) => r matches Ok(pair) && (pair.0@, pair.1@) == entry
                    && final(self).position() == end,
                Err(f) => r matches Err(e) && reports(e, old(self).source(), f),
            },
    {
        let key = self.parse_key()?;

        // skip whitespace before '='
        let _ = self.parse_until_none_of(&[' ', '\t']);
        match self.cur() {
            Some('=') => self.bump(),
            _ => {
                return Err(self.unexpected("expected '=' after key"));
            },
        }
        // skip whitespace after '='
        let _ = self.parse_until_none_of(&[' ', '\t']);

        let value = self.parse_value()?;

        Ok((key, value))
    }

    // KEY            = [A-Za-z0-9-]
    fn parse_key(&mut self) -> (r: Result<String, ParseError>)
        requires
            old(self).wf(),
        ensures
            final(self).wf(),
            final(self).source() == old(self).source(),
            match key_at(old(self).source(), old(self).position() as int) {
                Ok((key, end)) => r matches Ok(k) && k@ == key && final(self).position() == end,
                Err(f) => r matches Err(e) && reports(e, old(self).source(), f),
            },
    {
        let key: String = self.parse_until_any_of(&['=', ' ', '\t', '\n', '\r']);

        if !is_key(key.as_str()) {
            let mut msg = String::from_str("Invalid key ");
            msg.append(str_debug(key.as_str()).as_str());
            msg.append(". Allowed characters are A-Za-z0-9-");
            return Err(self.error(msg));
        }
        Ok(key)
    }

    // SECTION        = SECTION_HEADER [COMMENT | ENTRY]*
    fn parse_section(&mut self) -> (r: Result<(String, Vec<(String, String)>), ParseError>)
        requires
            old(self).wf(),
        ensures
            final(self).wf(),
            final(self).source() == old(self).source(),
            match section_at(old(self).source(), old(self).position() as int) {
                Ok(((name, entries), end)) => r matches Ok(section) && section.0@ == name
                    && raw_views(section.1@) == entries && final(self).position() == end,
                Err(f) => r matches Err(e) && reports(e, old(self).source(), f),
            },
    {
        let ghost src = self.source();
        let ghost start = self.position() as int;
        let name = self.parse_section_header()?;
        let mut entries: Vec<(String, String)> = Vec::new();
        let ghost goal = section_body(src, self.position() as int, Seq::empty());
        assert(raw_views(entries@) =~= Seq::<(Seq<char>, Seq<char>)>::empty());

        let mut cur = self.cur();
        while cur.is_some()
            invariant
                self.wf(),
                self.source() == src,
                src == old(self).source(),
                cur == self.current(),
                self.position() <= src.len(),
                header_at(src, old(self).position() as int) matches Ok((n, after)) && n == name@
                    && goal == section_body(src, after, Seq::empty()),
                section_body(src, self.position() as int, raw_views(entries@)) == goal,
            ensures
                self.wf(),
                self.source() == src,
                goal == Ok::<(Seq<(Seq<char>, Seq<char>)>, int), Fault>(
                    (raw_views(entries@), self.position() as int),
                ),
            decreases src.len() - self.position(),
        {
            let c = cur.unwrap();
            let ghost at = self.position() as int;
            if c == '#' || c == ';' {
                // ignore comment
                proof {
                    lemma_scan_until_bounds(src, at, seq!['\n']);
                    assert(seq!['\n'].contains(src[scan_until(src, at, seq!['\n'])]) ==> src[scan_until(
                        src,
                        at,
                        seq!['\n'],
                    )] == '\n');
                }
                let _ = self.parse_comment();
            } else if c == '[' {
                break ;
            } else if char_is_ascii_space(c) {
                self.bump();
            } else {
                proof {
                    lemma_entry_at_bounds(src, at);
                }
                let ghost before = raw_views(entries@);
                let entry = self.parse_entry()?;
                entries.push(entry);
                assert(raw_views(entries@) =~= before.push((entry.0@, entry.1@)));
            }
            cur = self.cur();
        }

        Ok((name, entries))
    }

    // SECTION_HEADER = '[' ANY+ ']' NL
    fn parse_section_header(&mut self) -> (r: Result<String, ParseError>)
        requires
            old(self).wf(),
        ensures
            final(self).wf(),
            final(self).source() == old(self).source(),
            match header_at(old(self).source(), old(self).position() as int) {
                Ok((name, end)) => r matches Ok(n) && n@ == name && final(self).position() == end,
                Err(f) => r matches Err(e) && reports(e, old(self).source(), f),
            },
    {
        match self.cur() {
            Some('[') => self.bump(),
            _ => {
                return Err(self.unexpected("expected '[' as start of section header"));
            },
        }

        let section_name = self.parse_until_any_of(&[']', '\n']);

        match self.cur() {
            Some(']') => self.bump(),
            _ => {
                return Err(self.unexpected("expected ']' as end of section header"));
            },
        }

        if section_name.as_str().is_empty() {
            return Err(self.error(String::from_str("section header cannot be empty")));
        }
        Ok(section_name)
    }

    // UNIT           = [COMMENT | SECTION]*
    fn parse_unit(&mut self) -> (r: Result<SystemdUnit, ParseError>)
        requires
            old(self).wf(),
        ensures
            final(self).wf(),
            final(self).source() == old(self).source(),
            match unit_scan(old(self).source(), old(self).position() as int, Seq::empty()) {
                Ok(d) => r matches Ok(unit) && unit.wf() && unit@ == d && unit.source_path()
                    is None,
                Err(f) => r matches Err(e) && reports(e, old(self).source(), f),
            },
    {
        let ghost src = self.source();
        let mut unit = SystemdUnit::new();
        let ghost goal = unit_scan(src, self.position() as int, Seq::empty());
        assert(unit@ =~= Seq::empty());

        let mut cur = self.cur();
        while cur.is_some()
            invariant
                self.wf(),
                self.source() == src,
                src == old(self).source(),
                goal == unit_scan(src, old(self).position() as int, Seq::empty()),
                cur == self.current(),
                self.position() <= src.len(),
                unit.wf(),
                unit.source_path() is None,
                unit_scan(src, self.position() as int, unit@) == goal,
            decreases src.len() - self.position(),
        {
            let c = cur.unwrap();
            let ghost at = self.position() as int;
            if c == '#' || c == ';' {
                // ignore comment
                proof {
                    lemma_scan_until_bounds(src, at, seq!['\n']);
                    assert(seq!['\n'].contains(src[scan_until(src, at, seq!['\n'])]) ==> src[scan_until(
                        src,
                        at,
                        seq!['\n'],
                    )] == '\n');
                }
                let _ = self.parse_comment();
            } else if c == '[' {
                proof {
                    lemma_section_at_bounds(src, at);
                }
                let (section, entries) = self.parse_section()?;
                // make sure there's a section entry (even if `entries` is empty)
                unit.ensure_section(section.as_str());
                let ghost raws = raw_views(entries@);
                let ghost base = unit@;
                let mut k: usize = 0;
                while k < entries.len()
                    invariant
                        k <= entries.len(),
                        self.wf(),
                        self.source() == src,
                        src == old(self).source(),
                        goal == unit_scan(src, old(self).position() as int, Seq::empty()),
                        raws == raw_views(entries@),
                        unit.wf(),
                        unit.source_path() is None,
                        with_raw_entries(base, section@, raws.take(k as int)) == Ok::<
                            UnitView,
                            Seq<char>,
                        >(unit@),
                        with_raw_entries(base, section@, raws) matches Ok(next) ==> unit_scan(
                            src,
                            self.position() as int,
                            next,
                        ) == goal,
                        with_raw_entries(base, section@, raws) is Err ==> goal == Err::<UnitView, Fault>(
                            Fault {
                                at: self.position() as int,
                                msg: msg_unquoting(with_raw_entries(base, section@, raws)->Err_0),
                            },
                        ),
                    decreases entries.len() - k,
                {
                    let key: &String = &entries[k].0;
                    let value: &String = &entries[k].1;
                    proof {
                        assert(raws[k as int] == (key@, value@));
                        assert(raws.take(k as int + 1).drop_last() =~= raws.take(k as int));
                    }
                    match EntryValue::try_from_raw(value.as_str()) {
                        Ok(v) => {
                            unit.append_entry_value(section.as_str(), key.as_str(), v);
                        },
                        Err(e) => {
                            proof {
                                lemma_with_raw_entries_prefix(base, section@, raws, k as int + 1);
                            }
                            let msg = e.to_string();
                            return Err(self.error(msg));
                        },
                    }
                    k += 1;
                }
                proof {
                    assert(raws.take(entries.len() as int) =~= raws);
                }
            } else if char_is_ascii_space(c) {
                self.bump();
            } else {
                return Err(self.error(String::from_str("Expected comment or section")));
            }
            cur = self.cur();
        }

        Ok(unit)
    }

    fn parse_until_any_of(&mut self, end: &[char]) -> (s: String)
        requires
            old(self).wf(),
        ensures
            final(self).wf(),
            final(self).source() == old(self).source(),
            final(self).position() == scan_until(
                old(self).source(),
                old(self).position() as int,
                end@,
            ),
            old(self).position() <= final(self).position() <= old(self).source().len(),
            s@ == old(self).source().subrange(
                old(self).position() as int,
                final(self).position() as int,
            ),
    {
        let ghost src = self.source();
        let ghost start = self.position() as int;
        let mut s = String::new();
        proof {
            self.cursor.lemma_position_in_bounds();
            assert(s@ =~= src.subrange(start, start));
        }

        let mut cur = self.cur();
        while cur.is_some()
            invariant
                self.wf(),
                self.source() == src,
                cur == self.current(),
                0 <= start <= self.position() <= src.len(),
                scan_until(src, self.position() as int, end@) == scan_until(src, start, end@),
                s@ == src.subrange(start, self.position() as int),
            ensures
                self.wf(),
                self.source() == src,
                start <= self.position() <= src.len(),
                self.position() == scan_until(src, start, end@),
                s@ == src.subrange(start, self.position() as int),
            decreases src.len() - self.position(),
        {
            let c = cur.unwrap();
            if is_any_of(end, c) {
                break ;
            }
            s.push(c);
            self.bump();
            cur = self.cur();
            assert(s@ =~= src.subrange(start, self.position() as int));
        }
        s
    }

    fn parse_until_none_of(&mut self, end: &[char]) -> (s: String)
        requires
            old(self).wf(),
        ensures
            final(self).wf(),
            final(self).source() == old(self).source(),
            final(self).position() == scan_while(
                old(self).source(),
                old(self).position() as int,
                end@,
            ),
            old(self).position() <= final(self).position() <= old(self).source().len(),
            s@ == old(self).source().subrange(
                old(self).position() as int,
                final(self).position() as int,
            ),
    {
        let ghost src = self.source();
        let ghost start = self.position() as int;
        let mut s = String::new();
        proof {
            self.cursor.lemma_position_in_bounds();
            assert(s@ =~= src.subrange(start, start));
        }

        let mut cur = self.cur();
        while cur.is_some()
            invariant
                self.wf(),
                self.source() == src,
                cur == self.current(),
                0 <= start <= self.position() <= src.len(),
                scan_while(src, self.position() as int, end@) == scan_while(src, start, end@),
                s@ == src.subrange(start, self.position() as int),
            ensures
                self.wf(),
                self.source() == src,
                start <= self.position() <= src.len(),
                self.position() == scan_while(src, start, end@),
                s@ == src.subrange(start, self.position() as int),
            decreases src.len() - self.position(),
        {
            let c = cur.unwrap();
            if !is_any_of(end, c) {
                break ;
            }
            s.push(c);
            self.bump();
            cur = self.cur();
            assert(s@ =~= src.subrange(start, self.position() as int));
        }
        s
    }

    // VALUE          = ANY* CONTINUE_NL [COMMENT]* VALUE
    fn parse_value(&mut self) -> (r: Result<String, ParseError>)
        requires
            old(self).wf(),
        ensures
            final(self).wf(),
            final(self).source() == old(self).source(),
            r matches Ok(value) && (value@, final(self).position() as int) == value_scan(
                old(self).source(),
                old(self).position() as int,
                false,
                false,
                Seq::empty(),
            ),
    {
        let ghost src = self.source();
        let mut value: String = String::new();
        let mut backslash = false;
        let mut line_continuation = false;
        let ghost goal = value_scan(src, self.position() as int, false, false, Seq::empty());

        let mut cur = self.cur();
        while cur.is_some()
            invariant_except_break
                value_scan(src, self.position() as int, backslash, line_continuation, value@)
                    == goal,
            invariant
                self.wf(),
                self.source() == src,
                cur == self.current(),
                self.position() <= src.len(),
                !(backslash && line_continuation),
            ensures
                self.wf(),
                self.source() == src,
                goal == (value@, self.position() as int),
            decreases src.len() - self.position(),
        {
            let c = cur.unwrap();
            if backslash {
                backslash = false;
                match c {
                    // line continuation -> add replacement to value and continue normally
                    '\n' => {
                        let ghost before = value@;
                        value.append(" ");
                        proof {
                            reveal_strlit(" ");
                            assert(value@ =~= before.push(' '));
                        }
                        line_continuation = true;
                    },
                    // just an escape sequence -> add to value and continue normally
                    _ => {
                        value.push('\\');
                        value.push(c);
                    },
                }
            } else if line_continuation {
                line_continuation = false;
                match c {
                    '#' | ';' => {
                        // ignore interspersed comments
                        let ghost at = self.position() as int;
                        proof {
                            lemma_scan_until_bounds(src, at, seq!['\n']);
                        }
                        let _ = self.parse_comment();
                        line_continuation = true;
                    },
                    // end of value
                    '\n' => {
                        break ;
                    },
                    // start of section header (although an unexpected one), i.e. end of value
                    '[' => {
                        break ;
                    },
                    // value continues after line continuation
                    _ => {
                        if c == '\\' {
                            // we may have a line continuation following another line continuation
                            backslash = true;
                        } else {
                            value.push(c);
                        }
                    },
                }
            } else {
                match c {
                    // may be start of a line continuation
                    '\\' => {
                        backslash = true;
                    },
                    // end of value
                    '\n' => {
                        break ;
                    },
                    _ => {
                        value.push(c);
                    },
                }
            }
            self.bump();
            cur = self.cur();
        }

        Ok(value)
    }
}

/// Whether `key` is made of letters, digits and hyphens, and of one of
/// them at least.
fn is_key(key: &str) -> (b: bool)
    ensures
        b == is_key_spec(key@),
{
    broadcast use vstd::string::group_string_axioms;

    if key.is_empty() {
        return false;
    }
    for c in it: key.chars()
        invariant
            it.seq() == key@,
            forall|k: int| 0 <= k < it.index() ==> is_key_char(#[trigger] key@[k]),
    {
        if !(char_is_alphanumeric(c) || c == '-') {
            assert(!is_key_char(key@[it.index() as int]));
            return false;
        }
    }
    true
}

/// Taking the raw entries in up to a point gives what taking all of them in
/// gives, once a literal among them does not decode.
pub proof fn lemma_with_raw_entries_prefix(
    d: UnitView,
    name: Seq<char>,
    raws: Seq<(Seq<char>, Seq<char>)>,
    k: int,
)
    requires
        0 <= k <= raws.len(),
        with_raw_entries(d, name, raws.take(k)) is Err,
    ensures
        with_raw_entries(d, name, raws) == with_raw_entries(d, name, raws.take(k)),
    decreases raws.len() - k,
{
    if k < raws.len() {
        assert(raws.take(k + 1).drop_last() =~= raws.take(k));
        lemma_with_raw_entries_prefix(d, name, raws, k + 1);
    } else {
        assert(raws.take(k) =~= raws);
    }
}

} // verus!
