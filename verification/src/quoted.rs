//! The escape and quote engine: encoding a logical string as a literal, and
//! decoding a literal back.

use vstd::prelude::*;
use vstd::string::*;
use crate::cursor::Cursor;
use crate::text::{
    char_debug, char_debug_text, decimal, decimal_string, digit_char, digit_to_char,
    is_scalar_value,
};
use crate::Error;

verus! {

// ---------------------------------------------------------------------
// Encoding
// ---------------------------------------------------------------------

/// Characters that the encoder looks at: ASCII control characters, ASCII
/// whitespace, both quote characters and the backslash.
pub open spec fn needs_escaping(c: char) -> bool {
    c as u32 <= 0x20 || c as u32 == 0x7f || c == '"' || c == '\'' || c == '\\'
}

/// The literal text that stands for one logical character.
pub open spec fn escape_of(c: char) -> Seq<char> {
    if !needs_escaping(c) || c == ' ' || c == '\'' {
        seq![c]
    } else if c == '\x07' {
        seq!['\\', 'a']
    } else if c == '\x08' {
        seq!['\\', 'b']
    } else if c == '\n' {
        seq!['\\', 'n']
    } else if c == '\r' {
        seq!['\\', 'r']
    } else if c == '\t' {
        seq!['\\', 't']
    } else if c == '\x0b' {
        seq!['\\', 'v']
    } else if c == '\x0c' {
        seq!['\\', 'f']
    } else if c == '\\' {
        seq!['\\', '\\']
    } else if c == '"' {
        seq!['\\', '"']
    } else {
        seq!['\\', 'x', digit_char(c as u32 as int / 16), digit_char(c as u32 as int % 16)]
    }
}

/// The literal for a logical string: the escapes of its characters, in order.
pub open spec fn quote_spec(s: Seq<char>) -> Seq<char>
    decreases s.len(),
{
    if s.len() == 0 {
        Seq::empty()
    } else {
        quote_spec(s.drop_last()) + escape_of(s.last())
    }
}

/// Whether some character of the word would be looked at by the encoder.
pub open spec fn word_needs_escaping_spec(w: Seq<char>) -> bool {
    exists|i: int| 0 <= i < w.len() && needs_escaping(#[trigger] w[i])
}

/// One word as it stands in an encoded word list.
pub open spec fn quoted_word(w: Seq<char>) -> Seq<char> {
    if word_needs_escaping_spec(w) {
        seq!['"'] + quote_spec(w) + seq!['"']
    } else {
        w
    }
}

/// The encoded word list: the encoded words joined by single spaces.
pub open spec fn quote_words_spec(ws: Seq<Seq<char>>) -> Seq<char>
    decreases ws.len(),
{
    if ws.len() == 0 {
        Seq::empty()
    } else if ws.len() == 1 {
        quoted_word(ws[0])
    } else {
        quote_words_spec(ws.drop_last()) + seq![' '] + quoted_word(ws.last())
    }
}

fn char_needs_escaping(c: char) -> (b: bool)
    ensures
        b == needs_escaping(c),
{
    let n: u32 = c as u32;
    if n > 128 {
        return false;
    }
    n <= 0x20 || n == 0x7f || c == '"' || c == '\'' || c == '\\'
}

/// Encodes a logical string as a literal.
pub fn quote_value(value: &str) -> (escaped: String)
    ensures
        escaped@ == quote_spec(value@),
{
    broadcast use vstd::string::group_string_axioms;

    let mut escaped = String::new();
    for c in it: value.chars()
        invariant
            it.seq() == value@,
            escaped@ == quote_spec(it.seq().take(it.index() as int)),
    {
        let ghost before = it.seq().take(it.index() as int);
        let ghost after = it.seq().take(it.index() as int + 1);
        assert(after.drop_last() =~= before);
        assert(after.last() == c);
        if !char_needs_escaping(c) {
            escaped.push(c);
        } else {
            match c {
                '\x07' => escaped.append("\\a"),
                '\x08' => escaped.append("\\b"),
                '\n' => escaped.append("\\n"),
                '\r' => escaped.append("\\r"),
                '\t' => escaped.append("\\t"),
                '\x0b' => escaped.append("\\v"),
                '\x0c' => escaped.append("\\f"),
                '\\' => escaped.append("\\\\"),
                ' ' => escaped.append(" "),
                '"' => escaped.append("\\\""),
                '\'' => escaped.append("'"),
                _ => {
                    let n: u32 = c as u32;
                    escaped.append("\\x");
                    escaped.push(digit_to_char(n / 16));
                    escaped.push(digit_to_char(n % 16));
                },
            }
            proof {
                reveal_strlit("\\a");
                reveal_strlit("\\b");
                reveal_strlit("\\n");
                reveal_strlit("\\r");
                reveal_strlit("\\t");
                reveal_strlit("\\v");
                reveal_strlit("\\f");
                reveal_strlit("\\\\");
                reveal_strlit(" ");
                reveal_strlit("\\\"");
                reveal_strlit("'");
                reveal_strlit("\\x");
            }
        }
        assert(escaped@ =~= quote_spec(before) + escape_of(c));
    }
    assert(value@.take(value@.len() as int) =~= value@);
    escaped
}

fn word_needs_escaping(word: &str) -> (b: bool)
    ensures
        b == word_needs_escaping_spec(word@),
{
    broadcast use vstd::string::group_string_axioms;

    for c in it: word.chars()
        invariant
            it.seq() == word@,
            forall|k: int| 0 <= k < it.index() ==> !needs_escaping(#[trigger] word@[k]),
    {
        if char_needs_escaping(c) {
            assert(needs_escaping(word@[it.index() as int]));
            return true;
        }
    }
    false
}

/// The character sequences of a list of string slices.
pub open spec fn texts_of(words: Seq<&str>) -> Seq<Seq<char>> {
    Seq::new(words.len(), |i: int| words[i]@)
}

/// Encodes a list of words as one literal: the words are joined by single
/// spaces, and a word that holds a character the encoder looks at is encoded
/// and put in double quotes.
pub fn quote_words(words: &[&str]) -> (joined: String)
    ensures
        joined@ == quote_words_spec(texts_of(words@)),
{
    let ghost all = texts_of(words@);
    let mut joined = String::new();
    let mut i: usize = 0;
    while i < words.len()
        invariant
            i <= words.len(),
            all == texts_of(words@),
            joined@ == quote_words_spec(all.take(i as int)),
        decreases words.len() - i,
    {
        let word: &str = words[i];
        proof {
            assert(all.take(i as int + 1).drop_last() =~= all.take(i as int));
            assert(all.take(i as int + 1).last() == word@);
        }
        if i > 0 {
            joined.push(' ');
        }
        if word_needs_escaping(word) {
            joined.push('"');
            joined.append(quote_value(word).as_str());
            joined.push('"');
        } else {
            joined.append(word);
        }
        i += 1;
        assert(joined@ =~= quote_words_spec(all.take(i as int)));
    }
    assert(all.take(words.len() as int) =~= all);
    joined
}

// ---------------------------------------------------------------------
// Decoding: what a literal means
// ---------------------------------------------------------------------

/// The character that a one-letter escape stands for.
pub open spec fn named_escape(c: char) -> Option<char> {
    if c == 'a' {
        Some('\x07')
    } else if c == 'b' {
        Some('\x08')
    } else if c == 'f' {
        Some('\x0c')
    } else if c == 'n' {
        Some('\n')
    } else if c == 'r' {
        Some('\r')
    } else if c == 't' {
        Some('\t')
    } else if c == 'v' {
        Some('\x0b')
    } else if c == '\\' {
        Some('\\')
    } else if c == '"' {
        Some('"')
    } else if c == '\'' {
        Some('\'')
    } else if c == 's' {
        Some(' ')
    } else {
        None
    }
}

/// The hexadecimal digits, in either case.
pub open spec fn is_hex_digit(c: char) -> bool {
    ('0' <= c <= '9') || ('a' <= c <= 'f') || ('A' <= c <= 'F')
}

/// The octal digits.
pub open spec fn is_oct_digit(c: char) -> bool {
    '0' <= c <= '7'
}

/// Whether `c` is a digit of the given radix (sixteen, or else eight).
pub open spec fn is_digit_of(c: char, radix: int) -> bool {
    if radix == 16 {
        is_hex_digit(c)
    } else {
        is_oct_digit(c)
    }
}

/// The value of a digit character.
pub open spec fn digit_value(c: char) -> int {
    if '0' <= c <= '9' {
        c as u32 as int - 48
    } else if 'a' <= c <= 'f' {
        c as u32 as int - 87
    } else {
        c as u32 as int - 55
    }
}

/// Whether `s` holds a digit of the radix at index `j`.
pub open spec fn digit_at(s: Seq<char>, j: int, radix: int) -> bool {
    0 <= j < s.len() && is_digit_of(s[j], radix)
}

/// How many of the `count` characters from `start` on are digits of the
/// radix, counted from the left up to the first that is not.
pub open spec fn digits_run(s: Seq<char>, start: int, count: nat, radix: int) -> nat
    decreases count,
{
    if count == 0 || start < 0 || start >= s.len() || !is_digit_of(s[start], radix) {
        0
    } else {
        1 + digits_run(s, start + 1, (count - 1) as nat, radix)
    }
}

/// The number written by the `count` digits from `start` on.
pub open spec fn digits_value(s: Seq<char>, start: int, count: nat, radix: int) -> int
    decreases count,
{
    if count == 0 {
        0
    } else {
        digits_value(s, start, (count - 1) as nat, radix) * radix + digit_value(
            s[start + count - 1],
        )
    }
}

/// The message for a backslash at the end of the literal.
pub open spec fn msg_escape_eof() -> Seq<char> {
    "expecting escape sequence, but found EOF."@
}

/// The message for a backslash before a character that starts no escape.
pub open spec fn msg_unknown_escape(c: char) -> Seq<char> {
    "expecting escape sequence, but found "@ + char_debug_text(c) + "."@
}

/// The message for a numeric escape that the end of the literal cuts
/// short.
pub open spec fn msg_code_eof() -> Seq<char> {
    "expecting unicode escape sequence, but found EOF."@
}

/// The message for a hexadecimal escape with the character `c` where a
/// digit should be; `code` is the escape read so far, `c` included.
pub open spec fn msg_bad_hex(count: nat, c: char, code: Seq<char>) -> Seq<char> {
    ("expected "@ + decimal(count) + " hex values after \"\\"@).push(c) + "\", but got \"\\"@.push(
        c,
    ) + code + "\""@
}

/// The message for an octal escape with something else than an octal digit
/// in it; `code` is the escape read so far, that character included.
pub open spec fn msg_bad_octal(count: nat, code: Seq<char>) -> Seq<char> {
    "expected "@ + decimal(count) + " octal values after \"\\\", but got \"\\"@ + code + "\""@
}

/// The message for a numeric escape that writes zero.
pub open spec fn msg_nul() -> Seq<char> {
    "\\0 character not allowed in escape sequence"@
}

/// The message for a numeric escape that writes no Unicode scalar value.
pub open spec fn msg_not_scalar() -> Seq<char> {
    "invalid unicode character in escape sequence: converted integer out of range for `char`"@
}

/// The character written by a numeric escape of `count` digits that start
/// at `s[start]`, or the message of the first thing wrong with it.
pub open spec fn code_point_at(s: Seq<char>, start: int, count: nat, radix: int) -> Result<
    char,
    Seq<char>,
> {
    let run = digits_run(s, start, count, radix);
    if run < count {
        if start + run >= s.len() {
            Err(msg_code_eof())
        } else if radix == 16 {
            Err(msg_bad_hex(count, s[start + run], s.subrange(start, start + run + 1)))
        } else {
            Err(msg_bad_octal(count, s.subrange(start, start + run + 1)))
        }
    } else {
        let value = digits_value(s, start, count, radix);
        if value == 0 {
            Err(msg_nul())
        } else if !is_scalar_value(value) {
            Err(msg_not_scalar())
        } else {
            Ok(value as char)
        }
    }
}

/// How many characters an escape takes after its backslash, going by the
/// character that follows the backslash.
pub open spec fn escape_len(c: char) -> int {
    if c == 'x' {
        3
    } else if c == 'u' {
        5
    } else if c == 'U' {
        9
    } else if is_oct_digit(c) {
        3
    } else {
        1
    }
}

/// The character that the escape at `s[j]` stands for, `j` being the place
/// right after the backslash. A letter that introduces no escape is an error,
/// unless `lenient` is set: then it stands for itself.
pub open spec fn escape_at(s: Seq<char>, j: int, lenient: bool) -> Result<char, Seq<char>> {
    if j < 0 || j >= s.len() {
        Err(msg_escape_eof())
    } else {
        let c = s[j];
        if named_escape(c) is Some {
            Ok(named_escape(c)->0)
        } else if c == 'x' {
            code_point_at(s, j + 1, 2, 16)
        } else if c == 'u' {
            code_point_at(s, j + 1, 4, 16)
        } else if c == 'U' {
            code_point_at(s, j + 1, 8, 16)
        } else if is_oct_digit(c) {
            code_point_at(s, j, 3, 8)
        } else if lenient {
            Ok(c)
        } else {
            Err(msg_unknown_escape(c))
        }
    }
}

/// Whether a quote character met after this much output opens a quotation,
/// when none is open: only at the very start, or after a space, a tab or a
/// line feed.
pub open spec fn opens_quote(out: Seq<char>) -> bool {
    out.len() == 0 || out.last() == ' ' || out.last() == '\t' || out.last() == '\n'
}

/// Decoding from index `i` on, with `out` decoded so far and `quote` the
/// quotation that is open. While a quotation is open, only its own quote
/// character ends it, and the other quote character is copied; a backslash
/// starts an escape inside a quotation as outside.
pub open spec fn unquote_from(s: Seq<char>, i: int, out: Seq<char>, quote: Option<char>) -> Result<
    Seq<char>,
    Seq<char>,
>
    decreases (if i < s.len() { s.len() - i } else { 0 }),
{
    if i < 0 || i >= s.len() {
        Ok(out)
    } else {
        let c = s[i];
        if (c == '\'' || c == '"') && quote is None && opens_quote(out) {
            unquote_from(s, i + 1, out, Some(c))
        } else if c == '\\' {
            if i + 1 >= s.len() {
                Err(msg_escape_eof())
            } else {
                match escape_at(s, i + 1, false) {
                    Err(m) => Err(m),
                    Ok(ch) => unquote_from(s, i + 1 + escape_len(s[i + 1]), out.push(ch), quote),
                }
            }
        } else if quote == Some(c) {
            unquote_from(s, i + 1, out, None)
        } else {
            unquote_from(s, i + 1, out.push(c), quote)
        }
    }
}

/// The logical string that a literal decodes to, or the message of the first
/// malformed escape.
pub open spec fn unquote_spec(s: Seq<char>) -> Result<Seq<char>, Seq<char>> {
    unquote_from(s, 0, Seq::empty(), None)
}

/// Whether an executable decoding result is the one that the model gives.
pub open spec fn is_decoding(
    r: Result<String, Error>,
    model: Result<Seq<char>, Seq<char>>,
) -> bool {
    match model {
        Ok(text) => r matches Ok(s) && s@ == text,
        Err(message) => r matches Err(Error::Unquoting(m)) && m@ == message,
    }
}

/// Whether an executable result for one escape is the one that the model
/// gives.
pub open spec fn is_decoded_char(r: Result<char, Error>, model: Result<char, Seq<char>>) -> bool {
    match model {
        Ok(ch) => r == Ok::<char, Error>(ch),
        Err(message) => r matches Err(Error::Unquoting(m)) && m@ == message,
    }
}

// ---------------------------------------------------------------------
// Decoding: the scanner
// ---------------------------------------------------------------------

/// `radix` multiplied by itself `k` times: the bound on what `k` digits write.
pub open spec fn radix_pow(radix: int, k: nat) -> int
    decreases k,
{
    if k == 0 {
        1
    } else {
        radix * radix_pow(radix, (k - 1) as nat)
    }
}

/// What eight hexadecimal or ten octal digits write fits in 32 bits.
pub proof fn lemma_radix_pow_fits(radix: int, k: nat)
    requires
        (radix == 16 && k <= 8) || (radix == 8 && k <= 10),
    ensures
        0 < radix_pow(radix, k) <= 0x1_0000_0000,
{
    reveal_with_fuel(radix_pow, 12);
}

/// When the first `k` characters from `start` on are digits and the next is
/// not, or `k` is all that was asked for, the run of digits has length `k`.
pub proof fn lemma_digits_run(s: Seq<char>, start: int, count: nat, radix: int, k: nat)
    requires
        0 <= start,
        k <= count,
        forall|j: int| start <= j < start + k ==> #[trigger] digit_at(s, j, radix),
        k == count || start + k >= s.len() || !is_digit_of(s[start + k], radix),
    ensures
        digits_run(s, start, count, radix) == k,
    decreases k,
{
    if k > 0 {
        assert(digit_at(s, start, radix));
        lemma_digits_run(s, start + 1, (count - 1) as nat, radix, (k - 1) as nat);
    }
}

fn char_is_digit_of(c: char, radix: u32) -> (b: bool)
    ensures
        b == is_digit_of(c, radix as int),
{
    if radix == 16 {
        ('0' <= c && c <= '9') || ('a' <= c && c <= 'f') || ('A' <= c && c <= 'F')
    } else {
        '0' <= c && c <= '7'
    }
}

fn char_digit_value(c: char) -> (v: u32)
    requires
        is_hex_digit(c),
    ensures
        v == digit_value(c),
        v < 16,
        is_oct_digit(c) ==> v < 8,
{
    let n: u32 = c as u32;
    if '0' <= c && c <= '9' {
        n - 48
    } else if 'a' <= c && c <= 'f' {
        n - 87
    } else {
        n - 55
    }
}

/// The character that a one-letter escape stands for.
pub(crate) fn named_escape_of(c: char) -> (r: Option<char>)
    ensures
        r == named_escape(c),
{
    match c {
        'a' => Some('\u{7}'),
        'b' => Some('\u{8}'),
        'f' => Some('\u{c}'),
        'n' => Some('\n'),
        'r' => Some('\r'),
        't' => Some('\t'),
        'v' => Some('\u{b}'),
        '\\' => Some('\\'),
        '"' => Some('"'),
        '\'' => Some('\''),
        's' => Some(' '),
        _ => None,
    }
}

fn bad_hex_message(max_chars: usize, c: char, code: &str) -> (m: String)
    ensures
        m@ == msg_bad_hex(max_chars as nat, c, code@),
{
    let mut m = String::from_str("expected ");
    m.append(decimal_string(max_chars).as_str());
    m.append(" hex values after \"\\");
    m.push(c);
    m.append("\", but got \"\\");
    m.push(c);
    m.append(code);
    m.append("\"");
    assert(m@ =~= msg_bad_hex(max_chars as nat, c, code@));
    m
}

fn bad_octal_message(max_chars: usize, code: &str) -> (m: String)
    ensures
        m@ == msg_bad_octal(max_chars as nat, code@),
{
    let mut m = String::from_str("expected ");
    m.append(decimal_string(max_chars).as_str());
    m.append(" octal values after \"\\\", but got \"\\");
    m.append(code);
    m.append("\"");
    assert(m@ =~= msg_bad_octal(max_chars as nat, code@));
    m
}

fn unknown_escape_message(c: char) -> (m: String)
    ensures
        m@ == msg_unknown_escape(c),
{
    let mut m = String::from_str("expecting escape sequence, but found ");
    m.append(char_debug(c).as_str());
    m.append(".");
    m
}

/// Reads a numeric escape of exactly `max_chars` digits, the first of which
/// is the current character, and leaves the cursor on the last digit.
pub(crate) fn read_code_point(cursor: &mut Cursor, max_chars: usize, radix: u32) -> (r: Result<
    char,
    Error,
>)
    requires
        (radix == 16 && 1 <= max_chars <= 8) || (radix == 8 && 1 <= max_chars <= 10),
    ensures
        final(cursor).source() == old(cursor).source(),
        is_decoded_char(
            r,
            code_point_at(
                old(cursor).source(),
                old(cursor).position() as int,
                max_chars as nat,
                radix as int,
            ),
        ),
        r is Ok ==> final(cursor).position() == old(cursor).position() + max_chars - 1
            && final(cursor).position() < old(cursor).source().len(),
{
    let ghost src = cursor.source();
    let ghost start = cursor.position() as int;
    let mut code = String::new();
    let mut value: u32 = 0;
    let mut k: usize = 0;
    proof {
        cursor.lemma_position_in_bounds();
        assert(code@ =~= src.subrange(start, start));
    }
    while k < max_chars
        invariant
            cursor.source() == src,
            (radix == 16 && 1 <= max_chars <= 8) || (radix == 8 && 1 <= max_chars <= 10),
            0 <= start <= src.len(),
            k <= max_chars,
            cursor.position() == (if k == 0 {
                start
            } else {
                start + k - 1
            }),
            src == old(cursor).source(),
            start == old(cursor).position(),
            forall|j: int| start <= j < start + k ==> #[trigger] digit_at(src, j, radix as int),
            code@ == src.subrange(start, start + k),
            value == digits_value(src, start, k as nat, radix as int),
            0 <= value < radix_pow(radix as int, k as nat),
        decreases max_chars - k,
    {
        if k != 0 {
            cursor.bump();
        }
        match cursor.cur() {
            Some(c) => {
                code.push(c);
                assert(code@ =~= src.subrange(start, start + k + 1));
                if !char_is_digit_of(c, radix) {
                    proof {
                        lemma_digits_run(src, start, max_chars as nat, radix as int, k as nat);
                    }
                    if radix == 16 {
                        return Err(
                            Error::Unquoting(bad_hex_message(max_chars, c, code.as_str())),
                        );
                    } else {
                        return Err(
                            Error::Unquoting(bad_octal_message(max_chars, code.as_str())),
                        );
                    }
                }
                let digit = char_digit_value(c);
                proof {
                    lemma_radix_pow_fits(radix as int, (k + 1) as nat);
                    assert(radix_pow(radix as int, (k + 1) as nat) == radix * radix_pow(
                        radix as int,
                        k as nat,
                    ));
                }
                if radix == 16 {
                    value = value * 16 + digit;
                } else {
                    value = value * 8 + digit;
                }
            },
            None => {
                proof {
                    lemma_digits_run(src, start, max_chars as nat, radix as int, k as nat);
                }
                return Err(
                    Error::Unquoting(
                        String::from_str("expecting unicode escape sequence, but found EOF."),
                    ),
                );
            },
        }
        k += 1;
    }
    proof {
        lemma_digits_run(src, start, max_chars as nat, radix as int, max_chars as nat);
        assert(digit_at(src, start + max_chars - 1, radix as int));
    }
    if value == 0 {
        return Err(
            Error::Unquoting(String::from_str("\\0 character not allowed in escape sequence")),
        );
    }
    match char::from_u32(value) {
        Some(u) => Ok(u),
        None => Err(
            Error::Unquoting(
                String::from_str(
                    "invalid unicode character in escape sequence: converted integer out of range for `char`",
                ),
            ),
        ),
    }
}

struct Quoted {
    cursor: Cursor,
}

impl Quoted {
    fn bump(&mut self)
        ensures
            final(self).cursor.source() == old(self).cursor.source(),
            old(self).cursor.position() <= old(self).cursor.source().len(),
            final(self).cursor.position() == if old(self).cursor.position() < old(
                self
            ).cursor.source().len() {
                old(self).cursor.position() + 1
            } else {
                old(self).cursor.position()
            },
    {
        self.cursor.bump();
    }

    fn parse_and_unquote(&mut self) -> (r: Result<String, Error>)
        ensures
            is_decoding(
                r,
                unquote_from(
                    old(self).cursor.source(),
                    old(self).cursor.position() as int,
                    Seq::empty(),
                    None,
                ),
            ),
    {
        let mut result: String = String::new();
        let mut last: Option<char> = None;
        let mut quote: Option<char> = None;
        let ghost src = self.cursor.source();
        let ghost goal = unquote_from(src, self.cursor.position() as int, Seq::empty(), None);

        let mut cur = self.cursor.cur();
        while cur.is_some()
            invariant
                self.cursor.source() == src,
                goal == unquote_from(
                    old(self).cursor.source(),
                    old(self).cursor.position() as int,
                    Seq::empty(),
                    None,
                ),
                cur == self.cursor.current(),
                self.cursor.position() <= src.len(),
                last == (if result@.len() > 0 {
                    Some(result@.last())
                } else {
                    None::<char>
                }),
                unquote_from(src, self.cursor.position() as int, result@, quote) == goal,
            decreases src.len() - self.cursor.position(),
        {
            let c = cur.unwrap();
            let at_word_start = match last {
                None => true,
                Some(l) => l == ' ' || l == '\t' || l == '\n',
            };
            if (c == '\'' || c == '"') && quote.is_none() && at_word_start {
                quote = cur;
            } else if c == '\\' {
                self.bump();
                match self.cursor.cur() {
                    None => {
                        return Err(
                            Error::Unquoting(
                                String::from_str("expecting escape sequence, but found EOF."),
                            ),
                        );
                    },
                    Some(_) => {
                        match self.parse_escape_sequence() {
                            Ok(ch) => {
                                result.push(ch);
                                last = Some(ch);
                            },
                            Err(e) => {
                                return Err(e);
                            },
                        }
                    },
                }
            } else {
                if cur == quote {
                    quote = None;
                } else {
                    result.push(c);
                    last = Some(c);
                }
            }
            self.bump();
            cur = self.cursor.cur();
        }
        Ok(result)
    }

    fn parse_escape_sequence(&mut self) -> (r: Result<char, Error>)
        ensures
            final(self).cursor.source() == old(self).cursor.source(),
            is_decoded_char(
                r,
                escape_at(old(self).cursor.source(), old(self).cursor.position() as int, false),
            ),
            r is Ok ==> old(self).cursor.position() < old(self).cursor.source().len()
                && final(self).cursor.position() == old(self).cursor.position() + escape_len(
                old(self).cursor.source()[old(self).cursor.position() as int],
            ) - 1 && final(self).cursor.position() < old(self).cursor.source().len(),
    {
        if let Some(c) = self.cursor.cur() {
            let r = match named_escape_of(c) {
                Some(r) => r,
                None => match c {
                    'x' => {
                        self.bump();
                        self.parse_unicode_escape(Some('x'), 2, 16)?
                    },
                    'u' => {
                        self.bump();
                        self.parse_unicode_escape(Some('u'), 4, 16)?
                    },
                    'U' => {
                        self.bump();
                        self.parse_unicode_escape(Some('U'), 8, 16)?
                    },
                    '0'..='7' => { self.parse_unicode_escape(None, 3, 8)? },
                    c => {
                        return Err(Error::Unquoting(unknown_escape_message(c)));
                    },
                },
            };
            Ok(r)
        } else {
            Err(Error::Unquoting(String::from_str("expecting escape sequence, but found EOF.")))
        }
    }

    fn parse_unicode_escape(&mut self, prefix: Option<char>, max_chars: usize, radix: u32) -> (r:
        Result<char, Error>)
        requires
            prefix is None || prefix == Some('x') || prefix == Some('u') || prefix == Some('U'),
            (radix == 16 && 1 <= max_chars <= 8) || (radix == 8 && 1 <= max_chars <= 10),
        ensures
            final(self).cursor.source() == old(self).cursor.source(),
            is_decoded_char(
                r,
                code_point_at(
                    old(self).cursor.source(),
                    old(self).cursor.position() as int,
                    max_chars as nat,
                    radix as int,
                ),
            ),
            r is Ok ==> final(self).cursor.position() == old(self).cursor.position() + max_chars
                - 1 && final(self).cursor.position() < old(self).cursor.source().len(),
    {
        read_code_point(&mut self.cursor, max_chars, radix)
    }
}

/// Decodes a literal into the logical string it stands for. A malformed
/// escape fails the whole literal.
pub fn unquote_value(raw: &str) -> (r: Result<String, Error>)
    ensures
        is_decoding(r, unquote_spec(raw@)),
{
    let mut parser = Quoted { cursor: Cursor::new(raw) };
    parser.parse_and_unquote()
}

// ---------------------------------------------------------------------
// Encoding and decoding together
// ---------------------------------------------------------------------

/// Whether the character at index `i` of a logical string comes back when
/// the string is encoded and decoded: the character is not NUL, and it is no
/// apostrophe at the start of the string or after a space, a tab or a line
/// feed.
pub open spec fn survives_at(s: Seq<char>, i: int) -> bool {
    s[i] != '\0' && !(s[i] == '\'' && opens_quote(s.take(i)))
}

/// Whether a logical string comes back when it is encoded and decoded.
pub open spec fn survives_quoting(s: Seq<char>) -> bool {
    forall|i: int| 0 <= i < s.len() ==> #[trigger] survives_at(s, i)
}

/// Encoding goes character by character: the literal of two strings joined
/// is the two literals joined.
pub proof fn lemma_quote_concat(a: Seq<char>, b: Seq<char>)
    ensures
        quote_spec(a + b) == quote_spec(a) + quote_spec(b),
    decreases b.len(),
{
    if b.len() == 0 {
        assert(a + b =~= a);
        assert(quote_spec(a) + quote_spec(b) =~= quote_spec(a));
    } else {
        lemma_quote_concat(a, b.drop_last());
        assert((a + b).drop_last() =~= a + b.drop_last());
        assert((a + b).last() == b.last());
        assert(quote_spec(a) + quote_spec(b.drop_last()) + escape_of(b.last()) =~= quote_spec(a) + (
        quote_spec(b.drop_last()) + escape_of(b.last())));
    }
}

/// In the literal of `s`, the escape of the character at index `k` stands
/// right behind the literal of the characters before it.
pub proof fn lemma_quote_at(s: Seq<char>, k: int)
    requires
        0 <= k < s.len(),
    ensures
        quote_spec(s.take(k + 1)) == quote_spec(s.take(k)) + escape_of(s[k]),
        quote_spec(s.take(k)).len() + escape_of(s[k]).len() <= quote_spec(s).len(),
        forall|t: int|
            0 <= t < escape_of(s[k]).len() ==> #[trigger] quote_spec(s)[quote_spec(s.take(k)).len()
                + t] == escape_of(s[k])[t],
{
    assert(s.take(k + 1).drop_last() =~= s.take(k));
    assert(s.take(k + 1) + s.skip(k + 1) =~= s);
    lemma_quote_concat(s.take(k + 1), s.skip(k + 1));
}

/// The two digits that the encoder writes for a character below 128 are
/// hexadecimal digits, and they write the character's code.
pub proof fn lemma_hex_digits_of(n: int)
    requires
        0 <= n < 128,
    ensures
        is_hex_digit(digit_char(n / 16)),
        is_hex_digit(digit_char(n % 16)),
        digit_value(digit_char(n / 16)) == n / 16,
        digit_value(digit_char(n % 16)) == n % 16,
{
}

/// Decoding steps over the escape of one character that survives, and puts
/// that character out.
pub proof fn lemma_unquote_step(q: Seq<char>, p: int, out: Seq<char>, c: char)
    requires
        0 <= p,
        p + escape_of(c).len() <= q.len(),
        forall|t: int| 0 <= t < escape_of(c).len() ==> #[trigger] q[p + t] == escape_of(c)[t],
        c != '\0',
        !(c == '\'' && opens_quote(out)),
    ensures
        unquote_from(q, p, out, None) == unquote_from(q, p + escape_of(c).len(), out.push(c), None),
{
    let esc = escape_of(c);
    assert(q[p + 0] == esc[0]);
    if esc.len() == 1 {
    } else if esc.len() == 2 {
        assert(q[p + 1] == esc[1]);
    } else {
        assert(q[p + 1] == esc[1]);
        assert(q[p + 2] == esc[2]);
        assert(q[p + 3] == esc[3]);
        let n = c as u32 as int;
        lemma_hex_digits_of(n);
        reveal_with_fuel(digits_run, 3);
        reveal_with_fuel(digits_value, 3);
        assert(digits_run(q, p + 2, 2, 16) == 2);
        assert(digits_value(q, p + 2, 2, 16) == n);
        assert(code_point_at(q, p + 2, 2, 16) == Ok::<char, Seq<char>>(c));
    }
}

/// While the characters before index `i` survive, decoding the literal of
/// `s` gets from the place where `k` of them have been decoded to the place
/// where all of them have been.
pub proof fn lemma_unquote_quoted_prefix(s: Seq<char>, k: int, i: int)
    requires
        0 <= k <= i <= s.len(),
        forall|j: int| 0 <= j < i ==> #[trigger] survives_at(s, j),
    ensures
        unquote_from(quote_spec(s), quote_spec(s.take(k)).len() as int, s.take(k), None)
            == unquote_from(quote_spec(s), quote_spec(s.take(i)).len() as int, s.take(i), None),
    decreases i - k,
{
    if k < i {
        lemma_quote_at(s, k);
        assert(survives_at(s, k));
        lemma_unquote_step(quote_spec(s), quote_spec(s.take(k)).len() as int, s.take(k), s[k]);
        assert(s.take(k).push(s[k]) =~= s.take(k + 1));
        lemma_unquote_quoted_prefix(s, k + 1, i);
    }
}

/// Whatever has been decoded and whatever quotation is open, decoding steps
/// over the escape of one character in one of four ways: it fails, or it
/// goes on behind the escape with the character put out, or with a quotation
/// opened, or with the quotation closed.
pub proof fn lemma_unquote_step_any(
    q: Seq<char>,
    p: int,
    out: Seq<char>,
    quote: Option<char>,
    c: char,
)
    requires
        0 <= p,
        p + escape_of(c).len() <= q.len(),
        forall|t: int| 0 <= t < escape_of(c).len() ==> #[trigger] q[p + t] == escape_of(c)[t],
    ensures
        ({
            let r = unquote_from(q, p, out, quote);
            let next = p + escape_of(c).len();
            ||| r is Err
            ||| r == unquote_from(q, next, out.push(c), quote)
            ||| r == unquote_from(q, next, out, Some(c))
            ||| r == unquote_from(q, next, out, None)
        }),
        c == '\0' ==> unquote_from(q, p, out, quote) is Err,
        c == '\'' && quote is None && opens_quote(out) ==> unquote_from(q, p, out, quote)
            == unquote_from(q, p + 1, out, Some(c)),
{
    let esc = escape_of(c);
    assert(q[p + 0] == esc[0]);
    if esc.len() == 1 {
    } else if esc.len() == 2 {
        assert(q[p + 1] == esc[1]);
    } else {
        assert(q[p + 1] == esc[1]);
        assert(q[p + 2] == esc[2]);
        assert(q[p + 3] == esc[3]);
        let n = c as u32 as int;
        lemma_hex_digits_of(n);
        reveal_with_fuel(digits_run, 3);
        reveal_with_fuel(digits_value, 3);
        assert(digits_run(q, p + 2, 2, 16) == 2);
        assert(digits_value(q, p + 2, 2, 16) == n);
        if c != '\0' {
            assert(code_point_at(q, p + 2, 2, 16) == Ok::<char, Seq<char>>(c));
        }
    }
}

/// From the place where `k` characters of `s` have been taken in, decoding
/// the literal of `s` puts out at most one character for each character
/// left.
pub proof fn lemma_unquote_quoted_length(
    s: Seq<char>,
    k: int,
    out: Seq<char>,
    quote: Option<char>,
)
    requires
        0 <= k <= s.len(),
    ensures
        unquote_from(quote_spec(s), quote_spec(s.take(k)).len() as int, out, quote) matches Ok(r)
            ==> r.len() <= out.len() + s.len() - k,
    decreases s.len() - k,
{
    if k == s.len() {
        assert(s.take(k) =~= s);
    } else {
        lemma_quote_at(s, k);
        lemma_unquote_step_any(quote_spec(s), quote_spec(s.take(k)).len() as int, out, quote, s[k]);
        lemma_unquote_quoted_length(s, k + 1, out.push(s[k]), quote);
        lemma_unquote_quoted_length(s, k + 1, out, Some(s[k]));
        lemma_unquote_quoted_length(s, k + 1, out, None);
    }
}

/// The least index at or after `k` whose character does not survive.
pub open spec fn first_lost(s: Seq<char>, k: int) -> int
    decreases s.len() - k,
{
    if k < 0 || k >= s.len() || !survives_at(s, k) {
        k
    } else {
        first_lost(s, k + 1)
    }
}

/// `first_lost` finds the first character that does not survive, if there
/// is one.
pub proof fn lemma_first_lost(s: Seq<char>, k: int)
    requires
        0 <= k <= s.len(),
    ensures
        k <= first_lost(s, k) <= s.len(),
        forall|j: int| k <= j < first_lost(s, k) ==> #[trigger] survives_at(s, j),
        first_lost(s, k) < s.len() ==> !survives_at(s, first_lost(s, k)),
    decreases s.len() - k,
{
    if k < s.len() && survives_at(s, k) {
        lemma_first_lost(s, k + 1);
    }
}

/// Decoding the literal that encoding gives for a logical string yields that
/// string again if, and only if, the string holds no NUL and no apostrophe
/// at the start or right after a space, a tab or a line feed.
pub proof fn lemma_quote_then_unquote(s: Seq<char>)
    ensures
        unquote_spec(quote_spec(s)) == Ok::<Seq<char>, Seq<char>>(s) <==> survives_quoting(s),
{
    let q = quote_spec(s);
    let i = first_lost(s, 0);
    lemma_first_lost(s, 0);
    lemma_unquote_quoted_prefix(s, 0, i);
    assert(s.take(0) =~= Seq::<char>::empty());
    if i == s.len() {
        assert(s.take(i) =~= s);
    } else {
        lemma_quote_at(s, i);
        let p = quote_spec(s.take(i)).len() as int;
        lemma_unquote_step_any(q, p, s.take(i), None, s[i]);
        if s[i] != '\0' {
            lemma_unquote_quoted_length(s, i + 1, s.take(i), Some(s[i]));
        }
    }
}

} // verus!
