//! Lexical scanning: a single left-to-right pass over the characters of a
//! JSON document that yields a flat sequence of tokens, discarding
//! whitespace and failing fast on malformed literals.
//!
//! The whole scan is specified by [`spec_tokenize`], a mathematical
//! tokenizer over a `Seq<char>`; [`Lexer::tokenize`] is proved to return
//! exactly the token sequence that `spec_tokenize` describes, and to fail
//! exactly where it fails.

use vstd::prelude::*;
use vstd::string::StrSliceExecFns;
use vstd::string::StringExecFns;

verus! {

/// Relies on `String::push`: appends the given character to the end of the
/// string.
pub assume_specification[ std::string::String::push ](s: &mut String, ch: char)
    ensures
        final(s)@ == old(s)@.push(ch),
;

/// Relies on `char::from_u32`: yields the character with the given Unicode
/// scalar value, and `None` exactly when the value is a surrogate code
/// point or lies beyond the Unicode range.
pub assume_specification[ char::from_u32 ](i: u32) -> (r: Option<char>)
    ensures
        r is Some <==> vstd::utf8::is_scalar(i),
        r is Some ==> r->0 as u32 == i,
;

/// One lexical unit of a JSON document.
///
/// A numeral is kept as the run of source characters it was scanned from,
/// already checked against the double-precision decimal grammar; recovering
/// its numeric value is left to the unverified embedding.
#[derive(Debug, Clone, PartialEq)]
pub enum Token {
    String(String),
    Number(String),
    Bool(bool),
    Null,
    WhiteSpace,
    LeftBrace,
    RightBrace,
    LeftBracket,
    RightBracket,
    Comma,
    Colon,
}

/// The mathematical form of a token: character sequences in place of owned
/// strings.
pub enum SpecToken {
    String(Seq<char>),
    Number(Seq<char>),
    Bool(bool),
    Null,
    WhiteSpace,
    LeftBrace,
    RightBrace,
    LeftBracket,
    RightBracket,
    Comma,
    Colon,
}

impl View for Token {
    type V = SpecToken;

    open spec fn view(&self) -> SpecToken {
        match self {
            Token::String(s) => SpecToken::String(s@),
            Token::Number(s) => SpecToken::Number(s@),
            Token::Bool(b) => SpecToken::Bool(*b),
            Token::Null => SpecToken::Null,
            Token::WhiteSpace => SpecToken::WhiteSpace,
            Token::LeftBrace => SpecToken::LeftBrace,
            Token::RightBrace => SpecToken::RightBrace,
            Token::LeftBracket => SpecToken::LeftBracket,
            Token::RightBracket => SpecToken::RightBracket,
            Token::Comma => SpecToken::Comma,
            Token::Colon => SpecToken::Colon,
        }
    }
}

/// The views of a token sequence, element by element.
pub open spec fn token_views(ts: Seq<Token>) -> Seq<SpecToken> {
    ts.map_values(|t: Token| t@)
}

// ---------------------------------------------------------------------------
// Character classes
// ---------------------------------------------------------------------------

/// The characters with the Unicode `White_Space` property: what the scanner
/// discards between tokens.
pub open spec fn is_json_whitespace(c: char) -> bool {
    ||| ('\u{0009}' <= c && c <= '\u{000D}')
    ||| c == ' '
    ||| c == '\u{0085}'
    ||| c == '\u{00A0}'
    ||| c == '\u{1680}'
    ||| ('\u{2000}' <= c && c <= '\u{200A}')
    ||| c == '\u{2028}'
    ||| c == '\u{2029}'
    ||| c == '\u{202F}'
    ||| c == '\u{205F}'
    ||| c == '\u{3000}'
}

/// Whether the character has the Unicode `White_Space` property.
pub fn is_whitespace_char(c: char) -> (r: bool)
    ensures
        r == is_json_whitespace(c),
{
    ('\u{0009}' <= c && c <= '\u{000D}') || c == ' ' || c == '\u{0085}' || c == '\u{00A0}'
        || c == '\u{1680}' || ('\u{2000}' <= c && c <= '\u{200A}') || c == '\u{2028}'
        || c == '\u{2029}' || c == '\u{202F}' || c == '\u{205F}' || c == '\u{3000}'
}

/// A decimal digit.
pub open spec fn is_digit(c: char) -> bool {
    '0' <= c && c <= '9'
}

/// Whether the character is a decimal digit.
pub fn is_digit_char(c: char) -> (r: bool)
    ensures
        r == is_digit(c),
{
    '0' <= c && c <= '9'
}

/// A character that may open a numeral: a digit, a sign, or a decimal
/// point.
pub open spec fn is_number_start(c: char) -> bool {
    is_digit(c) || c == '+' || c == '-' || c == '.'
}

/// A character the numeral scanner keeps consuming: a digit, a sign, a
/// decimal point, or an exponent marker.
pub open spec fn is_number_char(c: char) -> bool {
    is_digit(c) || c == '+' || c == '-' || c == '.' || c == 'e' || c == 'E'
}

/// Whether the numeral scanner keeps consuming at this character.
pub fn is_number_char_exec(c: char) -> (r: bool)
    ensures
        r == is_number_char(c),
{
    is_digit_char(c) || c == '+' || c == '-' || c == '.' || c == 'e' || c == 'E'
}

/// An escape character that is preserved verbatim after a backslash.
pub open spec fn is_passthrough_escape(c: char) -> bool {
    c == '"' || c == '\\' || c == '/' || c == 'b' || c == 'f' || c == 'n' || c == 'r' || c == 't'
}

/// Whether the character is one of the verbatim escape characters.
pub fn is_passthrough_escape_char(c: char) -> (r: bool)
    ensures
        r == is_passthrough_escape(c),
{
    c == '"' || c == '\\' || c == '/' || c == 'b' || c == 'f' || c == 'n' || c == 'r' || c == 't'
}

/// A hexadecimal digit.
pub open spec fn is_hex_digit(c: char) -> bool {
    is_digit(c) || ('a' <= c && c <= 'f') || ('A' <= c && c <= 'F')
}

/// Whether the character is a hexadecimal digit.
pub fn is_hex_digit_char(c: char) -> (r: bool)
    ensures
        r == is_hex_digit(c),
{
    is_digit_char(c) || ('a' <= c && c <= 'f') || ('A' <= c && c <= 'F')
}

/// The value of one hexadecimal digit.
pub open spec fn hex_digit_val(c: char) -> nat {
    if is_digit(c) {
        (c as u32 - '0' as u32) as nat
    } else if 'a' <= c && c <= 'f' {
        (c as u32 - 'a' as u32 + 10) as nat
    } else if 'A' <= c && c <= 'F' {
        (c as u32 - 'A' as u32 + 10) as nat
    } else {
        0
    }
}

/// The value of a big-endian sequence of hexadecimal digits.
pub open spec fn hex_seq_val(s: Seq<char>) -> nat
    decreases s.len(),
{
    if s.len() == 0 {
        0
    } else {
        hex_seq_val(s.drop_last()) * 16 + hex_digit_val(s.last())
    }
}

/// The hexadecimal digits of `s`, in order, with every other character
/// dropped.
pub open spec fn keep_hex_digits(s: Seq<char>) -> Seq<char>
    decreases s.len(),
{
    if s.len() == 0 {
        Seq::empty()
    } else if is_hex_digit(s.last()) {
        keep_hex_digits(s.drop_last()).push(s.last())
    } else {
        keep_hex_digits(s.drop_last())
    }
}

// ---------------------------------------------------------------------------
// The double-precision numeral grammar
// ---------------------------------------------------------------------------

/// Length of the longest all-digit prefix of `s`.
pub open spec fn digit_run(s: Seq<char>) -> nat
    decreases s.len(),
{
    if s.len() == 0 || !is_digit(s[0]) {
        0
    } else {
        (1 + digit_run(s.drop_first())) as nat
    }
}

/// Every character of `s` is a decimal digit.
pub open spec fn all_digits(s: Seq<char>) -> bool {
    forall|i: int| 0 <= i < s.len() ==> #[trigger] is_digit(s[i])
}

/// An optional exponent: nothing at all, or an exponent marker, an optional
/// sign, and at least one digit running to the end.
pub open spec fn is_exponent_or_empty(s: Seq<char>) -> bool {
    if s.len() == 0 {
        true
    } else {
        (s[0] == 'e' || s[0] == 'E') && {
            let t = if s.len() > 1 && (s[1] == '+' || s[1] == '-') {
                s.skip(2)
            } else {
                s.drop_first()
            };
            t.len() >= 1 && all_digits(t)
        }
    }
}

/// An unsigned double-precision numeral: digits with an optional fraction,
/// or a fraction alone, at least one digit in all, then an optional
/// exponent.
pub open spec fn is_unsigned_numeral(s: Seq<char>) -> bool {
    let d1 = digit_run(s);
    let rest1 = s.skip(d1 as int);
    if rest1.len() > 0 && rest1[0] == '.' {
        let d2 = digit_run(rest1.drop_first());
        d1 + d2 >= 1 && is_exponent_or_empty(rest1.drop_first().skip(d2 as int))
    } else {
        d1 >= 1 && is_exponent_or_empty(rest1)
    }
}

/// The grammar of numerals the standard double-precision parser accepts:
/// an optional sign, then an unsigned numeral. The named constants of that
/// parser are left out, since the numeral scanner only ever hands over
/// signs, digits, decimal points and exponent markers, none of which can
/// spell them.
pub open spec fn is_f64_numeral(s: Seq<char>) -> bool {
    if s.len() > 0 && (s[0] == '+' || s[0] == '-') {
        is_unsigned_numeral(s.drop_first())
    } else {
        is_unsigned_numeral(s)
    }
}

/// Length of the longest prefix of `s` made of numeral characters.
pub open spec fn number_run(s: Seq<char>) -> nat
    decreases s.len(),
{
    if s.len() == 0 || !is_number_char(s[0]) {
        0
    } else {
        (1 + number_run(s.drop_first())) as nat
    }
}

// ---------------------------------------------------------------------------
// UTF-16 decoding of pending escape units
// ---------------------------------------------------------------------------

/// A UTF-16 high-surrogate code unit.
pub open spec fn is_high_surrogate(u: u16) -> bool {
    0xD800 <= u && u <= 0xDBFF
}

/// A UTF-16 low-surrogate code unit.
pub open spec fn is_low_surrogate(u: u16) -> bool {
    0xDC00 <= u && u <= 0xDFFF
}

/// The scalar value a high/low surrogate pair stands for.
pub open spec fn combine_surrogates(hi: u16, lo: u16) -> u32 {
    (0x10000 + (hi - 0xD800) * 0x400 + (lo - 0xDC00)) as u32
}

/// UTF-16 decoding of a sequence of 16-bit code units: a high surrogate
/// must be followed by a low one, the pair standing for one character
/// beyond the basic plane; a lone surrogate of either kind fails; every
/// other unit stands for the character with its own value.
pub open spec fn utf16_decode(units: Seq<u16>) -> Option<Seq<char>>
    decreases units.len(),
{
    if units.len() == 0 {
        Some(Seq::empty())
    } else if is_high_surrogate(units[0]) {
        if units.len() >= 2 && is_low_surrogate(units[1]) {
            match utf16_decode(units.skip(2)) {
                Some(t) => Some(
                    seq![combine_surrogates(units[0], units[1]) as char] + t,
                ),
                None => None,
            }
        } else {
            None
        }
    } else if is_low_surrogate(units[0]) {
        None
    } else {
        match utf16_decode(units.drop_first()) {
            Some(t) => Some(seq![(units[0] as u32) as char] + t),
            None => None,
        }
    }
}

/// Flushing the pending escape units into the accumulated text: nothing to
/// do when no units are pending, otherwise the units must decode as UTF-16
/// and the decoded characters are appended.
pub open spec fn flush_pending(acc: Seq<char>, pending: Seq<u16>) -> Option<Seq<char>> {
    if pending.len() == 0 {
        Some(acc)
    } else {
        match utf16_decode(pending) {
            Some(t) => Some(acc + t),
            None => None,
        }
    }
}

// ---------------------------------------------------------------------------
// The scan, one token at a time
// ---------------------------------------------------------------------------

/// Outcome of scanning for one token: the input was exhausted with nothing
/// pending, a token was produced with the input that follows it, or the
/// scan failed.
pub enum ScanStep {
    End,
    Tok(SpecToken, Seq<char>),
    Fail,
}

/// Scanning the inside of a string literal, after its opening quote.
///
/// `acc` holds the characters decoded so far and `pending` the 16-bit units
/// of unicode escapes not yet decoded. A backslash followed by a verbatim
/// escape character keeps both characters; a unicode escape consumes up to
/// four characters, keeps the hexadecimal ones among them, and buffers
/// their value; any other escaped character is consumed silently. The
/// pending units are flushed before any plain character and at the closing
/// quote. An exhausted input inside a string yields no token at all.
pub open spec fn spec_scan_string(s: Seq<char>, acc: Seq<char>, pending: Seq<u16>) -> ScanStep
    decreases s.len(),
{
    if s.len() == 0 {
        ScanStep::End
    } else if s[0] == '\\' {
        if s.len() < 2 {
            ScanStep::Fail
        } else if is_passthrough_escape(s[1]) {
            match flush_pending(acc, pending) {
                Some(done) => spec_scan_string(
                    s.skip(2),
                    done.push('\\').push(s[1]),
                    Seq::empty(),
                ),
                None => ScanStep::Fail,
            }
        } else if s[1] == 'u' {
            let m = if s.len() - 2 < 4 {
                s.len() - 2
            } else {
                4
            };
            let hexs = keep_hex_digits(s.subrange(2, 2 + m));
            if hexs.len() == 0 {
                ScanStep::Fail
            } else {
                spec_scan_string(s.skip(2 + m), acc, pending.push(hex_seq_val(hexs) as u16))
            }
        } else {
            spec_scan_string(s.skip(2), acc, pending)
        }
    } else if s[0] == '"' {
        match flush_pending(acc, pending) {
            Some(done) => ScanStep::Tok(SpecToken::String(done), s.drop_first()),
            None => ScanStep::Fail,
        }
    } else {
        match flush_pending(acc, pending) {
            Some(done) => spec_scan_string(s.drop_first(), done.push(s[0]), Seq::empty()),
            None => ScanStep::Fail,
        }
    }
}

/// Scanning a fixed literal such as `null`: exactly as many characters as
/// the literal has are consumed (fewer only at the end of input) and must
/// match it character for character.
pub open spec fn spec_scan_literal(s: Seq<char>, lit: Seq<char>, t: SpecToken) -> ScanStep {
    let m = if s.len() < lit.len() {
        s.len()
    } else {
        lit.len()
    };
    if s.subrange(0, m as int) == lit {
        ScanStep::Tok(t, s.skip(lit.len() as int))
    } else {
        ScanStep::Fail
    }
}

/// Scanning a numeral: the maximal run of numeral characters is consumed,
/// and must satisfy the double-precision grammar.
pub open spec fn spec_scan_number(s: Seq<char>) -> ScanStep {
    let n = number_run(s);
    if is_f64_numeral(s.take(n as int)) {
        ScanStep::Tok(SpecToken::Number(s.take(n as int)), s.skip(n as int))
    } else {
        ScanStep::Fail
    }
}

/// One step of the scan: dispatch on the first character.
pub open spec fn spec_scan(s: Seq<char>) -> ScanStep {
    if s.len() == 0 {
        ScanStep::End
    } else {
        let c = s[0];
        if is_json_whitespace(c) || c == '\n' {
            ScanStep::Tok(SpecToken::WhiteSpace, s.drop_first())
        } else if c == '{' {
            ScanStep::Tok(SpecToken::LeftBrace, s.drop_first())
        } else if c == '}' {
            ScanStep::Tok(SpecToken::RightBrace, s.drop_first())
        } else if c == '[' {
            ScanStep::Tok(SpecToken::LeftBracket, s.drop_first())
        } else if c == ']' {
            ScanStep::Tok(SpecToken::RightBracket, s.drop_first())
        } else if c == ',' {
            ScanStep::Tok(SpecToken::Comma, s.drop_first())
        } else if c == ':' {
            ScanStep::Tok(SpecToken::Colon, s.drop_first())
        } else if c == '"' {
            spec_scan_string(s.drop_first(), Seq::empty(), Seq::empty())
        } else if is_number_start(c) {
            spec_scan_number(s)
        } else if c == 't' {
            spec_scan_literal(s, seq!['t', 'r', 'u', 'e'], SpecToken::Bool(true))
        } else if c == 'f' {
            spec_scan_literal(s, seq!['f', 'a', 'l', 's', 'e'], SpecToken::Bool(false))
        } else if c == 'n' {
            spec_scan_literal(s, seq!['n', 'u', 'l', 'l'], SpecToken::Null)
        } else {
            ScanStep::Fail
        }
    }
}

/// A produced token always leaves a strictly shorter input behind.
pub proof fn lemma_scan_string_shrinks(s: Seq<char>, acc: Seq<char>, pending: Seq<u16>)
    ensures
        spec_scan_string(s, acc, pending) matches ScanStep::Tok(_, rest) ==> rest.len() < s.len(),
    decreases s.len(),
{
    if s.len() == 0 {
    } else if s[0] == '\\' {
        if s.len() < 2 {
        } else if is_passthrough_escape(s[1]) {
            match flush_pending(acc, pending) {
                Some(done) => {
                    lemma_scan_string_shrinks(s.skip(2), done.push('\\').push(s[1]), Seq::empty());
                },
                None => {},
            }
        } else if s[1] == 'u' {
            let m = if s.len() - 2 < 4 {
                s.len() - 2
            } else {
                4
            };
            let hexs = keep_hex_digits(s.subrange(2, 2 + m));
            if hexs.len() == 0 {
            } else {
                lemma_scan_string_shrinks(s.skip(2 + m), acc, pending.push(hex_seq_val(hexs) as u16));
            }
        } else {
            lemma_scan_string_shrinks(s.skip(2), acc, pending);
        }
    } else if s[0] == '"' {
    } else {
        match flush_pending(acc, pending) {
            Some(done) => {
                lemma_scan_string_shrinks(s.drop_first(), done.push(s[0]), Seq::empty());
            },
            None => {},
        }
    }
}

/// The numeral run never overruns the input, and is nonempty exactly when
/// the input opens with a numeral character.
pub proof fn lemma_number_run_bounds(s: Seq<char>)
    ensures
        number_run(s) <= s.len(),
        s.len() > 0 && is_number_char(s[0]) ==> number_run(s) >= 1,
    decreases s.len(),
{
    if s.len() == 0 || !is_number_char(s[0]) {
    } else {
        lemma_number_run_bounds(s.drop_first());
    }
}

/// A matched fixed literal leaves a strictly shorter input behind.
proof fn lemma_scan_literal_shrinks(s: Seq<char>, lit: Seq<char>, t: SpecToken)
    requires
        lit.len() >= 1,
    ensures
        spec_scan_literal(s, lit, t) matches ScanStep::Tok(_, rest) ==> rest.len() < s.len(),
{
    let m = if s.len() < lit.len() {
        s.len()
    } else {
        lit.len()
    };
    if s.subrange(0, m as int) == lit {
        assert(s.subrange(0, m as int).len() == m);
    }
}

/// One scan step always leaves a strictly shorter input behind.
pub proof fn lemma_scan_shrinks(s: Seq<char>)
    ensures
        spec_scan(s) matches ScanStep::Tok(_, rest) ==> rest.len() < s.len(),
{
    if s.len() == 0 {
    } else {
        let c = s[0];
        if c == '"' {
            lemma_scan_string_shrinks(s.drop_first(), Seq::empty(), Seq::empty());
        } else if is_number_start(c) && !(is_json_whitespace(c) || c == '\n') {
            lemma_number_run_bounds(s);
        } else if c == 't' {
            lemma_scan_literal_shrinks(s, seq!['t', 'r', 'u', 'e'], SpecToken::Bool(true));
        } else if c == 'f' {
            lemma_scan_literal_shrinks(s, seq!['f', 'a', 'l', 's', 'e'], SpecToken::Bool(false));
        } else if c == 'n' {
            lemma_scan_literal_shrinks(s, seq!['n', 'u', 'l', 'l'], SpecToken::Null);
        }
    }
}

/// The whole scan: repeated steps until the input is exhausted, whitespace
/// discarded, any failure fatal.
pub open spec fn spec_tokenize(s: Seq<char>) -> Option<Seq<SpecToken>>
    decreases s.len(),
{
    match spec_scan(s) {
        ScanStep::End => Some(Seq::empty()),
        ScanStep::Tok(t, rest) => if rest.len() < s.len() {
            match spec_tokenize(rest) {
                Some(ts) => if t is WhiteSpace {
                    Some(ts)
                } else {
                    Some(seq![t] + ts)
                },
                None => None,
            }
        } else {
            None
        },
        ScanStep::Fail => None,
    }
}

/// Whitespace in front of the input is invisible to the scan: any run of
/// whitespace characters (or explicit newlines) prepended to a text leaves
/// its token sequence — and its failure, if it fails — unchanged. Since
/// the scan restarts after every token, the same holds of whitespace
/// inserted at any token boundary, while characters inside string literals
/// are never subject to the whitespace rule.
pub proof fn lemma_whitespace_prefix(ws: Seq<char>, s: Seq<char>)
    requires
        forall|i: int|
            0 <= i < ws.len() ==> is_json_whitespace(#[trigger] ws[i]) || ws[i] == '\n',
    ensures
        spec_tokenize(ws + s) == spec_tokenize(s),
    decreases ws.len(),
{
    if ws.len() == 0 {
        assert(ws + s =~= s);
    } else {
        let t = ws + s;
        assert(t[0] == ws[0]);
        assert(t.drop_first() =~= ws.drop_first() + s);
        assert forall|i: int|
            0 <= i < ws.drop_first().len() implies is_json_whitespace(
            #[trigger] ws.drop_first()[i],
        ) || ws.drop_first()[i] == '\n' by {
            assert(ws.drop_first()[i] == ws[i + 1]);
        }
        lemma_whitespace_prefix(ws.drop_first(), s);
    }
}

// ---------------------------------------------------------------------------
// Bridging lemmas between the recursive runs and scanned ranges
// ---------------------------------------------------------------------------

/// A digit run is the length of the maximal all-digit prefix.
proof fn lemma_digit_run_value(s: Seq<char>, k: int)
    requires
        0 <= k <= s.len(),
        forall|i: int| 0 <= i < k ==> #[trigger] is_digit(s[i]),
        k == s.len() || !is_digit(s[k]),
    ensures
        digit_run(s) == k,
    decreases k,
{
    if k == 0 {
    } else {
        assert(is_digit(s[0]));
        assert forall|i: int| 0 <= i < k - 1 implies #[trigger] is_digit(s.drop_first()[i]) by {
            assert(s.drop_first()[i] == s[i + 1]);
        }
        if k < s.len() {
            assert(s.drop_first()[k - 1] == s[k]);
        }
        lemma_digit_run_value(s.drop_first(), k - 1);
    }
}

/// A numeral run is the length of the maximal prefix of numeral characters.
proof fn lemma_number_run_value(s: Seq<char>, k: int)
    requires
        0 <= k <= s.len(),
        forall|i: int| 0 <= i < k ==> #[trigger] is_number_char(s[i]),
        k == s.len() || !is_number_char(s[k]),
    ensures
        number_run(s) == k,
    decreases k,
{
    if k == 0 {
    } else {
        assert(is_number_char(s[0]));
        assert forall|i: int| 0 <= i < k - 1 implies #[trigger] is_number_char(s.drop_first()[i]) by {
            assert(s.drop_first()[i] == s[i + 1]);
        }
        if k < s.len() {
            assert(s.drop_first()[k - 1] == s[k]);
        }
        lemma_number_run_value(s.drop_first(), k - 1);
    }
}

/// The digit run of a suffix, read off from a scanned range of the whole.
proof fn lemma_digit_run_of_skip(v: Seq<char>, start: int, end: int)
    requires
        0 <= start <= end <= v.len(),
        forall|i: int| start <= i < end ==> #[trigger] is_digit(v[i]),
        end == v.len() || !is_digit(v[end]),
    ensures
        digit_run(v.skip(start)) == end - start,
{
    let s = v.skip(start);
    assert forall|i: int| 0 <= i < end - start implies #[trigger] is_digit(s[i]) by {
        assert(s[i] == v[start + i]);
    }
    if end < v.len() {
        assert(s[end - start] == v[end]);
    }
    lemma_digit_run_value(s, end - start);
}

// ---------------------------------------------------------------------------
// Errors and the scanner state
// ---------------------------------------------------------------------------

/// Error raised when scanning fails: an illegal character, a malformed
/// fixed literal, an invalid numeral, or an invalid surrogate sequence.
#[derive(Debug)]
pub struct LexerError {
    pub msg: String,
}

impl LexerError {
    /// An error with the given description.
    pub fn new(msg: &str) -> (e: LexerError)
        ensures
            e.msg@ == msg@,
    {
        LexerError { msg: String::from_str(msg) }
    }
}

/// The scanner: the characters of the input and a cursor over them.
pub struct Lexer {
    chars: Vec<char>,
    pos: usize,
}

impl Lexer {
    /// The cursor never runs past the input.
    pub closed spec fn wf(self) -> bool {
        self.pos <= self.chars@.len()
    }

    /// The input not yet consumed.
    pub closed spec fn remaining(self) -> Seq<char> {
        self.chars@.skip(self.pos as int)
    }

    /// A scanner over the whole of `input`.
    pub fn new(input: &str) -> (lx: Lexer)
        ensures
            lx.wf(),
            lx.remaining() == input@,
    {
        let n = input.unicode_len();
        let mut chars: Vec<char> = Vec::new();
        let mut i: usize = 0;
        while i < n
            invariant
                n == input@.len(),
                i <= n,
                chars@ == input@.take(i as int),
            decreases n - i,
        {
            let c = input.get_char(i);
            chars.push(c);
            proof {
                assert(input@.take((i + 1) as int) =~= input@.take(i as int).push(input@[i as int]));
            }
            i = i + 1;
        }
        let lx = Lexer { chars, pos: 0 };
        proof {
            assert(input@.take(n as int) =~= input@);
            assert(lx.remaining() =~= lx.chars@);
        }
        lx
    }

    /// Consumes up to `k` characters, fewer only at the end of input.
    fn take_chars(&mut self, k: usize) -> (taken: Vec<char>)
        requires
            old(self).wf(),
        ensures
            final(self).wf(),
            taken@.len() == (if k as int <= old(self).remaining().len() {
                k as int
            } else {
                old(self).remaining().len() as int
            }),
            taken@ == old(self).remaining().take(taken@.len() as int),
            final(self).remaining() == old(self).remaining().skip(taken@.len() as int),
    {
        let ghost orig = *self;
        let mut taken: Vec<char> = Vec::new();
        let mut j: usize = 0;
        while j < k && self.pos < self.chars.len()
            invariant
                j <= k,
                self.wf(),
                self.chars@ == orig.chars@,
                self.pos == orig.pos + j,
                taken@ == orig.remaining().take(j as int),
                j < k ==> j as int <= orig.remaining().len(),
            decreases k - j,
        {
            let c = self.chars[self.pos];
            proof {
                assert(orig.remaining()[j as int] == orig.chars@[(orig.pos + j) as int]);
                assert(orig.remaining().take((j + 1) as int) =~= orig.remaining().take(
                    j as int,
                ).push(orig.remaining()[j as int]));
            }
            taken.push(c);
            self.pos = self.pos + 1;
            j = j + 1;
        }
        proof {
            assert(taken@ =~= orig.remaining().take(taken@.len() as int));
            assert(self.remaining() =~= orig.remaining().skip(taken@.len() as int));
        }
        taken
    }

    /// Builds the message of a malformed-literal error around the consumed
    /// text.
    fn literal_error_msg(prefix: &str, taken: &Vec<char>) -> String {
        let mut m = String::from_str(prefix);
        let mut i: usize = 0;
        while i < taken.len()
            decreases taken.len() - i,
        {
            m.push(taken[i]);
            i = i + 1;
        }
        m.push('"');
        m
    }

    /// Scans the fixed literal `null`.
    fn parse_null_token(&mut self) -> (r: Result<Option<Token>, LexerError>)
        requires
            old(self).wf(),
        ensures
            final(self).wf(),
            match spec_scan_literal(old(self).remaining(), seq!['n', 'u', 'l', 'l'], SpecToken::Null) {
                ScanStep::Tok(t, rest) => match r {
                    Ok(Some(tok)) => tok@ == t && final(self).remaining() == rest,
                    _ => false,
                },
                _ => r is Err,
            },
    {
        let ghost s = old(self).remaining();
        let ghost lit = seq!['n', 'u', 'l', 'l'];
        let taken = self.take_chars(4);
        proof {
            let m = if s.len() < 4 { s.len() as int } else { 4int };
            assert(s.subrange(0, m) =~= s.take(m));
        }
        if taken.len() == 4 && taken[0] == 'n' && taken[1] == 'u' && taken[2]
            == 'l' && taken[3] == 'l' {
            proof {
                assert(taken@ =~= lit);
            }
            Ok(Some(Token::Null))
        } else {
            proof {
                if taken@.len() != lit.len() {
                } else {
                    assert(taken@ != lit);
                }
            }
            Err(LexerError { msg: Self::literal_error_msg("error: a null value is expected \"", &taken) })
        }
    }

    /// Scans the fixed literal `true` or `false`, whichever `b` names.
    fn parse_bool_token(&mut self, b: bool) -> (r: Result<Option<Token>, LexerError>)
        requires
            old(self).wf(),
        ensures
            final(self).wf(),
            match (if b {
                spec_scan_literal(old(self).remaining(), seq!['t', 'r', 'u', 'e'], SpecToken::Bool(true))
            } else {
                spec_scan_literal(
                    old(self).remaining(),
                    seq!['f', 'a', 'l', 's', 'e'],
                    SpecToken::Bool(false),
                )
            }) {
                ScanStep::Tok(t, rest) => match r {
                    Ok(Some(tok)) => tok@ == t && final(self).remaining() == rest,
                    _ => false,
                },
                _ => r is Err,
            },
    {
        let ghost s = old(self).remaining();
        if b {
            let ghost lit = seq!['t', 'r', 'u', 'e'];
            let taken = self.take_chars(4);
            proof {
                let m = if s.len() < 4 { s.len() as int } else { 4int };
                assert(s.subrange(0, m) =~= s.take(m));
            }
            if taken.len() == 4 && taken[0] == 't' && taken[1] == 'r' && taken[2] == 'u' && taken[3] == 'e' {
                proof {
                    assert(taken@ =~= lit);
                }
                Ok(Some(Token::Bool(true)))
            } else {
                proof {
                    if taken@.len() != lit.len() {
                    } else {
                        assert(taken@ != lit);
                    }
                }
                Err(
                    LexerError {
                        msg: Self::literal_error_msg("error: a boolean true is expected \"", &taken),
                    },
                )
            }
        } else {
            let ghost lit = seq!['f', 'a', 'l', 's', 'e'];
            let taken = self.take_chars(5);
            proof {
                let m = if s.len() < 5 { s.len() as int } else { 5int };
                assert(s.subrange(0, m) =~= s.take(m));
            }
            if taken.len() == 5 && taken[0] == 'f' && taken[1] == 'a' && taken[2] == 'l' && taken[3] == 's' && taken[4] == 'e' {
                proof {
                    assert(taken@ =~= lit);
                }
                Ok(Some(Token::Bool(false)))
            } else {
                proof {
                    if taken@.len() != lit.len() {
                    } else {
                        assert(taken@ != lit);
                    }
                }
                Err(
                    LexerError {
                        msg: Self::literal_error_msg("error: a boolean false is expected \"", &taken),
                    },
                )
            }
        }
    }
    /// Flushes the pending unicode-escape units into the decoded text:
    /// the units are decoded as UTF-16 and appended, and the buffer is
    /// cleared; an invalid surrogate sequence is an error. With nothing
    /// pending there is nothing to do.
    pub fn push_utf16(str_buf: &mut String, utf16: &mut Vec<u16>) -> (r: Result<(), LexerError>)
        ensures
            match flush_pending(old(str_buf)@, old(utf16)@) {
                Some(done) => r is Ok && final(str_buf)@ == done && final(utf16)@
                    == Seq::<u16>::empty(),
                None => r is Err && final(str_buf)@ == old(str_buf)@ && final(utf16)@ == old(
                    utf16,
                )@,
            },
    {
        if utf16.len() == 0 {
            return Ok(());
        }
        match utf16_to_chars(utf16) {
            Some(decoded) => {
                proof {
                    assert(old(str_buf)@ + decoded@.take(0) =~= old(str_buf)@);
                }
                let mut k: usize = 0;
                while k < decoded.len()
                    invariant
                        k <= decoded@.len(),
                        str_buf@ == old(str_buf)@ + decoded@.take(k as int),
                    decreases decoded@.len() - k,
                {
                    proof {
                        assert((old(str_buf)@ + decoded@.take(k as int)).push(decoded@[k as int])
                            =~= old(str_buf)@ + decoded@.take((k + 1) as int));
                    }
                    str_buf.push(decoded[k]);
                    k = k + 1;
                }
                utf16.clear();
                proof {
                    assert(decoded@.take(decoded@.len() as int) =~= decoded@);
                }
                Ok(())
            },
            None => Err(LexerError::new("error: an invalid surrogate sequence")),
        }
    }

    /// Scans a numeral: consumes the maximal run of numeral characters and
    /// holds it to the double-precision grammar.
    #[verifier::loop_isolation(false)]
    fn parse_number_token(&mut self) -> (r: Result<Option<Token>, LexerError>)
        requires
            old(self).wf(),
        ensures
            final(self).wf(),
            match spec_scan_number(old(self).remaining()) {
                ScanStep::Tok(t, rest) => match r {
                    Ok(Some(tok)) => tok@ == t && final(self).remaining() == rest,
                    _ => false,
                },
                _ => r is Err,
            },
    {
        let ghost orig = *old(self);
        let mut buf: Vec<char> = Vec::new();
        while self.pos < self.chars.len() && is_number_char_exec(self.chars[self.pos])
            invariant
                self.wf(),
                self.chars@ == orig.chars@,
                orig.pos <= self.pos,
                buf@ == orig.chars@.subrange(orig.pos as int, self.pos as int),
                forall|i: int|
                    orig.pos <= i < self.pos ==> #[trigger] is_number_char(orig.chars@[i]),
            decreases self.chars@.len() - self.pos,
        {
            let c = self.chars[self.pos];
            proof {
                assert(orig.chars@.subrange(orig.pos as int, (self.pos + 1) as int)
                    =~= orig.chars@.subrange(orig.pos as int, self.pos as int).push(
                    orig.chars@[self.pos as int],
                ));
            }
            buf.push(c);
            self.pos = self.pos + 1;
        }
        proof {
            let s = orig.remaining();
            let k = self.pos - orig.pos;
            assert forall|i: int| 0 <= i < k implies #[trigger] is_number_char(s[i]) by {
                assert(s[i] == orig.chars@[orig.pos + i]);
            }
            if (self.pos as int) < orig.chars@.len() {
                assert(s[k] == orig.chars@[self.pos as int]);
            }
            lemma_number_run_value(s, k);
            assert(buf@ =~= s.take(k));
            assert(self.remaining() =~= s.skip(k));
        }
        if check_numeral(&buf) {
            let text = chars_to_string(&buf);
            Ok(Some(Token::Number(text)))
        } else {
            Err(LexerError::new("error: invalid float literal"))
        }
    }

    /// Scans the inside of a string literal, the opening quote already
    /// consumed. Follows [`spec_scan_string`] step by step: decoded text in
    /// `str_buf`, pending unicode-escape units in `utf16_buf`.
    #[verifier::loop_isolation(false)]
    fn parse_string_token(&mut self) -> (r: Result<Option<Token>, LexerError>)
        requires
            old(self).wf(),
        ensures
            final(self).wf(),
            match spec_scan_string(old(self).remaining(), Seq::empty(), Seq::empty()) {
                ScanStep::End => match r {
                    Ok(opt) => opt is None && final(self).remaining().len() == 0,
                    _ => false,
                },
                ScanStep::Tok(t, rest) => match r {
                    Ok(Some(tok)) => tok@ == t && final(self).remaining() == rest,
                    _ => false,
                },
                ScanStep::Fail => r is Err,
            },
    {
        let mut str_buf = String::new();
        let mut utf16_buf: Vec<u16> = Vec::new();
        loop
            invariant
                self.wf(),
                self.chars@ == old(self).chars@,
                spec_scan_string(old(self).remaining(), Seq::empty(), Seq::empty())
                    == spec_scan_string(self.remaining(), str_buf@, utf16_buf@),
            decreases self.remaining().len(),
        {
            let ghost s_cur = self.remaining();
            let ghost acc0 = str_buf@;
            let ghost pend0 = utf16_buf@;
            if self.pos >= self.chars.len() {
                return Ok(None);
            }
            proof {
                assert(s_cur[0] == self.chars@[self.pos as int]);
            }
            let c1 = self.chars[self.pos];
            self.pos = self.pos + 1;
            proof {
                assert(s_cur.drop_first() =~= self.remaining());
            }
            if c1 == '\\' {
                if self.pos >= self.chars.len() {
                    return Err(LexerError::new("error: a next char is expected"));
                }
                proof {
                    assert(s_cur[1] == self.chars@[self.pos as int]);
                }
                let c2 = self.chars[self.pos];
                self.pos = self.pos + 1;
                proof {
                    assert(s_cur.skip(2) =~= self.remaining());
                }
                if is_passthrough_escape_char(c2) {
                    match Self::push_utf16(&mut str_buf, &mut utf16_buf) {
                        Ok(_) => {},
                        Err(e) => {
                            return Err(e);
                        },
                    }
                    str_buf.push('\\');
                    str_buf.push(c2);
                } else if c2 == 'u' {
                    let ghost pos2 = self.pos;
                    let mut hexs: Vec<char> = Vec::new();
                    let mut cnt: usize = 0;
                    while cnt < 4 && self.pos < self.chars.len()
                        invariant
                            cnt <= 4,
                            self.wf(),
                            self.chars@ == old(self).chars@,
                            2 <= pos2 <= self.chars@.len(),
                            s_cur == self.chars@.skip((pos2 - 2) as int),
                            self.pos == pos2 + cnt,
                            hexs@ == keep_hex_digits(s_cur.subrange(2, 2 + cnt as int)),
                            hexs@.len() <= cnt,
                            forall|i: int|
                                0 <= i < hexs@.len() ==> #[trigger] is_hex_digit(hexs@[i]),
                        decreases 4 - cnt,
                    {
                        proof {
                            assert(s_cur[2 + cnt as int] == self.chars@[self.pos as int]);
                            assert(s_cur.subrange(2, 2 + (cnt + 1) as int).drop_last()
                                =~= s_cur.subrange(2, 2 + cnt as int));
                            assert(s_cur.subrange(2, 2 + (cnt + 1) as int).last() == s_cur[2
                                + cnt as int]);
                        }
                        let c = self.chars[self.pos];
                        self.pos = self.pos + 1;
                        if is_hex_digit_char(c) {
                            hexs.push(c);
                        }
                        cnt = cnt + 1;
                    }
                    proof {
                        let m = if s_cur.len() - 2 < 4 {
                            s_cur.len() - 2
                        } else {
                            4
                        };
                        assert(cnt == m);
                        assert(self.remaining() =~= s_cur.skip(2 + cnt as int));
                    }
                    if hexs.len() == 0 {
                        return Err(LexerError::new("error: a unicode character is expected"));
                    }
                    let val = hex_value(&hexs);
                    utf16_buf.push(val);
                } else {
                    // an unknown escape is consumed without a trace
                }
            } else if c1 == '"' {
                match Self::push_utf16(&mut str_buf, &mut utf16_buf) {
                    Ok(_) => {
                        return Ok(Some(Token::String(str_buf)));
                    },
                    Err(e) => {
                        return Err(e);
                    },
                }
            } else {
                match Self::push_utf16(&mut str_buf, &mut utf16_buf) {
                    Ok(_) => {},
                    Err(e) => {
                        return Err(e);
                    },
                }
                str_buf.push(c1);
            }
        }
    }

    /// Consumes one character and hands back the given token.
    fn next_return_token(&mut self, token: Token) -> (r: Option<Token>)
        requires
            old(self).wf(),
            old(self).remaining().len() > 0,
        ensures
            final(self).wf(),
            final(self).remaining() == old(self).remaining().drop_first(),
            r == Some(token),
    {
        let n = self.chars.len();
        proof {
            assert(self.remaining().len() == n - self.pos);
        }
        self.pos = self.pos + 1;
        proof {
            assert(self.remaining() =~= old(self).remaining().drop_first());
        }
        Some(token)
    }

    /// Scans one token, dispatching on the next character; `None` on a
    /// cleanly exhausted input.
    fn next_token(&mut self) -> (r: Result<Option<Token>, LexerError>)
        requires
            old(self).wf(),
        ensures
            final(self).wf(),
            match spec_scan(old(self).remaining()) {
                ScanStep::End => match r {
                    Ok(opt) => opt is None && final(self).remaining().len() == 0,
                    _ => false,
                },
                ScanStep::Tok(t, rest) => match r {
                    Ok(Some(tok)) => tok@ == t && final(self).remaining() == rest,
                    _ => false,
                },
                ScanStep::Fail => r is Err,
            },
    {
        let ghost s = old(self).remaining();
        if self.pos >= self.chars.len() {
            return Ok(None);
        }
        proof {
            assert(s[0] == self.chars@[self.pos as int]);
        }
        let c = self.chars[self.pos];
        if is_whitespace_char(c) || c == '\n' {
            Ok(self.next_return_token(Token::WhiteSpace))
        } else if c == '{' {
            Ok(self.next_return_token(Token::LeftBrace))
        } else if c == '}' {
            Ok(self.next_return_token(Token::RightBrace))
        } else if c == '[' {
            Ok(self.next_return_token(Token::LeftBracket))
        } else if c == ']' {
            Ok(self.next_return_token(Token::RightBracket))
        } else if c == ',' {
            Ok(self.next_return_token(Token::Comma))
        } else if c == ':' {
            Ok(self.next_return_token(Token::Colon))
        } else if c == '"' {
            self.pos = self.pos + 1;
            proof {
                assert(self.remaining() =~= s.drop_first());
            }
            self.parse_string_token()
        } else if is_digit_char(c) || c == '+' || c == '-' || c == '.' {
            self.parse_number_token()
        } else if c == 't' {
            self.parse_bool_token(true)
        } else if c == 'f' {
            self.parse_bool_token(false)
        } else if c == 'n' {
            self.parse_null_token()
        } else {
            let mut m = String::from_str("error: an unexpected char \"");
            m.push(c);
            m.push('"');
            Err(LexerError { msg: m })
        }
    }

    /// Scans the whole input: the token sequence with whitespace already
    /// discarded, or the first error. Exactly the result of
    /// [`spec_tokenize`] on the unconsumed input.
    #[verifier::loop_isolation(false)]
    pub fn tokenize(&mut self) -> (r: Result<Vec<Token>, LexerError>)
        requires
            old(self).wf(),
        ensures
            final(self).wf(),
            match r {
                Ok(tokens) => spec_tokenize(old(self).remaining()) == Some(token_views(tokens@)),
                Err(_) => spec_tokenize(old(self).remaining()) is None,
            },
    {
        let mut tokens: Vec<Token> = Vec::new();
        proof {
            assert(token_views(Seq::<Token>::empty()) =~= Seq::<SpecToken>::empty());
        }
        loop
            invariant
                self.wf(),
                spec_tokenize(old(self).remaining()) == (match spec_tokenize(self.remaining()) {
                    Some(ts) => Some(token_views(tokens@) + ts),
                    None => None::<Seq<SpecToken>>,
                }),
            decreases self.remaining().len(),
        {
            let ghost cur = self.remaining();
            proof {
                lemma_scan_shrinks(cur);
            }
            match self.next_token() {
                Err(e) => {
                    return Err(e);
                },
                Ok(None) => {
                    proof {
                        assert(token_views(tokens@) + Seq::<SpecToken>::empty() =~= token_views(
                            tokens@,
                        ));
                    }
                    return Ok(tokens);
                },
                Ok(Some(tok)) => {
                    match tok {
                        Token::WhiteSpace => {},
                        _ => {
                            let ghost t = tok@;
                            proof {
                                assert(token_views(tokens@.push(tok)) =~= token_views(
                                    tokens@,
                                ).push(t));
                                match spec_tokenize(self.remaining()) {
                                    Some(ts2) => {
                                        assert(token_views(tokens@) + (seq![t] + ts2)
                                            =~= token_views(tokens@).push(t) + ts2);
                                    },
                                    None => {},
                                }
                            }
                            tokens.push(tok);
                        },
                    }
                },
            }
        }
    }
}

// ---------------------------------------------------------------------------
// Numeral scanning
// ---------------------------------------------------------------------------

/// The owned form of a character sequence.
fn chars_to_string(v: &Vec<char>) -> (s: String)
    ensures
        s@ == v@,
{
    let mut s = String::new();
    let mut i: usize = 0;
    while i < v.len()
        invariant
            i <= v@.len(),
            s@ == v@.take(i as int),
        decreases v@.len() - i,
    {
        proof {
            assert(v@.take((i + 1) as int) =~= v@.take(i as int).push(v@[i as int]));
        }
        s.push(v[i]);
        i = i + 1;
    }
    proof {
        assert(v@.take(v@.len() as int) =~= v@);
    }
    s
}

/// Scans forward from `start` over decimal digits; stops at the first
/// character that is none, or at the end.
fn scan_digit_end(v: &Vec<char>, start: usize) -> (end: usize)
    requires
        start <= v@.len(),
    ensures
        start <= end <= v@.len(),
        forall|i: int| start <= i < end ==> #[trigger] is_digit(v@[i]),
        end < v@.len() ==> !is_digit(v@[end as int]),
{
    let mut end = start;
    while end < v.len() && is_digit_char(v[end])
        invariant
            start <= end <= v@.len(),
            forall|i: int| start <= i < end ==> #[trigger] is_digit(v@[i]),
        decreases v@.len() - end,
    {
        end = end + 1;
    }
    end
}

/// Decides the double-precision numeral grammar on the scanned text.
fn check_numeral(v: &Vec<char>) -> (r: bool)
    ensures
        r == is_f64_numeral(v@),
{
    let n = v.len();
    let mut i: usize = 0;
    if n > 0 && (v[0] == '+' || v[0] == '-') {
        i = 1;
    }
    proof {
        assert(v@.skip(0) =~= v@);
        if v@.len() > 0 {
            assert(v@.drop_first() =~= v@.skip(1));
        }
    }
    let ghost body = v@.skip(i as int);
    let d1_end = scan_digit_end(v, i);
    proof {
        lemma_digit_run_of_skip(v@, i as int, d1_end as int);
        assert(digit_run(body) == d1_end - i);
        assert(body.skip((d1_end - i) as int) =~= v@.skip(d1_end as int));
    }
    let ghost rest1 = v@.skip(d1_end as int);
    if d1_end < n && v[d1_end] == '.' {
        proof {
            assert(rest1[0] == v@[d1_end as int]);
            assert(rest1.drop_first() =~= v@.skip((d1_end + 1) as int));
        }
        let d2_end = scan_digit_end(v, d1_end + 1);
        proof {
            lemma_digit_run_of_skip(v@, (d1_end + 1) as int, d2_end as int);
            assert(v@.skip((d1_end + 1) as int).skip((d2_end - d1_end - 1) as int) =~= v@.skip(
                d2_end as int,
            ));
        }
        let total = (d1_end - i) + (d2_end - d1_end - 1);
        if total >= 1 {
            check_exponent(v, d2_end)
        } else {
            false
        }
    } else {
        proof {
            if d1_end < n {
                assert(rest1[0] == v@[d1_end as int]);
            }
        }
        if d1_end - i >= 1 {
            check_exponent(v, d1_end)
        } else {
            false
        }
    }
}

/// Sixteen to the power `n`.
spec fn pow16(n: nat) -> nat
    decreases n,
{
    if n == 0 {
        1
    } else {
        16 * pow16((n - 1) as nat)
    }
}

/// The value of one hexadecimal digit.
fn hex_digit_value(c: char) -> (d: u32)
    requires
        is_hex_digit(c),
    ensures
        d as nat == hex_digit_val(c),
        d <= 15,
{
    if is_digit_char(c) {
        (c as u32) - ('0' as u32)
    } else if 'a' <= c && c <= 'f' {
        (c as u32) - ('a' as u32) + 10
    } else {
        (c as u32) - ('A' as u32) + 10
    }
}

/// The 16-bit value of at most four hexadecimal digits, big-endian.
fn hex_value(hexs: &Vec<char>) -> (val: u16)
    requires
        1 <= hexs@.len() <= 4,
        forall|i: int| 0 <= i < hexs@.len() ==> #[trigger] is_hex_digit(hexs@[i]),
    ensures
        val as nat == hex_seq_val(hexs@),
{
    let mut val: u32 = 0;
    let mut idx: usize = 0;
    while idx < hexs.len()
        invariant
            idx <= hexs@.len() <= 4,
            forall|i: int| 0 <= i < hexs@.len() ==> #[trigger] is_hex_digit(hexs@[i]),
            val as nat == hex_seq_val(hexs@.take(idx as int)),
            (val as nat) < pow16(idx as nat),
        decreases hexs@.len() - idx,
    {
        let d = hex_digit_value(hexs[idx]);
        proof {
            assert(hexs@.take((idx + 1) as int).drop_last() =~= hexs@.take(idx as int));
            assert(hexs@.take((idx + 1) as int).last() == hexs@[idx as int]);
            assert(pow16((idx + 1) as nat) == 16 * pow16(idx as nat));
            assert(pow16(idx as nat) <= pow16(4)) by {
                reveal_with_fuel(pow16, 5);
                if idx == 0 {
                } else if idx == 1 {
                } else if idx == 2 {
                } else if idx == 3 {
                }
            }
            reveal_with_fuel(pow16, 5);
        }
        val = val * 16 + d;
        idx = idx + 1;
    }
    proof {
        assert(hexs@.take(hexs@.len() as int) =~= hexs@);
        reveal_with_fuel(pow16, 5);
        assert(pow16(hexs@.len()) <= 0x10000);
    }
    val as u16
}

/// Decodes a sequence of UTF-16 code units, exactly as [`utf16_decode`]
/// describes.
fn utf16_to_chars(units: &Vec<u16>) -> (r: Option<Vec<char>>)
    ensures
        match utf16_decode(units@) {
            Some(t) => r matches Some(out) && out@ == t,
            None => r is None,
        },
{
    let mut out: Vec<char> = Vec::new();
    let mut i: usize = 0;
    proof {
        assert(units@.skip(0) =~= units@);
        match utf16_decode(units@) {
            Some(t) => {
                assert(Seq::<char>::empty() + t =~= t);
            },
            None => {},
        }
    }
    while i < units.len()
        invariant
            i <= units@.len(),
            utf16_decode(units@) == (match utf16_decode(units@.skip(i as int)) {
                Some(t) => Some(out@ + t),
                None => None::<Seq<char>>,
            }),
        decreases units@.len() - i,
    {
        let ghost tail = units@.skip(i as int);
        proof {
            assert(tail[0] == units@[i as int]);
        }
        let u = units[i];
        if 0xD800 <= u && u <= 0xDBFF {
            if i + 1 < units.len() && 0xDC00 <= units[i + 1] && units[i + 1] <= 0xDFFF {
                let lo = units[i + 1];
                proof {
                    assert(tail[1] == units@[(i + 1) as int]);
                    assert(tail.skip(2) =~= units@.skip((i + 2) as int));
                }
                let cp: u32 = 0x10000 + ((u - 0xD800) as u32) * 0x400 + ((lo - 0xDC00) as u32);
                proof {
                    assert(cp == combine_surrogates(u, lo));
                    assert(vstd::utf8::is_scalar(cp));
                }
                match char::from_u32(cp) {
                    Some(c) => {
                        proof {
                            vstd::utf8::char_u32_cast(c, cp);
                            assert(c == combine_surrogates(u, lo) as char);
                            match utf16_decode(tail) {
                                Some(t) => {
                                    assert(out@ + t =~= out@.push(c) + utf16_decode(
                                        tail.skip(2),
                                    ).unwrap());
                                },
                                None => {},
                            }
                        }
                        out.push(c);
                    },
                    None => {
                        proof {
                            assert(false);
                        }
                        return None;
                    },
                }
                i = i + 2;
            } else {
                proof {
                    if i + 1 < units@.len() {
                        assert(tail[1] == units@[(i + 1) as int]);
                    }
                    assert(utf16_decode(tail) is None);
                }
                return None;
            }
        } else if 0xDC00 <= u && u <= 0xDFFF {
            proof {
                assert(utf16_decode(tail) is None);
            }
            return None;
        } else {
            proof {
                assert(tail.drop_first() =~= units@.skip((i + 1) as int));
                assert(vstd::utf8::is_scalar(u as u32));
            }
            match char::from_u32(u as u32) {
                Some(c) => {
                    proof {
                        vstd::utf8::char_u32_cast(c, u as u32);
                        match utf16_decode(tail) {
                            Some(t) => {
                                assert(out@ + t =~= out@.push(c) + utf16_decode(
                                    tail.drop_first(),
                                ).unwrap());
                            },
                            None => {},
                        }
                    }
                    out.push(c);
                },
                None => {
                    proof {
                        assert(false);
                    }
                    return None;
                },
            }
            i = i + 1;
        }
    }
    proof {
        assert(units@.skip(units@.len() as int) =~= Seq::<u16>::empty());
        match utf16_decode(units@) {
            Some(t) => {
                assert(out@ + Seq::<char>::empty() =~= out@);
            },
            None => {},
        }
    }
    Some(out)
}

/// Decides the optional-exponent tail of the numeral grammar.
fn check_exponent(v: &Vec<char>, j: usize) -> (r: bool)
    requires
        j <= v@.len(),
    ensures
        r == is_exponent_or_empty(v@.skip(j as int)),
{
    let ghost s = v@.skip(j as int);
    let n = v.len();
    if j == n {
        return true;
    }
    proof {
        assert(s[0] == v@[j as int]);
    }
    if !(v[j] == 'e' || v[j] == 'E') {
        return false;
    }
    let mut k = j + 1;
    if k < n && (v[k] == '+' || v[k] == '-') {
        proof {
            assert(s[1] == v@[(j + 1) as int]);
        }
        k = k + 1;
    }
    proof {
        if k == j + 2 {
            assert(s.skip(2) =~= v@.skip(k as int));
        } else {
            assert(s.drop_first() =~= v@.skip(k as int));
            if s.len() > 1 {
                assert(s[1] == v@[(j + 1) as int]);
            }
        }
    }
    let ghost t = v@.skip(k as int);
    if k == n {
        return false;
    }
    let dend = scan_digit_end(v, k);
    if dend == n {
        proof {
            assert forall|i: int| 0 <= i < t.len() implies #[trigger] is_digit(t[i]) by {
                assert(t[i] == v@[k + i]);
            }
        }
        true
    } else {
        proof {
            assert(t[(dend - k) as int] == v@[dend as int]);
            assert(!all_digits(t));
        }
        false
    }
}

} // verus!
