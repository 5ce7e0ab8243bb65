use vstd::prelude::*;
use crate::token::{ErrorKind, Failure, failure, TokenView, DecimalView};

verus! {

pub open spec fn is_digit(c: char) -> bool {
    '0' <= c <= '9'
}

pub open spec fn digit_value(c: char) -> u8 {
    (c as u32 - '0' as u32) as u8
}

pub open spec fn is_hex(c: char) -> bool {
    ('0' <= c <= '9') || ('a' <= c <= 'f') || ('A' <= c <= 'F')
}

pub open spec fn hex_value(c: char) -> int {
    if '0' <= c <= '9' {
        c as u32 - '0' as u32
    } else if 'a' <= c <= 'f' {
        c as u32 - 'a' as u32 + 10
    } else {
        c as u32 - 'A' as u32 + 10
    }
}

pub open spec fn is_whitespace(c: char) -> bool {
    c == ' ' || c == '\t' || c == '\n' || c == '\r'
}

/// Characters that may continue an identifier-like run after a keyword.
pub open spec fn is_ident_char(c: char) -> bool {
    ('a' <= c <= 'z') || ('A' <= c <= 'Z') || ('0' <= c <= '9') || c == '_'
}

/// The first offset at or after `i` that does not hold a digit.
pub open spec fn digits_end(s: Seq<char>, i: int) -> int
    decreases s.len() - i,
{
    if 0 <= i < s.len() && is_digit(s[i]) {
        digits_end(s, i + 1)
    } else {
        i
    }
}

/// The values of the digits `s[a..b]`.
pub open spec fn digit_seq(s: Seq<char>, a: int, b: int) -> Seq<u8> {
    s.subrange(a, b).map_values(|c: char| digit_value(c))
}

/// The natural number that a sequence of decimal digit values denotes.
pub open spec fn digits_value(d: Seq<u8>) -> nat
    decreases d.len(),
{
    if d.len() == 0 {
        0
    } else {
        digits_value(d.drop_last()) * 10 + d.last() as nat
    }
}

pub open spec fn fits_i64(v: int) -> bool {
    i64::MIN <= v <= i64::MAX
}

/// The token for a number literal made of the given parts.
pub open spec fn number_token(
    negative: bool,
    int_digits: Seq<u8>,
    frac_digits: Seq<u8>,
    exp_negative: bool,
    exp_digits: Seq<u8>,
) -> TokenView {
    let m = digits_value(int_digits) as int;
    let v = if negative { -m } else { m };
    if frac_digits.len() == 0 && exp_digits.len() == 0 && fits_i64(v) {
        TokenView::Int(v)
    } else {
        TokenView::Dec(
            DecimalView { negative, int_digits, frac_digits, exp_negative, exp_digits },
        )
    }
}

/// The value of a number literal's parts as a mantissa and a power of ten:
/// the number is `mantissa * 10^exponent`.
pub open spec fn decimal_value(
    negative: bool,
    int_digits: Seq<u8>,
    frac_digits: Seq<u8>,
    exp_negative: bool,
    exp_digits: Seq<u8>,
) -> (int, int) {
    let m = digits_value(int_digits + frac_digits) as int;
    let e = digits_value(exp_digits) as int;
    (if negative { -m } else { m }, (if exp_negative { -e } else { e }) - frac_digits.len())
}

/// The value a number token stands for, as mantissa and power of ten.
pub open spec fn number_value(t: TokenView) -> (int, int) {
    match t {
        TokenView::Int(v) => (v, 0),
        TokenView::Dec(d) => decimal_value(d.negative, d.int_digits, d.frac_digits, d.exp_negative, d.exp_digits),
        _ => (0, 0),
    }
}

/// The number scanner: the longest JSON number lexeme starting at `i`.
pub open spec fn scan_number(s: Seq<char>, i: int) -> Result<(TokenView, int), Failure> {
    let negative = i < s.len() && s[i] == '-';
    let p = if negative { i + 1 } else { i };
    if !(p < s.len() && is_digit(s[p])) {
        Err(failure(ErrorKind::InvalidNumber, i))
    } else {
        let q = if s[p] == '0' { p + 1 } else { digits_end(s, p) };
        if q < s.len() && is_digit(s[q]) {
            Err(failure(ErrorKind::InvalidNumber, i))
        } else {
            let has_frac = q < s.len() && s[q] == '.';
            if has_frac && !(q + 1 < s.len() && is_digit(s[q + 1])) {
                Err(failure(ErrorKind::InvalidNumber, i))
            } else {
                let r = if has_frac { digits_end(s, q + 1) } else { q };
                let has_exp = r < s.len() && (s[r] == 'e' || s[r] == 'E');
                let signed = has_exp && r + 1 < s.len() && (s[r + 1] == '+' || s[r + 1] == '-');
                let t = if signed { r + 2 } else { r + 1 };
                if has_exp && !(t < s.len() && is_digit(s[t])) {
                    Err(failure(ErrorKind::InvalidNumber, i))
                } else {
                    let end = if has_exp { digits_end(s, t) } else { r };
                    let frac = if has_frac { digit_seq(s, q + 1, r) } else { Seq::empty() };
                    let exp = if has_exp { digit_seq(s, t, end) } else { Seq::empty() };
                    let exp_negative = signed && s[r + 1] == '-';
                    Ok((number_token(negative, digit_seq(s, p, q), frac, exp_negative, exp), end))
                }
            }
        }
    }
}

/// The value of the `n` hexadecimal digits at `p`, or why they cannot be read.
pub open spec fn hex_digits(s: Seq<char>, p: int, n: nat) -> Result<int, ErrorKind>
    decreases n,
{
    if n == 0 {
        Ok(0)
    } else {
        match hex_digits(s, p, (n - 1) as nat) {
            Err(k) => Err(k),
            Ok(v) => {
                let q = p + n - 1;
                if q >= s.len() {
                    Err(ErrorKind::UnterminatedString)
                } else if !is_hex(s[q]) {
                    Err(ErrorKind::InvalidEscape)
                } else {
                    Ok(v * 16 + hex_value(s[q]))
                }
            },
        }
    }
}

/// A failure in the four hex digits of the escape that starts at `i`.
pub open spec fn hex_failure(s: Seq<char>, i: int, k: ErrorKind) -> Failure {
    if k == ErrorKind::UnterminatedString {
        failure(k, s.len() as int)
    } else {
        failure(k, i)
    }
}

pub open spec fn is_high_surrogate(u: int) -> bool {
    0xD800 <= u <= 0xDBFF
}

pub open spec fn is_low_surrogate(u: int) -> bool {
    0xDC00 <= u <= 0xDFFF
}

/// The code point that a high and a low surrogate stand for together.
pub open spec fn combine_surrogates(hi: int, lo: int) -> int {
    0x10000 + (hi - 0xD800) * 0x400 + (lo - 0xDC00)
}

pub open spec fn code_char(u: int) -> char {
    (u as u32) as char
}

/// The escape sequence whose backslash is at `i`: the character it stands
/// for and the offset just past it. A lone surrogate is an invalid escape.
pub open spec fn scan_escape(s: Seq<char>, i: int) -> Result<(char, int), Failure> {
    if i + 1 >= s.len() {
        Err(failure(ErrorKind::UnterminatedString, s.len() as int))
    } else {
        let e = s[i + 1];
        if e == '"' {
            Ok(('"', i + 2))
        } else if e == '\\' {
            Ok(('\\', i + 2))
        } else if e == '/' {
            Ok(('/', i + 2))
        } else if e == 'b' {
            Ok(('\x08', i + 2))
        } else if e == 'f' {
            Ok(('\x0c', i + 2))
        } else if e == 'n' {
            Ok(('\n', i + 2))
        } else if e == 'r' {
            Ok(('\r', i + 2))
        } else if e == 't' {
            Ok(('\t', i + 2))
        } else if e == 'u' {
            match hex_digits(s, i + 2, 4) {
                Err(k) => Err(hex_failure(s, i, k)),
                Ok(u) => if is_high_surrogate(u) {
                    if i + 7 < s.len() && s[i + 6] == '\\' && s[i + 7] == 'u' {
                        match hex_digits(s, i + 8, 4) {
                            Err(k) => Err(hex_failure(s, i, k)),
                            Ok(lo) => if is_low_surrogate(lo) {
                                Ok((code_char(combine_surrogates(u, lo)), i + 12))
                            } else {
                                Err(failure(ErrorKind::InvalidEscape, i))
                            },
                        }
                    } else {
                        Err(failure(ErrorKind::InvalidEscape, i))
                    }
                } else if is_low_surrogate(u) {
                    Err(failure(ErrorKind::InvalidEscape, i))
                } else {
                    Ok((code_char(u), i + 6))
                },
            }
        } else {
            Err(failure(ErrorKind::InvalidEscape, i))
        }
    }
}

/// The string scanner from offset `i` inside a string whose decoded contents
/// so far are `acc`.
pub open spec fn scan_string_from(s: Seq<char>, i: int, acc: Seq<char>) -> Result<(TokenView, int), Failure>
    decreases s.len() - i,
{
    if i < 0 || i >= s.len() {
        Err(failure(ErrorKind::UnterminatedString, s.len() as int))
    } else if s[i] == '"' {
        Ok((TokenView::Str(acc), i + 1))
    } else if s[i] == '\\' {
        match scan_escape(s, i) {
            Err(e) => Err(e),
            Ok((c, j)) => if i < j <= s.len() {
                scan_string_from(s, j, acc.push(c))
            } else {
                Err(failure(ErrorKind::InvalidEscape, i))
            },
        }
    } else if s[i] <= '\x1f' {
        Err(failure(ErrorKind::UnexpectedCharacter, i))
    } else {
        scan_string_from(s, i + 1, acc.push(s[i]))
    }
}

pub open spec fn kw_true() -> Seq<char> {
    seq!['t', 'r', 'u', 'e']
}

pub open spec fn kw_false() -> Seq<char> {
    seq!['f', 'a', 'l', 's', 'e']
}

pub open spec fn kw_null() -> Seq<char> {
    seq!['n', 'u', 'l', 'l']
}

/// `kw` stands at `i` exactly, not followed by a character that would make
/// it part of a longer identifier-like run.
pub open spec fn keyword_at(s: Seq<char>, i: int, kw: Seq<char>) -> bool {
    &&& 0 <= i
    &&& i + kw.len() <= s.len()
    &&& s.subrange(i, i + kw.len()) == kw
    &&& !(i + kw.len() < s.len() && is_ident_char(s[i + kw.len()]))
}

/// The literal scanner.
pub open spec fn scan_literal(s: Seq<char>, i: int) -> Result<(TokenView, int), Failure> {
    if keyword_at(s, i, kw_true()) {
        Ok((TokenView::True, i + 4))
    } else if keyword_at(s, i, kw_false()) {
        Ok((TokenView::False, i + 5))
    } else if keyword_at(s, i, kw_null()) {
        Ok((TokenView::Null, i + 4))
    } else {
        Err(failure(ErrorKind::UnknownLiteral, i))
    }
}

pub open spec fn starts_number(s: Seq<char>, i: int) -> bool {
    is_digit(s[i]) || (s[i] == '-' && i + 1 < s.len() && is_digit(s[i + 1]))
}

/// The token that starts at `i`, which holds no whitespace.
pub open spec fn scan_token(s: Seq<char>, i: int) -> Result<(TokenView, int), Failure> {
    let c = s[i];
    if c == '"' {
        scan_string_from(s, i + 1, Seq::empty())
    } else if c == ',' {
        Ok((TokenView::Comma, i + 1))
    } else if c == ':' {
        Ok((TokenView::Colon, i + 1))
    } else if c == '[' {
        Ok((TokenView::OpenBracket, i + 1))
    } else if c == ']' {
        Ok((TokenView::CloseBracket, i + 1))
    } else if c == '{' {
        Ok((TokenView::OpenBrace, i + 1))
    } else if c == '}' {
        Ok((TokenView::CloseBrace, i + 1))
    } else if starts_number(s, i) {
        scan_number(s, i)
    } else {
        scan_literal(s, i)
    }
}

/// The tokens of `s` from offset `i` on, or the first failure.
pub open spec fn lex_from(s: Seq<char>, i: int) -> Result<Seq<TokenView>, Failure>
    decreases s.len() - i,
{
    if i < 0 || i >= s.len() {
        Ok(Seq::empty())
    } else if is_whitespace(s[i]) {
        lex_from(s, i + 1)
    } else {
        match scan_token(s, i) {
            Err(e) => Err(e),
            Ok((t, j)) => if i < j <= s.len() {
                match lex_from(s, j) {
                    Err(e) => Err(e),
                    Ok(ts) => Ok(seq![t] + ts),
                }
            } else {
                Ok(Seq::empty())
            },
        }
    }
}

/// The tokens of the whole text `s`, or the first failure.
pub open spec fn lex(s: Seq<char>) -> Result<Seq<TokenView>, Failure> {
    lex_from(s, 0)
}

} // verus!
