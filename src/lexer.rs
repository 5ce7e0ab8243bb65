use vstd::prelude::*;
use crate::grammar::{
    keyword_at, kw_true, kw_false, kw_null, scan_literal, is_ident_char, is_digit, digit_value,
    digits_end, digit_seq, digits_value, fits_i64, scan_number, is_hex, hex_value, hex_digits,
    hex_failure, scan_escape, scan_string_from, code_char, scan_token, lex_from, lex, is_whitespace,
};
use crate::laws::{lemma_lex_wf, wf_token};
use crate::token::{
    ErrorKind, Failure, LexerError, Token, TokenView, Number, Decimal, failure, outcome, tokens_view,
};

verus! {

/// Relies on `String::push`: appends one character.
pub assume_specification[ std::string::String::push ](s: &mut std::string::String, ch: char)
    ensures
        final(s)@ == old(s)@.push(ch),
;

/// Relies on `char::from_u32`: the character with that code, where the code
/// is a Unicode scalar value.
pub assume_specification[ char::from_u32 ](i: u32) -> (r: Option<char>)
    ensures
        r is Some <==> (i <= 0x10FFFF && !(0xD800 <= i <= 0xDFFF)),
        r is Some ==> r->0 as u32 == i,
;

fn is_ident_char_exec(c: char) -> (r: bool)
    ensures
        r == is_ident_char(c),
{
    ('a' <= c && c <= 'z') || ('A' <= c && c <= 'Z') || ('0' <= c && c <= '9') || c == '_'
}

/// Whether `keyword` stands at `pos` exactly and is not followed by an
/// identifier character.
pub fn parse_literal(chars: &Vec<char>, pos: usize, keyword: &Vec<char>) -> (r: bool)
    ensures
        r == keyword_at(chars@, pos as int, keyword@),
{
    if pos > chars.len() || keyword.len() > chars.len() - pos {
        return false;
    }
    let mut k: usize = 0;
    while k < keyword.len()
        invariant
            pos + keyword.len() <= chars.len(),
            k <= keyword.len(),
            forall|j: int| 0 <= j < k ==> chars@[pos + j] == keyword@[j],
        decreases keyword.len() - k,
    {
        if chars[pos + k] != keyword[k] {
            assert(chars@.subrange(pos as int, pos + keyword.len())[k as int] != keyword@[k as int]);
            return false;
        }
        k = k + 1;
    }
    assert(chars@.subrange(pos as int, pos + keyword.len()) =~= keyword@);
    let end = pos + keyword.len();
    !(end < chars.len() && is_ident_char_exec(chars[end]))
}

/// The literal scanner: `true`, `false` or `null` at the cursor, or
/// `UnknownLiteral` there.
pub fn get_literal(chars: &Vec<char>, pos: &mut usize) -> (r: Result<Token, LexerError>)
    requires
        *old(pos) <= chars.len(),
    ensures
        outcome(r, *final(pos)) == scan_literal(chars@, *old(pos) as int),
        r is Ok ==> *old(pos) < *final(pos) <= chars.len(),
{
    let t = vec!['t', 'r', 'u', 'e'];
    let f = vec!['f', 'a', 'l', 's', 'e'];
    let n = vec!['n', 'u', 'l', 'l'];
    assert(t@ =~= kw_true());
    assert(f@ =~= kw_false());
    assert(n@ =~= kw_null());
    if parse_literal(chars, *pos, &t) {
        *pos = *pos + 4;
        Ok(Token::True)
    } else if parse_literal(chars, *pos, &f) {
        *pos = *pos + 5;
        Ok(Token::False)
    } else if parse_literal(chars, *pos, &n) {
        *pos = *pos + 4;
        Ok(Token::Null)
    } else {
        Err(LexerError::new(ErrorKind::UnknownLiteral, *pos, String::from_str("no literal value true, false or null here")))
    }
}


fn is_digit_exec(c: char) -> (r: bool)
    ensures
        r == is_digit(c),
{
    '0' <= c && c <= '9'
}

pub(crate) proof fn lemma_digits_end(s: Seq<char>, i: int)
    requires
        0 <= i <= s.len(),
    ensures
        i <= digits_end(s, i) <= s.len(),
        forall|k: int| i <= k < digits_end(s, i) ==> is_digit(#[trigger] s[k]),
        digits_end(s, i) < s.len() ==> !is_digit(s[digits_end(s, i)]),
    decreases s.len() - i,
{
    if i < s.len() && is_digit(s[i]) {
        lemma_digits_end(s, i + 1);
    }
}

/// Reads the run of digits at `i`, appending their values to `out`, and
/// returns the offset just past it.
fn scan_digits(chars: &Vec<char>, i: usize, out: &mut Vec<u8>) -> (r: usize)
    requires
        i <= chars.len(),
    ensures
        r == digits_end(chars@, i as int),
        final(out)@ == old(out)@ + digit_seq(chars@, i as int, r as int),
{
    proof {
        lemma_digits_end(chars@, i as int);
    }
    let mut k: usize = i;
    while k < chars.len() && is_digit_exec(chars[k])
        invariant
            i <= k <= chars.len(),
            digits_end(chars@, k as int) == digits_end(chars@, i as int),
            k <= digits_end(chars@, i as int),
            forall|j: int| i <= j < digits_end(chars@, i as int) ==> is_digit(#[trigger] chars@[j]),
            out@ == old(out)@ + digit_seq(chars@, i as int, k as int),
        decreases chars.len() - k,
    {
        let d = (chars[k] as u32 - '0' as u32) as u8;
        out.push(d);
        k = k + 1;
        proof {
            lemma_digits_end(chars@, k as int);
        }
        assert(digit_seq(chars@, i as int, k as int) =~= digit_seq(chars@, i as int, k - 1).push(digit_value(chars@[k - 1])));
    }
    k
}

proof fn lemma_digits_value_mono(d: Seq<u8>, a: int, b: int)
    requires
        0 <= a <= b <= d.len(),
    ensures
        digits_value(d.take(a)) <= digits_value(d.take(b)),
    decreases b - a,
{
    if a < b {
        lemma_digits_value_mono(d, a, b - 1);
        assert(d.take(b).drop_last() =~= d.take(b - 1));
    }
}

/// The signed value of the digits, where it fits in an `i64`.
fn int_value(negative: bool, digits: &Vec<u8>) -> (r: Option<i64>)
    requires
        forall|k: int| 0 <= k < digits.len() ==> digits@[k] < 10,
    ensures
        ({
            let m = digits_value(digits@) as int;
            let v = if negative { -m } else { m };
            r == if fits_i64(v) { Some(v as i64) } else { None }
        }),
{
    let mut m: u64 = 0;
    let mut k: usize = 0;
    while k < digits.len()
        invariant
            k <= digits.len(),
            forall|j: int| 0 <= j < digits.len() ==> digits@[j] < 10,
            m == digits_value(digits@.take(k as int)),
            m <= 9223372036854775808u64,
        decreases digits.len() - k,
    {
        let d = digits[k];
        assert(digits@.take(k + 1).drop_last() =~= digits@.take(k as int));
        if m > 922337203685477580u64 || (m == 922337203685477580u64 && d > 8) {
            proof {
                lemma_digits_value_mono(digits@, k + 1, digits.len() as int);
                assert(digits@.take(digits.len() as int) =~= digits@);
            }
            return None;
        }
        m = m * 10 + d as u64;
        k = k + 1;
    }
    assert(digits@.take(digits.len() as int) =~= digits@);
    if negative {
        if m == 9223372036854775808u64 {
            Some(i64::MIN)
        } else {
            Some(-(m as i64))
        }
    } else if m > 9223372036854775807u64 {
        None
    } else {
        Some(m as i64)
    }
}

fn number_error(start: usize) -> (r: LexerError)
    ensures
        r@ == failure(ErrorKind::InvalidNumber, start as int),
{
    LexerError::new(ErrorKind::InvalidNumber, start, String::from_str("malformed number"))
}

/// The number scanner: from the cursor, the longest JSON number lexeme
/// (optional `-`, integer part without leading zeros, optional fraction,
/// optional exponent). The cursor is left just past it.
pub fn get_number(chars: &Vec<char>, pos: &mut usize) -> (r: Result<Token, LexerError>)
    requires
        *old(pos) <= chars.len(),
    ensures
        outcome(r, *final(pos)) == scan_number(chars@, *old(pos) as int),
        r is Ok ==> *old(pos) < *final(pos) <= chars.len(),
{
    let ghost s = chars@;
    let len = chars.len();
    let start = *pos;
    let negative = start < len && chars[start] == '-';
    let p = if negative { start + 1 } else { start };
    if !(p < len && is_digit_exec(chars[p])) {
        return Err(number_error(start));
    }
    let mut int_digits: Vec<u8> = Vec::new();
    let q = scan_digits(chars, p, &mut int_digits);
    proof {
        lemma_digits_end(s, p as int);
        lemma_digits_end(s, p + 1);
    }
    if chars[p] == '0' && q > p + 1 {
        return Err(number_error(start));
    }
    let has_frac = q < len && chars[q] == '.';
    let mut frac_digits: Vec<u8> = Vec::new();
    let mut r = q;
    if has_frac {
        if !(q + 1 < len && is_digit_exec(chars[q + 1])) {
            return Err(number_error(start));
        }
        r = scan_digits(chars, q + 1, &mut frac_digits);
    }
    let has_exp = r < len && (chars[r] == 'e' || chars[r] == 'E');
    let mut exp_digits: Vec<u8> = Vec::new();
    let mut exp_negative = false;
    let mut end = r;
    if has_exp {
        let signed = r + 1 < len && (chars[r + 1] == '+' || chars[r + 1] == '-');
        let t = if signed { r + 2 } else { r + 1 };
        exp_negative = signed && chars[r + 1] == '-';
        if !(t < len && is_digit_exec(chars[t])) {
            return Err(number_error(start));
        }
        end = scan_digits(chars, t, &mut exp_digits);
        proof {
            lemma_digits_end(s, t as int);
        }
    }
    proof {
        if has_frac {
            lemma_digits_end(s, q + 1);
        }
    }
    assert(int_digits@ =~= digit_seq(s, p as int, q as int));
    assert(frac_digits@ =~= if has_frac { digit_seq(s, q + 1, r as int) } else { Seq::empty() });
    assert(forall|k: int| 0 <= k < int_digits.len() ==> int_digits@[k] < 10);
    *pos = end;
    if frac_digits.len() == 0 && exp_digits.len() == 0 {
        match int_value(negative, &int_digits) {
            Some(v) => {
                return Ok(Token::Number(Number::Int(v)));
            },
            None => {},
        }
    }
    Ok(Token::Number(Number::Decimal(Decimal { negative, int_digits, frac_digits, exp_negative, exp_digits })))
}


fn hex_value_exec(c: char) -> (r: u32)
    requires
        is_hex(c),
    ensures
        r as int == hex_value(c),
        r < 16,
{
    if '0' <= c && c <= '9' {
        c as u32 - '0' as u32
    } else if 'a' <= c && c <= 'f' {
        c as u32 - 'a' as u32 + 10
    } else {
        c as u32 - 'A' as u32 + 10
    }
}

proof fn lemma_hex_error_stays(s: Seq<char>, p: int, n: nat, m: nat)
    requires
        n <= m,
        hex_digits(s, p, n) is Err,
    ensures
        hex_digits(s, p, m) == hex_digits(s, p, n),
    decreases m - n,
{
    if n < m {
        lemma_hex_error_stays(s, p, n, (m - 1) as nat);
    }
}

/// The four hexadecimal digits at `p`.
fn hex4(chars: &Vec<char>, p: usize) -> (r: Result<u32, ErrorKind>)
    requires
        p <= chars.len(),
    ensures
        hex_digits(chars@, p as int, 4) == match r {
            Ok(u) => Ok::<int, ErrorKind>(u as int),
            Err(k) => Err(k),
        },
        r is Ok ==> r->Ok_0 < 0x10000,
{
    let mut v: u32 = 0;
    let mut k: usize = 0;
    while k < 4
        invariant
            k <= 4,
            p <= chars.len(),
            hex_digits(chars@, p as int, k as nat) == Ok::<int, ErrorKind>(v as int),
            k == 0 ==> v < 1,
            k == 1 ==> v < 16,
            k == 2 ==> v < 256,
            k == 3 ==> v < 4096,
            k == 4 ==> v < 65536,
        decreases 4 - k,
    {
        if k >= chars.len() - p {
            proof {
                lemma_hex_error_stays(chars@, p as int, (k + 1) as nat, 4);
            }
            return Err(ErrorKind::UnterminatedString);
        }
        let c = chars[p + k];
        if !(('0' <= c && c <= '9') || ('a' <= c && c <= 'f') || ('A' <= c && c <= 'F')) {
            proof {
                lemma_hex_error_stays(chars@, p as int, (k + 1) as nat, 4);
            }
            return Err(ErrorKind::InvalidEscape);
        }
        v = v * 16 + hex_value_exec(c);
        k = k + 1;
    }
    Ok(v)
}

fn escape_error(chars: &Vec<char>, i: usize, k: ErrorKind) -> (r: LexerError)
    ensures
        r@ == hex_failure(chars@, i as int, k),
{
    if k == ErrorKind::UnterminatedString {
        LexerError::new(k, chars.len(), String::from_str("string not terminated"))
    } else {
        LexerError::new(k, i, String::from_str("invalid escape sequence"))
    }
}

fn code_to_char(u: u32) -> (r: char)
    requires
        u <= 0x10FFFF,
        !(0xD800 <= u <= 0xDFFF),
    ensures
        r == code_char(u as int),
{
    match char::from_u32(u) {
        Some(c) => {
            proof {
                vstd::utf8::char_u32_cast(c, u);
            }
            c
        },
        None => {
            assert(false);
            ' '
        },
    }
}

/// The escape sequence whose backslash is at `i`: the character it decodes
/// to and the offset just past it. `\\uXXXX` escapes that form a surrogate
/// pair combine into one character; a lone surrogate is `InvalidEscape`.
fn get_escape(chars: &Vec<char>, i: usize) -> (r: Result<(char, usize), LexerError>)
    requires
        i < chars.len(),
    ensures
        scan_escape(chars@, i as int) == match r {
            Ok((c, j)) => Ok::<(char, int), Failure>((c, j as int)),
            Err(e) => Err(e@),
        },
{
    let len = chars.len();
    if i + 1 >= len {
        return Err(LexerError::new(ErrorKind::UnterminatedString, len, String::from_str("string not terminated")));
    }
    let e = chars[i + 1];
    if e == '"' {
        Ok(('"', i + 2))
    } else if e == '\\' {
        Ok(('\\', i + 2))
    } else if e == '/' {
        Ok(('/', i + 2))
    } else if e == 'b' {
        Ok(('\x08', i + 2))
    } else if e == 'f' {
        Ok(('\x0c', i + 2))
    } else if e == 'n' {
        Ok(('\n', i + 2))
    } else if e == 'r' {
        Ok(('\r', i + 2))
    } else if e == 't' {
        Ok(('\t', i + 2))
    } else if e == 'u' {
        match hex4(chars, i + 2) {
            Err(k) => Err(escape_error(chars, i, k)),
            Ok(u) => {
                if 0xD800 <= u && u <= 0xDBFF {
                    if len - i > 7 && chars[i + 6] == '\\' && chars[i + 7] == 'u' {
                        match hex4(chars, i + 8) {
                            Err(k) => Err(escape_error(chars, i, k)),
                            Ok(lo) => {
                                if 0xDC00 <= lo && lo <= 0xDFFF {
                                    let c = code_to_char(0x10000 + (u - 0xD800) * 0x400 + (lo - 0xDC00));
                                    Ok((c, i + 12))
                                } else {
                                    Err(LexerError::new(ErrorKind::InvalidEscape, i, String::from_str("unpaired surrogate")))
                                }
                            },
                        }
                    } else {
                        Err(LexerError::new(ErrorKind::InvalidEscape, i, String::from_str("unpaired surrogate")))
                    }
                } else if 0xDC00 <= u && u <= 0xDFFF {
                    Err(LexerError::new(ErrorKind::InvalidEscape, i, String::from_str("unpaired surrogate")))
                } else {
                    Ok((code_to_char(u), i + 6))
                }
            },
        }
    } else {
        Err(LexerError::new(ErrorKind::InvalidEscape, i, String::from_str("invalid escape sequence")))
    }
}

/// The string scanner: from just after the opening quote, the decoded
/// contents up to the closing quote; the cursor is left just past it.
/// Unescaped control characters are `UnexpectedCharacter`.
pub fn get_string(chars: &Vec<char>, pos: &mut usize) -> (r: Result<Token, LexerError>)
    requires
        *old(pos) <= chars.len(),
    ensures
        outcome(r, *final(pos)) == scan_string_from(chars@, *old(pos) as int, Seq::empty()),
        r is Ok ==> *old(pos) < *final(pos) <= chars.len(),
{
    let ghost s = chars@;
    let ghost start = *pos as int;
    let len = chars.len();
    let mut out = String::new();
    let mut k: usize = *pos;
    loop
        invariant
            k <= len,
            len == chars.len(),
            s == chars@,
            start == *old(pos) as int,
            start <= k,
            scan_string_from(s, start, Seq::empty()) == scan_string_from(s, k as int, out@),
        decreases len - k,
    {
        if k >= len {
            return Err(LexerError::new(ErrorKind::UnterminatedString, len, String::from_str("string not terminated")));
        }
        let c = chars[k];
        if c == '"' {
            *pos = k + 1;
            return Ok(Token::Str(out));
        } else if c == '\\' {
            match get_escape(chars, k) {
                Err(e) => {
                    return Err(e);
                },
                Ok((d, j)) => {
                    out.push(d);
                    k = j;
                },
            }
        } else if c <= '\x1f' {
            return Err(LexerError::new(ErrorKind::UnexpectedCharacter, k, String::from_str("control character in string")));
        } else {
            out.push(c);
            k = k + 1;
        }
    }
}


fn is_whitespace_exec(c: char) -> (r: bool)
    ensures
        r == is_whitespace(c),
{
    c == ' ' || c == '\t' || c == '\n' || c == '\r'
}

/// Dispatches on the character at the cursor, which is not whitespace, and
/// scans one token.
fn next_token(chars: &Vec<char>, pos: &mut usize) -> (r: Result<Token, LexerError>)
    requires
        *old(pos) < chars.len(),
    ensures
        outcome(r, *final(pos)) == scan_token(chars@, *old(pos) as int),
        r is Ok ==> *old(pos) < *final(pos) <= chars.len(),
{
    let k = *pos;
    let c = chars[k];
    if c == '"' {
        *pos = k + 1;
        get_string(chars, pos)
    } else if c == ',' {
        *pos = k + 1;
        Ok(Token::Comma)
    } else if c == ':' {
        *pos = k + 1;
        Ok(Token::Colon)
    } else if c == '[' {
        *pos = k + 1;
        Ok(Token::OpenBracket)
    } else if c == ']' {
        *pos = k + 1;
        Ok(Token::CloseBracket)
    } else if c == '{' {
        *pos = k + 1;
        Ok(Token::OpenBrace)
    } else if c == '}' {
        *pos = k + 1;
        Ok(Token::CloseBrace)
    } else if is_digit_exec(c) || (c == '-' && k + 1 < chars.len() && is_digit_exec(chars[k + 1])) {
        get_number(chars, pos)
    } else {
        get_literal(chars, pos)
    }
}

/// Tokenizes a whole text given as characters: all its tokens in order,
/// whitespace dropped, or the first error.
pub fn tokenize_chars(chars: &Vec<char>) -> (r: Result<Vec<Token>, LexerError>)
    ensures
        match r {
            Ok(ts) => lex(chars@) == Ok::<Seq<TokenView>, Failure>(tokens_view(ts@)),
            Err(e) => lex(chars@) == Err::<Seq<TokenView>, Failure>(e@),
        },
        r is Ok ==> forall|k: int|
            0 <= k < r->Ok_0.len() ==> wf_token(#[trigger] r->Ok_0@[k]@),
{
    let ghost s = chars@;
    let len = chars.len();
    let mut out: Vec<Token> = Vec::new();
    let mut k: usize = 0;
    while k < len
        invariant
            k <= len,
            len == chars.len(),
            s == chars@,
            lex(s) == match lex_from(s, k as int) {
                Ok(ts) => Ok::<Seq<TokenView>, Failure>(tokens_view(out@) + ts),
                Err(e) => Err(e),
            },
        decreases len - k,
    {
        if is_whitespace_exec(chars[k]) {
            k = k + 1;
        } else {
            let mut p = k;
            match next_token(chars, &mut p) {
                Err(e) => {
                    return Err(e);
                },
                Ok(t) => {
                    let ghost old_out = out@;
                    out.push(t);
                    proof {
                        assert(tokens_view(out@) =~= tokens_view(old_out) + seq![t@]);
                        match lex_from(s, p as int) {
                            Ok(ts) => {
                                assert(tokens_view(out@) + ts =~= tokens_view(old_out) + (seq![t@] + ts));
                            },
                            Err(_) => {},
                        }
                    }
                    k = p;
                },
            }
        }
    }
    assert(tokens_view(out@) + Seq::<TokenView>::empty() =~= tokens_view(out@));
    proof {
        lemma_lex_wf(s, 0);
        assert forall|k: int| 0 <= k < out.len() implies wf_token(#[trigger] out@[k]@) by {
            assert(tokens_view(out@)[k] == out@[k]@);
            assert(lex_from(s, 0)->Ok_0[k] == tokens_view(out@)[k]);
        }
    }
    Ok(out)
}

/// Tokenizes a JSON text: all its tokens in order, whitespace dropped, or
/// the first error, with its kind and character offset.
pub fn json_tokenize(text: String) -> (r: Result<Vec<Token>, LexerError>)
    ensures
        match r {
            Ok(ts) => lex(text@) == Ok::<Seq<TokenView>, Failure>(tokens_view(ts@)),
            Err(e) => lex(text@) == Err::<Seq<TokenView>, Failure>(e@),
        },
        r is Ok ==> forall|k: int|
            0 <= k < r->Ok_0.len() ==> wf_token(#[trigger] r->Ok_0@[k]@),
{
    broadcast use vstd::string::axiom_spec_iter;
    let mut chars: Vec<char> = Vec::new();
    for c in it: text.as_str().chars()
        invariant
            chars@ == it.seq().take(it.index() as int),
    {
        chars.push(c);
    }
    assert(chars@ =~= text@);
    tokenize_chars(&chars)
}

} // verus!
