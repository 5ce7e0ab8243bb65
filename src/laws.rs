use vstd::prelude::*;
use crate::token::TokenView;
use crate::grammar::{
    is_digit, digit_value, is_hex, hex_value, digits_end, digit_seq, digits_value, fits_i64,
    number_token, scan_number, hex_digits, scan_escape, scan_string_from, code_char, starts_number,
    is_whitespace, scan_token, lex_from, lex, keyword_at, kw_true, kw_false, kw_null, decimal_value,
    number_value,
};
use crate::lexer::lemma_digits_end;
use crate::render::{
    digit_char, hex_char, digit_chars, all_digits, number_text, escape_char, escape_text, nat_digits,
    render_token, render_seq, digits_valid,
};

verus! {

proof fn lemma_digit_char(x: int)
    requires
        0 <= x < 16,
    ensures
        is_hex(hex_char(x)),
        hex_value(hex_char(x)) == x,
        x < 10 ==> hex_char(x) == digit_char(x),
        x < 10 ==> is_digit(digit_char(x)),
        x < 10 ==> digit_value(digit_char(x)) == x,
{
    let d = seq!['0', '1', '2', '3', '4', '5', '6', '7', '8', '9'];
    let h = seq!['0', '1', '2', '3', '4', '5', '6', '7', '8', '9', 'a', 'b', 'c', 'd', 'e', 'f'];
    assert(h[0] == '0' && h[1] == '1' && h[2] == '2' && h[3] == '3' && h[4] == '4');
    assert(h[5] == '5' && h[6] == '6' && h[7] == '7' && h[8] == '8' && h[9] == '9');
    assert(h[10] == 'a' && h[11] == 'b' && h[12] == 'c' && h[13] == 'd' && h[14] == 'e' && h[15] == 'f');
    assert(d[0] == '0' && d[1] == '1' && d[2] == '2' && d[3] == '3' && d[4] == '4');
    assert(d[5] == '5' && d[6] == '6' && d[7] == '7' && d[8] == '8' && d[9] == '9');
}


proof fn lemma_split(s: Seq<char>, i: int, x: Seq<char>, y: Seq<char>)
    requires
        0 <= i,
        i + x.len() + y.len() <= s.len(),
        s.subrange(i, i + x.len() + y.len()) == x + y,
    ensures
        s.subrange(i, i + x.len()) == x,
        s.subrange(i + x.len(), i + x.len() + y.len()) == y,
{
    assert forall|k: int| 0 <= k < x.len() implies s.subrange(i, i + x.len())[k] == x[k] by {
        assert(s.subrange(i, i + x.len() + y.len())[k] == (x + y)[k]);
    }
    assert forall|k: int| 0 <= k < y.len() implies s.subrange(i + x.len(), i + x.len() + y.len())[k] == y[k] by {
        assert(s.subrange(i, i + x.len() + y.len())[x.len() + k] == (x + y)[x.len() + k]);
        assert((x + y)[x.len() + k] == y[k]);
        assert(s.subrange(i + x.len(), i + x.len() + y.len())[k] == s[i + x.len() + k]);
        assert(s.subrange(i, i + x.len() + y.len())[x.len() + k] == s[i + x.len() + k]);
    }
    assert(s.subrange(i, i + x.len()) =~= x);
    assert(s.subrange(i + x.len(), i + x.len() + y.len()) =~= y);
}

proof fn lemma_at(s: Seq<char>, a: int, w: Seq<char>, k: int)
    requires
        0 <= a,
        a + w.len() <= s.len(),
        s.subrange(a, a + w.len()) == w,
        0 <= k < w.len(),
    ensures
        s[a + k] == w[k],
{
    assert(s.subrange(a, a + w.len())[k] == s[a + k]);
}

/// A run of rendered digits followed by no digit is read back whole.
proof fn lemma_read_digits(s: Seq<char>, a: int, d: Seq<u8>)
    requires
        0 <= a,
        a + d.len() <= s.len(),
        all_digits(d),
        s.subrange(a, a + d.len()) == digit_chars(d),
        a + d.len() == s.len() || !is_digit(s[a + d.len()]),
    ensures
        digits_end(s, a) == a + d.len(),
        digit_seq(s, a, a + d.len()) == d,
    decreases d.len(),
{
    if d.len() > 0 {
        lemma_at(s, a, digit_chars(d), 0);
        lemma_digit_char(d[0] as int);
        assert(s.subrange(a + 1, a + 1 + d.drop_first().len()) =~= digit_chars(d.drop_first())) by {
            assert forall|k: int| 0 <= k < d.len() - 1 implies s.subrange(a + 1, a + d.len())[k] == digit_chars(d.drop_first())[k] by {
                lemma_at(s, a, digit_chars(d), k + 1);
            }
        }
        lemma_read_digits(s, a + 1, d.drop_first());
    }
    assert forall|k: int| 0 <= k < d.len() implies digit_seq(s, a, a + d.len())[k] == d[k] by {
        lemma_at(s, a, digit_chars(d), k);
        lemma_digit_char(d[k] as int);
    }
    assert(digit_seq(s, a, a + d.len()) =~= d);
}

/// The parts of a JSON number literal: a nonempty integer part without
/// leading zeros, decimal digits throughout, and an exponent sign only
/// where there is an exponent.
pub open spec fn valid_parts(
    negative: bool,
    int_digits: Seq<u8>,
    frac_digits: Seq<u8>,
    exp_negative: bool,
    exp_digits: Seq<u8>,
) -> bool {
    &&& int_digits.len() > 0
    &&& int_digits.len() > 1 ==> int_digits[0] != 0
    &&& all_digits(int_digits)
    &&& all_digits(frac_digits)
    &&& all_digits(exp_digits)
    &&& exp_digits.len() == 0 ==> !exp_negative
}

proof fn lemma_digit_chars_not_sign(d: Seq<u8>, k: int)
    requires
        all_digits(d),
        0 <= k < d.len(),
    ensures
        is_digit(digit_chars(d)[k]),
        digit_chars(d)[k] != '-',
        digit_chars(d)[k] != '+',
        digit_chars(d)[k] != '.',
        digit_chars(d)[k] != 'e',
        digit_chars(d)[k] != 'E',
        digit_chars(d)[k] != ' ',
        (digit_chars(d)[k] == '0') == (d[k] == 0),
{
    lemma_digit_char(d[k] as int);
}


/// The canonical text of a number, followed by a space or the end, is
/// scanned back into the token of its parts.
#[verifier::rlimit(60)]
proof fn lemma_scan_number_text(
    s: Seq<char>,
    i: int,
    neg: bool,
    int_digits: Seq<u8>,
    frac: Seq<u8>,
    eneg: bool,
    exp: Seq<u8>,
)
    requires
        valid_parts(neg, int_digits, frac, eneg, exp),
        0 <= i,
        i + number_text(neg, int_digits, frac, eneg, exp).len() <= s.len(),
        s.subrange(i, i + number_text(neg, int_digits, frac, eneg, exp).len()) == number_text(
            neg,
            int_digits,
            frac,
            eneg,
            exp,
        ),
        i + number_text(neg, int_digits, frac, eneg, exp).len() == s.len() || s[i
            + number_text(neg, int_digits, frac, eneg, exp).len()] == ' ',
    ensures
        scan_number(s, i) == Ok::<(TokenView, int), crate::token::Failure>(
            (
                number_token(neg, int_digits, frac, eneg, exp),
                i + number_text(neg, int_digits, frac, eneg, exp).len(),
            ),
        ),
        i < s.len(),
        starts_number(s, i),
        is_digit(s[i]) || s[i] == '-',
{
    let sp: Seq<char> = if neg { seq!['-'] } else { Seq::empty() };
    let d1 = digit_chars(int_digits);
    let f: Seq<char> = if frac.len() > 0 { seq!['.'] + digit_chars(frac) } else { Seq::empty() };
    let es: Seq<char> = if eneg { seq!['-'] } else { Seq::empty() };
    let e: Seq<char> = if exp.len() > 0 { seq!['e'] + es + digit_chars(exp) } else { Seq::empty() };
    let text = number_text(neg, int_digits, frac, eneg, exp);
    assert(text == sp + d1 + f + e);
    lemma_split(s, i, sp + d1 + f, e);
    lemma_split(s, i, sp + d1, f);
    lemma_split(s, i, sp, d1);
    let p = i + sp.len();
    let q = p + int_digits.len();
    let r = q + f.len();
    let end = r + e.len();
    assert(end == i + text.len());
    lemma_at(s, p, d1, 0);
    lemma_digit_chars_not_sign(int_digits, 0);
    if neg {
        lemma_at(s, i, sp, 0);
    }
    if frac.len() > 0 {
        lemma_split(s, q, seq!['.'], digit_chars(frac));
        lemma_at(s, q, seq!['.'], 0);
        lemma_at(s, q + 1, digit_chars(frac), 0);
        lemma_digit_chars_not_sign(frac, 0);
    }
    if exp.len() > 0 {
        lemma_split(s, r, seq!['e'] + es, digit_chars(exp));
        lemma_split(s, r, seq!['e'], es);
        lemma_at(s, r, seq!['e'], 0);
        lemma_at(s, r + 1 + es.len(), digit_chars(exp), 0);
        lemma_digit_chars_not_sign(exp, 0);
        if eneg {
            lemma_at(s, r + 1, es, 0);
        }
        lemma_read_digits(s, r + 1 + es.len(), exp);
    }
    if frac.len() > 0 {
        lemma_read_digits(s, q + 1, frac);
    }
    lemma_read_digits(s, p, int_digits);
    if s[p] == '0' {
        assert(int_digits.len() == 1);
    }
    assert((i < s.len() && s[i] == '-') == neg);
    assert(p < s.len() && is_digit(s[p]));
    assert((if s[p] == '0' { p + 1 } else { digits_end(s, p) }) == q);
    assert(!(q < s.len() && is_digit(s[q])));
    assert((q < s.len() && s[q] == '.') == (frac.len() > 0));
    assert(frac.len() > 0 ==> digits_end(s, q + 1) == r);
    assert((r < s.len() && (s[r] == 'e' || s[r] == 'E')) == (exp.len() > 0));
    assert(exp.len() > 0 ==> ((r + 1 < s.len() && (s[r + 1] == '+' || s[r + 1] == '-')) == eneg));
    assert(exp.len() > 0 ==> digits_end(s, r + 1 + es.len()) == end);
    assert(digit_seq(s, p, q) == int_digits);
    if frac.len() == 0 {
        assert(frac =~= Seq::<u8>::empty());
    }
    if exp.len() == 0 {
        assert(exp =~= Seq::<u8>::empty());
    }
}


/// A character written as an escape sequence is decoded back.
proof fn lemma_scan_escape_char(s: Seq<char>, i: int, c: char)
    requires
        escape_char(c).len() > 1,
        0 <= i,
        i + escape_char(c).len() <= s.len(),
        s.subrange(i, i + escape_char(c).len()) == escape_char(c),
    ensures
        scan_escape(s, i) == Ok::<(char, int), crate::token::Failure>((c, i + escape_char(c).len())),
{
    let e = escape_char(c);
    lemma_at(s, i, e, 0);
    lemma_at(s, i, e, 1);
    if e.len() == 6 {
        let u = c as u32;
        lemma_at(s, i, e, 2);
        lemma_at(s, i, e, 3);
        lemma_at(s, i, e, 4);
        lemma_at(s, i, e, 5);
        lemma_digit_char(0);
        lemma_digit_char((u / 16) as int);
        lemma_digit_char((u % 16) as int);
        reveal_with_fuel(hex_digits, 5);
        assert(hex_digits(s, i + 2, 4) == Ok::<int, crate::token::ErrorKind>(u as int));
        vstd::utf8::char_u32_cast(c, u);
        assert(code_char(u as int) == c);
    }
}

/// Escaped text followed by a closing quote is scanned back into the
/// characters it was made from.
proof fn lemma_scan_escaped(s: Seq<char>, i: int, cs: Seq<char>, acc: Seq<char>)
    requires
        0 <= i,
        i + escape_text(cs).len() < s.len(),
        s.subrange(i, i + escape_text(cs).len()) == escape_text(cs),
        s[i + escape_text(cs).len()] == '"',
    ensures
        scan_string_from(s, i, acc) == Ok::<(TokenView, int), crate::token::Failure>(
            (TokenView::Str(acc + cs), i + escape_text(cs).len() + 1),
        ),
    decreases cs.len(),
{
    if cs.len() == 0 {
        assert(acc + cs =~= acc);
    } else {
        let c = cs[0];
        let e = escape_char(c);
        let rest = cs.drop_first();
        assert(escape_text(cs) == e + escape_text(rest));
        lemma_split(s, i, e, escape_text(rest));
        lemma_at(s, i, e, 0);
        if e.len() > 1 {
            lemma_scan_escape_char(s, i, c);
        }
        lemma_scan_escaped(s, i + e.len(), rest, acc.push(c));
        assert(acc.push(c) + rest =~= acc + cs);
    }
}


proof fn lemma_nat_digits(n: nat)
    ensures
        nat_digits(n).len() > 0,
        n < 10 ==> nat_digits(n).len() == 1,
        n > 0 ==> nat_digits(n)[0] != 0,
        all_digits(nat_digits(n)),
        digits_value(nat_digits(n)) == n,
    decreases n,
{
    if n < 10 {
        assert(nat_digits(n).drop_last() =~= Seq::<u8>::empty());
        assert(digits_value(Seq::<u8>::empty()) == 0);
        assert(nat_digits(n).last() as nat == n);
    } else {
        lemma_nat_digits(n / 10);
        assert(nat_digits(n).drop_last() =~= nat_digits(n / 10));
        assert(nat_digits(n).last() as nat == n % 10);
        assert(n == (n / 10) * 10 + n % 10);
    }
}

/// What the lexer produces: integer tokens fit an `i64`, and a decimal
/// token is made of valid parts and is the token those parts give.
pub open spec fn wf_token(t: TokenView) -> bool {
    match t {
        TokenView::Int(v) => fits_i64(v),
        TokenView::Dec(d) => valid_parts(d.negative, d.int_digits, d.frac_digits, d.exp_negative, d.exp_digits)
            && number_token(d.negative, d.int_digits, d.frac_digits, d.exp_negative, d.exp_digits) == t,
        _ => true,
    }
}

pub(crate) proof fn lemma_wf_digits_valid(t: TokenView)
    requires
        wf_token(t),
    ensures
        digits_valid(t),
{
}

proof fn lemma_keyword_mismatch(s: Seq<char>, i: int, kw: Seq<char>)
    requires
        0 <= i < s.len(),
        kw.len() > 0,
        s[i] != kw[0],
    ensures
        !keyword_at(s, i, kw),
{
    if i + kw.len() <= s.len() {
        assert(s.subrange(i, i + kw.len())[0] == s[i]);
    }
}

/// The canonical text of a token, followed by a space or the end, is
/// scanned back into that token.
proof fn lemma_scan_rendered_token(s: Seq<char>, i: int, t: TokenView)
    requires
        wf_token(t),
        0 <= i,
        i + render_token(t).len() <= s.len(),
        s.subrange(i, i + render_token(t).len()) == render_token(t),
        i + render_token(t).len() == s.len() || s[i + render_token(t).len()] == ' ',
    ensures
        render_token(t).len() > 0,
        !is_whitespace(s[i]),
        scan_token(s, i) == Ok::<(TokenView, int), crate::token::Failure>((t, i + render_token(t).len())),
{
    let rt = render_token(t);
    match t {
        TokenView::Str(cs) => {
            let q = seq!['"'];
            lemma_split(s, i, q + escape_text(cs), q);
            lemma_split(s, i, q, escape_text(cs));
            lemma_at(s, i, q, 0);
            lemma_at(s, i + 1 + escape_text(cs).len(), q, 0);
            lemma_scan_escaped(s, i + 1, cs, Seq::empty());
            assert(Seq::<char>::empty() + cs =~= cs);
        },
        TokenView::Int(v) => {
            let m: nat = if v < 0 { (-v) as nat } else { v as nat };
            lemma_nat_digits(m);
            lemma_scan_number_text(s, i, v < 0, nat_digits(m), Seq::empty(), false, Seq::empty());
        },
        TokenView::Dec(d) => {
            lemma_scan_number_text(s, i, d.negative, d.int_digits, d.frac_digits, d.exp_negative, d.exp_digits);
        },
        TokenView::True => {
            lemma_at(s, i, rt, 0);
            assert(rt == kw_true());
        },
        TokenView::False => {
            lemma_at(s, i, rt, 0);
            assert(rt == kw_false());
            lemma_keyword_mismatch(s, i, kw_true());
        },
        TokenView::Null => {
            lemma_at(s, i, rt, 0);
            assert(rt == kw_null());
            lemma_keyword_mismatch(s, i, kw_true());
            lemma_keyword_mismatch(s, i, kw_false());
        },
        _ => {
            lemma_at(s, i, rt, 0);
        },
    }
}

/// The rendering of well-formed tokens, standing at the end of `s`, lexes
/// back to those tokens.
proof fn lemma_lex_rendered(s: Seq<char>, i: int, ts: Seq<TokenView>)
    requires
        forall|k: int| 0 <= k < ts.len() ==> wf_token(#[trigger] ts[k]),
        0 <= i,
        i + render_seq(ts).len() == s.len(),
        s.subrange(i, s.len() as int) == render_seq(ts),
    ensures
        lex_from(s, i) == Ok::<Seq<TokenView>, crate::token::Failure>(ts),
    decreases ts.len(),
{
    if ts.len() == 0 {
        assert(ts =~= Seq::<TokenView>::empty());
    } else if ts.len() == 1 {
        assert(wf_token(ts[0]));
        lemma_scan_rendered_token(s, i, ts[0]);
        assert(lex_from(s, i + render_token(ts[0]).len()) == Ok::<Seq<TokenView>, crate::token::Failure>(Seq::empty()));
        assert(seq![ts[0]] + Seq::<TokenView>::empty() =~= ts);
    } else {
        let rt = render_token(ts[0]);
        let rest = ts.drop_first();
        assert(wf_token(ts[0]));
        lemma_split(s, i, rt + seq![' '], render_seq(rest));
        lemma_split(s, i, rt, seq![' ']);
        lemma_at(s, i + rt.len(), seq![' '], 0);
        lemma_scan_rendered_token(s, i, ts[0]);
        assert forall|k: int| 0 <= k < rest.len() implies wf_token(#[trigger] rest[k]) by {
            assert(rest[k] == ts[k + 1]);
        }
        lemma_lex_rendered(s, i + rt.len() + 1, rest);
        assert(lex_from(s, i + rt.len()) == lex_from(s, i + rt.len() + 1));
        assert(seq![ts[0]] + rest =~= ts);
    }
}

proof fn lemma_digit_seq_digits(s: Seq<char>, a: int, b: int)
    requires
        0 <= a <= b <= s.len(),
        forall|k: int| a <= k < b ==> is_digit(#[trigger] s[k]),
    ensures
        all_digits(digit_seq(s, a, b)),
        digit_seq(s, a, b).len() == b - a,
{
    assert forall|k: int| 0 <= k < b - a implies #[trigger] digit_seq(s, a, b)[k] < 10 by {
        assert(is_digit(s[a + k]));
    }
}

proof fn lemma_scan_number_wf(s: Seq<char>, i: int)
    requires
        0 <= i < s.len(),
        scan_number(s, i) is Ok,
    ensures
        wf_token(scan_number(s, i)->Ok_0.0),
{
    let negative = i < s.len() && s[i] == '-';
    let p = if negative { i + 1 } else { i };
    lemma_digits_end(s, p);
    lemma_digits_end(s, p + 1);
    let q = if s[p] == '0' { p + 1 } else { digits_end(s, p) };
    lemma_digit_seq_digits(s, p, q);
    if s[p] != '0' {
        let c = s[p];
        vstd::utf8::char_u32_cast(c, c as u32);
        vstd::utf8::char_u32_cast('0', '0' as u32);
        assert(digit_seq(s, p, q)[0] == digit_value(s[p]));
    }
    let has_frac = q < s.len() && s[q] == '.';
    if has_frac {
        lemma_digits_end(s, q + 1);
        lemma_digit_seq_digits(s, q + 1, digits_end(s, q + 1));
    }
    let r = if has_frac { digits_end(s, q + 1) } else { q };
    let has_exp = r < s.len() && (s[r] == 'e' || s[r] == 'E');
    let signed = has_exp && r + 1 < s.len() && (s[r + 1] == '+' || s[r + 1] == '-');
    let t = if signed { r + 2 } else { r + 1 };
    if has_exp {
        lemma_digits_end(s, t);
        lemma_digit_seq_digits(s, t, digits_end(s, t));
    }
}

proof fn lemma_scan_string_is_str(s: Seq<char>, i: int, acc: Seq<char>)
    requires
        scan_string_from(s, i, acc) is Ok,
    ensures
        scan_string_from(s, i, acc)->Ok_0.0 is Str,
    decreases s.len() - i,
{
    if 0 <= i < s.len() && s[i] != '"' {
        if s[i] == '\\' {
            match scan_escape(s, i) {
                Ok((c, j)) => {
                    if i < j <= s.len() {
                        lemma_scan_string_is_str(s, j, acc.push(c));
                    }
                },
                Err(_) => {},
            }
        } else {
            lemma_scan_string_is_str(s, i + 1, acc.push(s[i]));
        }
    }
}

/// Every token the lexer produces is well formed.
pub(crate) proof fn lemma_lex_wf(s: Seq<char>, i: int)
    requires
        lex_from(s, i) is Ok,
    ensures
        forall|k: int| 0 <= k < lex_from(s, i)->Ok_0.len() ==> wf_token(#[trigger] lex_from(s, i)->Ok_0[k]),
    decreases s.len() - i,
{
    if 0 <= i < s.len() {
        if is_whitespace(s[i]) {
            lemma_lex_wf(s, i + 1);
        } else {
            let (t, j) = scan_token(s, i)->Ok_0;
            if s[i] == '"' {
                lemma_scan_string_is_str(s, i + 1, Seq::empty());
            } else if starts_number(s, i) {
                lemma_scan_number_wf(s, i);
            }
            if i < j <= s.len() {
                lemma_lex_wf(s, j);
                let ts = lex_from(s, j)->Ok_0;
                assert forall|k: int| 0 <= k < lex_from(s, i)->Ok_0.len() implies wf_token(#[trigger] lex_from(s, i)->Ok_0[k]) by {
                    if k > 0 {
                        assert(lex_from(s, i)->Ok_0[k] == ts[k - 1]);
                    }
                }
            }
        }
    }
}

/// Re-tokenizing the canonical rendering of a produced token sequence
/// (tokens joined with single spaces) gives the same sequence.
pub proof fn lemma_retokenize_rendering(s: Seq<char>)
    requires
        lex(s) is Ok,
    ensures
        lex(render_seq(lex(s)->Ok_0)) == lex(s),
{
    let ts = lex(s)->Ok_0;
    lemma_lex_wf(s, 0);
    let r = render_seq(ts);
    assert(r.subrange(0, r.len() as int) =~= r);
    lemma_lex_rendered(r, 0, ts);
}


/// A number literal in canonical text lexes to exactly one number token,
/// whose value is the literal's value.
#[verifier::rlimit(50)]
pub proof fn lemma_number_literal(
    negative: bool,
    int_digits: Seq<u8>,
    frac_digits: Seq<u8>,
    exp_negative: bool,
    exp_digits: Seq<u8>,
)
    requires
        valid_parts(negative, int_digits, frac_digits, exp_negative, exp_digits),
    ensures
        lex(number_text(negative, int_digits, frac_digits, exp_negative, exp_digits)) == Ok::<
            Seq<TokenView>,
            crate::token::Failure,
        >(seq![number_token(negative, int_digits, frac_digits, exp_negative, exp_digits)]),
        number_value(number_token(negative, int_digits, frac_digits, exp_negative, exp_digits))
            == decimal_value(negative, int_digits, frac_digits, exp_negative, exp_digits),
{
    let s = number_text(negative, int_digits, frac_digits, exp_negative, exp_digits);
    let t = number_token(negative, int_digits, frac_digits, exp_negative, exp_digits);
    assert(s.subrange(0, s.len() as int) =~= s);
    lemma_scan_number_text(s, 0, negative, int_digits, frac_digits, exp_negative, exp_digits);
    assert(lex_from(s, s.len() as int) == Ok::<Seq<TokenView>, crate::token::Failure>(Seq::empty()));
    assert(seq![t] + Seq::<TokenView>::empty() =~= seq![t]);
    if frac_digits.len() == 0 && exp_digits.len() == 0 {
        assert(int_digits + frac_digits =~= int_digits);
        assert(digits_value(exp_digits) == 0);
    }
}

/// A string literal whose contents are written with the escapes `\\"`,
/// `\\\\`, `\\/`, `\\b`, `\\f`, `\\n`, `\\r`, `\\t` (and `\\u00XX` for other control
/// characters) lexes to one string token holding the decoded text.
pub proof fn lemma_string_literal(cs: Seq<char>)
    ensures
        lex(seq!['"'] + escape_text(cs) + seq!['"']) == Ok::<Seq<TokenView>, crate::token::Failure>(
            seq![TokenView::Str(cs)],
        ),
{
    let s = seq!['"'] + escape_text(cs) + seq!['"'];
    let t = TokenView::Str(cs);
    assert(s == render_token(t));
    assert(s.subrange(0, s.len() as int) =~= s);
    lemma_scan_rendered_token(s, 0, t);
    assert(lex_from(s, s.len() as int) == Ok::<Seq<TokenView>, crate::token::Failure>(Seq::empty()));
    assert(seq![t] + Seq::<TokenView>::empty() =~= seq![t]);
}

} // verus!
