use vstd::prelude::*;
use crate::token::{Token, TokenView, Number, Decimal, tokens_view};
use crate::laws::{wf_token, lemma_wf_digits_valid};

verus! {

pub open spec fn digit_char(d: int) -> char {
    seq!['0', '1', '2', '3', '4', '5', '6', '7', '8', '9'][d]
}

pub open spec fn hex_char(d: int) -> char {
    seq!['0', '1', '2', '3', '4', '5', '6', '7', '8', '9', 'a', 'b', 'c', 'd', 'e', 'f'][d]
}

pub open spec fn digit_chars(d: Seq<u8>) -> Seq<char> {
    d.map_values(|x: u8| digit_char(x as int))
}

/// The decimal digits of `n`, most significant first, without leading zeros.
pub open spec fn nat_digits(n: nat) -> Seq<u8>
    decreases n,
{
    if n < 10 {
        seq![n as u8]
    } else {
        nat_digits(n / 10).push((n % 10) as u8)
    }
}

/// The canonical text of a number literal made of the given parts.
pub open spec fn number_text(
    negative: bool,
    int_digits: Seq<u8>,
    frac_digits: Seq<u8>,
    exp_negative: bool,
    exp_digits: Seq<u8>,
) -> Seq<char> {
    (if negative { seq!['-'] } else { Seq::empty() }) + digit_chars(int_digits) + (if frac_digits.len()
        > 0 {
        seq!['.'] + digit_chars(frac_digits)
    } else {
        Seq::empty()
    }) + (if exp_digits.len() > 0 {
        seq!['e'] + (if exp_negative { seq!['-'] } else { Seq::empty() }) + digit_chars(exp_digits)
    } else {
        Seq::empty()
    })
}

/// How one character is written inside a string literal.
pub open spec fn escape_char(c: char) -> Seq<char> {
    if c == '"' {
        seq!['\\', '"']
    } else if c == '\\' {
        seq!['\\', '\\']
    } else if c == '/' {
        seq!['\\', '/']
    } else if c == '\x08' {
        seq!['\\', 'b']
    } else if c == '\x0c' {
        seq!['\\', 'f']
    } else if c == '\n' {
        seq!['\\', 'n']
    } else if c == '\r' {
        seq!['\\', 'r']
    } else if c == '\t' {
        seq!['\\', 't']
    } else if c <= '\x1f' {
        seq!['\\', 'u', '0', '0', hex_char((c as u32 / 16) as int), hex_char((c as u32 % 16) as int)]
    } else {
        seq![c]
    }
}

pub open spec fn escape_text(cs: Seq<char>) -> Seq<char>
    decreases cs.len(),
{
    if cs.len() == 0 {
        Seq::empty()
    } else {
        escape_char(cs[0]) + escape_text(cs.drop_first())
    }
}

/// The canonical text of one token.
pub open spec fn render_token(t: TokenView) -> Seq<char> {
    match t {
        TokenView::Str(cs) => seq!['"'] + escape_text(cs) + seq!['"'],
        TokenView::Int(v) => number_text(v < 0, nat_digits(if v < 0 { (-v) as nat } else { v as nat }), Seq::empty(), false, Seq::empty()),
        TokenView::Dec(d) => number_text(d.negative, d.int_digits, d.frac_digits, d.exp_negative, d.exp_digits),
        TokenView::Comma => seq![','],
        TokenView::Colon => seq![':'],
        TokenView::OpenBracket => seq!['['],
        TokenView::CloseBracket => seq![']'],
        TokenView::OpenBrace => seq!['{'],
        TokenView::CloseBrace => seq!['}'],
        TokenView::True => seq!['t', 'r', 'u', 'e'],
        TokenView::False => seq!['f', 'a', 'l', 's', 'e'],
        TokenView::Null => seq!['n', 'u', 'l', 'l'],
    }
}

/// The canonical texts of the tokens joined with single spaces.
pub open spec fn render_seq(ts: Seq<TokenView>) -> Seq<char>
    decreases ts.len(),
{
    if ts.len() == 0 {
        Seq::empty()
    } else if ts.len() == 1 {
        render_token(ts[0])
    } else {
        render_token(ts[0]) + seq![' '] + render_seq(ts.drop_first())
    }
}

fn push_str_chars(out: &mut String, cs: &Vec<char>)
    ensures
        final(out)@ == old(out)@ + cs@,
{
    let mut k: usize = 0;
    while k < cs.len()
        invariant
            k <= cs.len(),
            out@ == old(out)@ + cs@.take(k as int),
        decreases cs.len() - k,
    {
        out.push(cs[k]);
        k = k + 1;
        assert(cs@.take(k as int) =~= cs@.take(k - 1).push(cs@[k - 1]));
    }
    assert(cs@.take(cs.len() as int) =~= cs@);
}

fn digit_char_exec(d: u8) -> (c: char)
    requires
        d < 16,
    ensures
        c == hex_char(d as int),
        d < 10 ==> c == digit_char(d as int),
{
    let table = vec!['0', '1', '2', '3', '4', '5', '6', '7', '8', '9', 'a', 'b', 'c', 'd', 'e', 'f'];
    table[d as usize]
}

fn push_digits(out: &mut String, d: &Vec<u8>)
    requires
        all_digits(d@),
    ensures
        final(out)@ == old(out)@ + digit_chars(d@),
{
    let mut k: usize = 0;
    while k < d.len()
        invariant
            k <= d.len(),
            forall|j: int| 0 <= j < d.len() ==> d@[j] < 10,
            out@ == old(out)@ + digit_chars(d@.take(k as int)),
        decreases d.len() - k,
    {
        out.push(digit_char_exec(d[k]));
        k = k + 1;
        assert(digit_chars(d@.take(k as int)) =~= digit_chars(d@.take(k - 1)).push(digit_char(d@[k - 1] as int)));
    }
    assert(d@.take(d.len() as int) =~= d@);
}

fn push_nat(out: &mut String, n: u64)
    ensures
        final(out)@ == old(out)@ + digit_chars(nat_digits(n as nat)),
    decreases n,
{
    if n >= 10 {
        push_nat(out, n / 10);
        assert(digit_chars(nat_digits(n as nat)) =~= digit_chars(nat_digits((n / 10) as nat)).push(digit_char((n % 10) as int)));
    } else {
        assert(digit_chars(nat_digits(n as nat)) =~= seq![digit_char(n as int)]);
    }
    out.push(digit_char_exec((n % 10) as u8));
}

fn push_escaped(out: &mut String, c: char)
    ensures
        final(out)@ == old(out)@ + escape_char(c),
{
    if c == '"' {
        out.push('\\');
        out.push('"');
    } else if c == '\\' {
        out.push('\\');
        out.push('\\');
    } else if c == '/' {
        out.push('\\');
        out.push('/');
    } else if c == '\x08' {
        out.push('\\');
        out.push('b');
    } else if c == '\x0c' {
        out.push('\\');
        out.push('f');
    } else if c == '\n' {
        out.push('\\');
        out.push('n');
    } else if c == '\r' {
        out.push('\\');
        out.push('r');
    } else if c == '\t' {
        out.push('\\');
        out.push('t');
    } else if c <= '\x1f' {
        let u = c as u32;
        out.push('\\');
        out.push('u');
        out.push('0');
        out.push('0');
        out.push(digit_char_exec((u / 16) as u8));
        out.push(digit_char_exec((u % 16) as u8));
    } else {
        out.push(c);
        return;
    }
    assert(out@ =~= old(out)@ + escape_char(c));
}


pub open spec fn all_digits(d: Seq<u8>) -> bool {
    forall|k: int| 0 <= k < d.len() ==> d[k] < 10
}

/// Every digit a token holds is a decimal digit value.
pub open spec fn digits_valid(t: TokenView) -> bool {
    match t {
        TokenView::Dec(d) => all_digits(d.int_digits) && all_digits(d.frac_digits) && all_digits(
            d.exp_digits,
        ),
        _ => true,
    }
}

proof fn lemma_escape_push(a: Seq<char>, c: char)
    ensures
        escape_text(a.push(c)) == escape_text(a) + escape_char(c),
    decreases a.len(),
{
    if a.len() == 0 {
        assert(a.push(c).drop_first() =~= Seq::<char>::empty());
        assert(escape_text(Seq::<char>::empty()) == Seq::<char>::empty());
        assert(escape_text(a.push(c)) =~= escape_char(c));
    } else {
        lemma_escape_push(a.drop_first(), c);
        assert(a.push(c).drop_first() =~= a.drop_first().push(c));
        assert(escape_text(a.push(c)) =~= escape_text(a) + escape_char(c));
    }
}

fn push_string(out: &mut String, s: &String)
    ensures
        final(out)@ == old(out)@ + render_token(TokenView::Str(s@)),
{
    let ghost start = out@;
    let ghost cs = s@;
    out.push('"');
    let ghost mid = out@;
    let n = s.as_str().unicode_len();
    let mut k: usize = 0;
    while k < n
        invariant
            cs == s@,
            n == cs.len(),
            k <= n,
            out@ == mid + escape_text(cs.take(k as int)),
        decreases n - k,
    {
        push_escaped(out, s.as_str().get_char(k));
        proof {
            lemma_escape_push(cs.take(k as int), cs[k as int]);
            assert(cs.take(k + 1) =~= cs.take(k as int).push(cs[k as int]));
        }
        k = k + 1;
    }
    assert(cs.take(n as int) =~= cs);
    out.push('"');
    assert(out@ =~= start + render_token(TokenView::Str(s@)));
}

fn push_int(out: &mut String, v: i64)
    ensures
        final(out)@ == old(out)@ + render_token(TokenView::Int(v as int)),
{
    let ghost start = out@;
    let m: u64 = if v == i64::MIN {
        9223372036854775808u64
    } else if v < 0 {
        (-v) as u64
    } else {
        v as u64
    };
    if v < 0 {
        out.push('-');
    }
    push_nat(out, m);
    assert(out@ =~= start + render_token(TokenView::Int(v as int)));
}

fn push_decimal(out: &mut String, d: &Decimal)
    requires
        digits_valid(TokenView::Dec(d@)),
    ensures
        final(out)@ == old(out)@ + render_token(TokenView::Dec(d@)),
{
    let ghost start = out@;
    if d.negative {
        out.push('-');
    }
    push_digits(out, &d.int_digits);
    if d.frac_digits.len() > 0 {
        out.push('.');
        push_digits(out, &d.frac_digits);
    }
    if d.exp_digits.len() > 0 {
        out.push('e');
        if d.exp_negative {
            out.push('-');
        }
        push_digits(out, &d.exp_digits);
    }
    assert(out@ =~= start + render_token(TokenView::Dec(d@)));
}

fn push_token(out: &mut String, t: &Token)
    requires
        digits_valid(t@),
    ensures
        final(out)@ == old(out)@ + render_token(t@),
{
    let ghost start = out@;
    match t {
        Token::Str(s) => push_string(out, s),
        Token::Number(Number::Int(v)) => push_int(out, *v),
        Token::Number(Number::Decimal(d)) => push_decimal(out, d),
        Token::Comma => out.push(','),
        Token::Colon => out.push(':'),
        Token::OpenBracket => out.push('['),
        Token::CloseBracket => out.push(']'),
        Token::OpenBrace => out.push('{'),
        Token::CloseBrace => out.push('}'),
        Token::True => {
            out.push('t');
            out.push('r');
            out.push('u');
            out.push('e');
        },
        Token::False => {
            out.push('f');
            out.push('a');
            out.push('l');
            out.push('s');
            out.push('e');
        },
        Token::Null => {
            out.push('n');
            out.push('u');
            out.push('l');
            out.push('l');
        },
    }
    assert(out@ =~= start + render_token(t@));
}

/// The canonical textual form of a token sequence: each token's canonical
/// text, joined with single spaces.
pub fn render_tokens(tokens: &Vec<Token>) -> (r: String)
    requires
        forall|k: int| 0 <= k < tokens.len() ==> wf_token(#[trigger] tokens@[k]@),
    ensures
        r@ == render_seq(tokens_view(tokens@)),
{
    let ghost ts = tokens_view(tokens@);
    let mut out = String::new();
    let mut k: usize = 0;
    while k < tokens.len()
        invariant
            k <= tokens.len(),
            ts == tokens_view(tokens@),
            forall|j: int| 0 <= j < tokens.len() ==> wf_token(#[trigger] tokens@[j]@),
            k == 0 ==> out@ == Seq::<char>::empty(),
            k > 0 ==> render_seq(ts) == out@ + if k < ts.len() {
                seq![' '] + render_seq(ts.subrange(k as int, ts.len() as int))
            } else {
                Seq::empty()
            },
        decreases tokens.len() - k,
    {
        let ghost before = out@;
        if k > 0 {
            out.push(' ');
        }
        proof {
            lemma_wf_digits_valid(tokens@[k as int]@);
        }
        push_token(&mut out, &tokens[k]);
        proof {
            let rest = ts.subrange(k as int, ts.len() as int);
            assert(rest.drop_first() =~= ts.subrange(k + 1, ts.len() as int));
            assert(rest[0] == tokens@[k as int]@);
            if k == 0 {
                assert(rest =~= ts);
            }
        }
        k = k + 1;
    }
    proof {
        if tokens.len() == 0 {
            assert(ts.len() == 0);
        }
    }
    out
}

} // verus!
