use vstd::prelude::*;

verus! {

/// The kinds of failure that end a tokenization.
#[derive(Clone, Copy, Debug, PartialEq, Eq, Structural)]
pub enum ErrorKind {
    /// The input ends inside a string; reported at the end of the input.
    UnterminatedString,
    /// A backslash followed by something other than a JSON escape, or a
    /// `\u` escape that is a lone surrogate; reported at the backslash.
    InvalidEscape,
    /// A number lexeme that breaks the JSON number grammar; reported where
    /// the number starts.
    InvalidNumber,
    /// None of `true`, `false`, `null` stands at this place on its own;
    /// reported where the candidate starts.
    UnknownLiteral,
    /// An unescaped control character (below U+0020) inside a string;
    /// reported at that character.
    UnexpectedCharacter,
}

/// What a failure is, as far as contracts are concerned: its kind and the
/// character offset it is reported at.
pub struct Failure {
    pub kind: ErrorKind,
    pub offset: int,
}

pub open spec fn failure(kind: ErrorKind, offset: int) -> Failure {
    Failure { kind, offset }
}

/// A tokenization error: kind, character offset into the input, and a
/// message for people.
#[derive(Clone, Debug)]
pub struct LexerError {
    pub kind: ErrorKind,
    pub offset: usize,
    pub message: String,
}

impl View for LexerError {
    type V = Failure;

    open spec fn view(&self) -> Failure {
        Failure { kind: self.kind, offset: self.offset as int }
    }
}

impl LexerError {
    pub fn new(kind: ErrorKind, offset: usize, message: String) -> (r: LexerError)
        ensures
            r.kind == kind,
            r.offset == offset,
            r.message@ == message@,
    {
        LexerError { kind, offset, message }
    }

    /// The error's message, as it is shown to people.
    pub fn to_string(&self) -> (r: String)
        ensures
            r@ == self.message@,
    {
        self.message.clone()
    }
}


/// An exactly kept JSON number that is not held as an `i64`: it has a
/// fraction or an exponent, or its integer part does not fit. Digits are
/// stored as their values 0 to 9; an empty `frac_digits` or `exp_digits`
/// means that part is absent.
#[derive(Clone, Debug)]
pub struct Decimal {
    pub negative: bool,
    pub int_digits: Vec<u8>,
    pub frac_digits: Vec<u8>,
    pub exp_negative: bool,
    pub exp_digits: Vec<u8>,
}

pub struct DecimalView {
    pub negative: bool,
    pub int_digits: Seq<u8>,
    pub frac_digits: Seq<u8>,
    pub exp_negative: bool,
    pub exp_digits: Seq<u8>,
}

impl View for Decimal {
    type V = DecimalView;

    open spec fn view(&self) -> DecimalView {
        DecimalView {
            negative: self.negative,
            int_digits: self.int_digits@,
            frac_digits: self.frac_digits@,
            exp_negative: self.exp_negative,
            exp_digits: self.exp_digits@,
        }
    }
}

/// A decoded number: integral literals that fit are `Int`, everything else
/// is `Decimal`.
#[derive(Clone, Debug)]
pub enum Number {
    Int(i64),
    Decimal(Decimal),
}

/// One lexical unit of JSON text.
#[derive(Clone, Debug)]
pub enum Token {
    Str(String),
    Number(Number),
    Comma,
    Colon,
    OpenBracket,
    CloseBracket,
    OpenBrace,
    CloseBrace,
    True,
    False,
    Null,
}

pub enum TokenView {
    Str(Seq<char>),
    Int(int),
    Dec(DecimalView),
    Comma,
    Colon,
    OpenBracket,
    CloseBracket,
    OpenBrace,
    CloseBrace,
    True,
    False,
    Null,
}

impl View for Token {
    type V = TokenView;

    open spec fn view(&self) -> TokenView {
        match self {
            Token::Str(s) => TokenView::Str(s@),
            Token::Number(Number::Int(v)) => TokenView::Int(*v as int),
            Token::Number(Number::Decimal(d)) => TokenView::Dec(d@),
            Token::Comma => TokenView::Comma,
            Token::Colon => TokenView::Colon,
            Token::OpenBracket => TokenView::OpenBracket,
            Token::CloseBracket => TokenView::CloseBracket,
            Token::OpenBrace => TokenView::OpenBrace,
            Token::CloseBrace => TokenView::CloseBrace,
            Token::True => TokenView::True,
            Token::False => TokenView::False,
            Token::Null => TokenView::Null,
        }
    }
}

pub open spec fn tokens_view(ts: Seq<Token>) -> Seq<TokenView> {
    ts.map_values(|t: Token| t@)
}

/// The spec-level outcome of a scanner: the token and the offset just past it.
pub open spec fn outcome(r: Result<Token, LexerError>, end: usize) -> Result<(TokenView, int), Failure> {
    match r {
        Ok(t) => Ok((t@, end as int)),
        Err(e) => Err(e@),
    }
}

} // verus!
