use json_lexer::{
    get_literal, get_number, get_string, json_tokenize, parse_literal, ErrorKind, Number, Token,
};

fn tokens(text: &str) -> Vec<Token> {
    match json_tokenize(text.to_string()) {
        Ok(ts) => ts,
        Err(e) => panic!("unexpected error {:?}", e),
    }
}

fn error(text: &str) -> (ErrorKind, usize) {
    match json_tokenize(text.to_string()) {
        Ok(ts) => panic!("unexpected tokens {:?}", ts),
        Err(e) => (e.kind, e.offset),
    }
}

fn single_int(text: &str) -> i64 {
    let ts = tokens(text);
    assert_eq!(ts.len(), 1);
    match &ts[0] {
        Token::Number(Number::Int(v)) => *v,
        t => panic!("not an integer: {:?}", t),
    }
}

fn single_decimal(text: &str) -> (bool, Vec<u8>, Vec<u8>, bool, Vec<u8>) {
    let ts = tokens(text);
    assert_eq!(ts.len(), 1);
    match &ts[0] {
        Token::Number(Number::Decimal(d)) => (
            d.negative,
            d.int_digits.clone(),
            d.frac_digits.clone(),
            d.exp_negative,
            d.exp_digits.clone(),
        ),
        t => panic!("not a decimal: {:?}", t),
    }
}

fn single_string(text: &str) -> String {
    let ts = tokens(text);
    assert_eq!(ts.len(), 1);
    match &ts[0] {
        Token::Str(s) => s.clone(),
        t => panic!("not a string: {:?}", t),
    }
}

fn chars(text: &str) -> Vec<char> {
    text.chars().collect()
}

#[test]
fn integers_decode_to_their_value() {
    assert_eq!(single_int("42"), 42);
    assert_eq!(single_int("-17"), -17);
    assert_eq!(single_int("1234567890"), 1234567890);
    assert_eq!(single_int("9223372036854775807"), i64::MAX);
    assert_eq!(single_int("-9223372036854775808"), i64::MIN);
}

#[test]
fn integer_overflow_keeps_exact_digits() {
    assert_eq!(
        single_decimal("9223372036854775808"),
        (false, vec![9, 2, 2, 3, 3, 7, 2, 0, 3, 6, 8, 5, 4, 7, 7, 5, 8, 0, 8], vec![], false, vec![])
    );
    assert_eq!(
        single_decimal("-9223372036854775809").1,
        vec![9, 2, 2, 3, 3, 7, 2, 0, 3, 6, 8, 5, 4, 7, 7, 5, 8, 0, 9]
    );
}

#[test]
fn fractions_and_exponents_decode() {
    assert_eq!(single_decimal("2.5"), (false, vec![2], vec![5], false, vec![]));
    assert_eq!(single_decimal("1e10"), (false, vec![1], vec![], false, vec![1, 0]));
    assert_eq!(single_decimal("-3.25E-2"), (true, vec![3], vec![2, 5], true, vec![2]));
    assert_eq!(single_decimal("0.5e+7"), (false, vec![0], vec![5], false, vec![7]));
}

#[test]
fn leading_zero_rules() {
    assert_eq!(error("01"), (ErrorKind::InvalidNumber, 0));
    assert_eq!(single_int("0"), 0);
    assert_eq!(single_int("-0"), 0);
    assert_eq!(error("-012"), (ErrorKind::InvalidNumber, 0));
}

#[test]
fn malformed_numbers_fail() {
    assert_eq!(error("1."), (ErrorKind::InvalidNumber, 0));
    assert_eq!(error("[1.x]"), (ErrorKind::InvalidNumber, 1));
    assert_eq!(error("1e"), (ErrorKind::InvalidNumber, 0));
    assert_eq!(error("1e+"), (ErrorKind::InvalidNumber, 0));
}

#[test]
fn number_scanner_stops_at_next_token() {
    let cs = chars("12,3");
    let mut pos = 0;
    match get_number(&cs, &mut pos) {
        Ok(Token::Number(Number::Int(12))) => {}
        other => panic!("{:?}", other),
    }
    assert_eq!(pos, 2);
}

#[test]
fn bare_minus_is_invalid_number() {
    let cs = chars("-");
    let mut pos = 0;
    match get_number(&cs, &mut pos) {
        Err(e) => assert_eq!((e.kind, e.offset), (ErrorKind::InvalidNumber, 0)),
        other => panic!("{:?}", other),
    }
    assert_eq!(error("-"), (ErrorKind::UnknownLiteral, 0));
}

#[test]
fn simple_escapes_decode() {
    let text = "\"a\\\"b\\\\c\\/d\\be\\ff\\ng\\rh\\ti\"";
    assert_eq!(single_string(text), "a\"b\\c/d\u{8}e\u{c}f\ng\rh\ti");
}

#[test]
fn unicode_escapes_decode() {
    assert_eq!(single_string("\"\\u0041\""), "A");
    assert_eq!(single_string("\"\\u00e9x\""), "\u{e9}x");
    assert_eq!(single_string("\"\\uD83D\\uDE00\""), "\u{1F600}");
    assert_eq!(single_string("\"\\ud83d\\ude00\""), "\u{1F600}");
}

#[test]
fn lone_surrogates_are_invalid_escapes() {
    assert_eq!(error("\"\\uD83D\""), (ErrorKind::InvalidEscape, 1));
    assert_eq!(error("\"\\uDE00\""), (ErrorKind::InvalidEscape, 1));
    assert_eq!(error("\"\\uD83D\\u0041\""), (ErrorKind::InvalidEscape, 1));
}

#[test]
fn bad_escapes_fail() {
    assert_eq!(error("\"\\x\""), (ErrorKind::InvalidEscape, 1));
    assert_eq!(error("\"\\u12G4\""), (ErrorKind::InvalidEscape, 1));
    assert_eq!(error("\"\\u12"), (ErrorKind::UnterminatedString, 5));
}

#[test]
fn unterminated_string_fails_at_end() {
    assert_eq!(error("\"abc"), (ErrorKind::UnterminatedString, 4));
    assert_eq!(error("\"abc\\"), (ErrorKind::UnterminatedString, 5));
}

#[test]
fn control_character_in_string_fails() {
    assert_eq!(error("\"a\nb\""), (ErrorKind::UnexpectedCharacter, 2));
}

#[test]
fn string_scanner_leaves_cursor_after_quote() {
    let cs = chars("\"ab\" 1");
    let mut pos = 1;
    match get_string(&cs, &mut pos) {
        Ok(Token::Str(s)) => assert_eq!(s, "ab"),
        other => panic!("{:?}", other),
    }
    assert_eq!(pos, 4);
}

#[test]
fn unknown_literals_fail() {
    assert_eq!(error("nul"), (ErrorKind::UnknownLiteral, 0));
    assert_eq!(error("truefoo"), (ErrorKind::UnknownLiteral, 0));
    assert_eq!(error("nullable"), (ErrorKind::UnknownLiteral, 0));
    assert_eq!(error("[1, @]"), (ErrorKind::UnknownLiteral, 4));
}

#[test]
fn literal_scanner_matches_exact_keywords() {
    let cs = chars("false]");
    let mut pos = 0;
    match get_literal(&cs, &mut pos) {
        Ok(Token::False) => {}
        other => panic!("{:?}", other),
    }
    assert_eq!(pos, 5);
    assert!(parse_literal(&cs, 0, &chars("false")));
    assert!(!parse_literal(&cs, 0, &chars("fals")));
    assert!(!parse_literal(&cs, 1, &chars("false")));
}

#[test]
fn keywords_tokenize() {
    let ts = tokens("true false null");
    assert_eq!(ts.len(), 3);
    assert!(matches!(ts[0], Token::True));
    assert!(matches!(ts[1], Token::False));
    assert!(matches!(ts[2], Token::Null));
}

#[test]
fn whitespace_only_gives_no_tokens() {
    assert_eq!(tokens("").len(), 0);
    assert_eq!(tokens(" \t\n\r ").len(), 0);
}

#[test]
fn object_with_array_tokenizes_exactly() {
    let ts = tokens("{\"a\": [1, 2.5, true, null, \"x\"]}");
    assert_eq!(ts.len(), 15);
    assert!(matches!(ts[0], Token::OpenBrace));
    assert!(matches!(&ts[1], Token::Str(s) if s == "a"));
    assert!(matches!(ts[2], Token::Colon));
    assert!(matches!(ts[3], Token::OpenBracket));
    assert!(matches!(ts[4], Token::Number(Number::Int(1))));
    assert!(matches!(ts[5], Token::Comma));
    match &ts[6] {
        Token::Number(Number::Decimal(d)) => {
            assert!(!d.negative);
            assert_eq!(d.int_digits, vec![2]);
            assert_eq!(d.frac_digits, vec![5]);
            assert!(d.exp_digits.is_empty());
        }
        t => panic!("{:?}", t),
    }
    assert!(matches!(ts[7], Token::Comma));
    assert!(matches!(ts[8], Token::True));
    assert!(matches!(ts[9], Token::Comma));
    assert!(matches!(ts[10], Token::Null));
    assert!(matches!(ts[11], Token::Comma));
    assert!(matches!(&ts[12], Token::Str(s) if s == "x"));
    assert!(matches!(ts[13], Token::CloseBracket));
    assert!(matches!(ts[14], Token::CloseBrace));
}

#[test]
fn error_stops_tokenization() {
    assert_eq!(error("[1, 2, \"open"), (ErrorKind::UnterminatedString, 12));
}

#[test]
fn error_message_is_readable() {
    match json_tokenize("\"abc".to_string()) {
        Err(e) => assert_eq!(e.to_string(), e.message),
        Ok(ts) => panic!("{:?}", ts),
    }
}
