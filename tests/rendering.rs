use json_lexer::{json_tokenize, render_tokens, Token};

fn tokens(text: &str) -> Vec<Token> {
    match json_tokenize(text.to_string()) {
        Ok(ts) => ts,
        Err(e) => panic!("unexpected error {:?}", e),
    }
}

fn rendered(text: &str) -> String {
    render_tokens(&tokens(text))
}

fn assert_round_trip(text: &str) {
    let first = tokens(text);
    let again = tokens(&render_tokens(&first));
    assert_eq!(format!("{:?}", first), format!("{:?}", again));
}

#[test]
fn object_renders_with_single_spaces() {
    assert_eq!(
        rendered("{\"a\": [1, 2.5, true, null, \"x\"]}"),
        "{ \"a\" : [ 1 , 2.5 , true , null , \"x\" ] }"
    );
}

#[test]
fn numbers_render_canonically() {
    assert_eq!(rendered("-17"), "-17");
    assert_eq!(rendered("-0"), "0");
    assert_eq!(rendered("-9223372036854775808"), "-9223372036854775808");
    assert_eq!(rendered("3.25E+02"), "3.25e02");
    assert_eq!(rendered("-1e-7"), "-1e-7");
    assert_eq!(rendered("18446744073709551616"), "18446744073709551616");
}

#[test]
fn strings_render_with_escapes() {
    assert_eq!(rendered("\"a\\u0001/\\\"\\\\\""), "\"a\\u0001\\/\\\"\\\\\"");
    assert_eq!(rendered("\"\\b\\f\\n\\r\\t\""), "\"\\b\\f\\n\\r\\t\"");
    assert_eq!(rendered("\"\\uD83D\\uDE00\""), "\"\u{1F600}\"");
}

#[test]
fn empty_sequence_renders_empty() {
    assert_eq!(rendered("  "), "");
}

#[test]
fn retokenizing_rendering_gives_same_tokens() {
    assert_round_trip("{\"a\": [1, 2.5, true, null, \"x\"]}");
    assert_round_trip("[-0.5e-10, 0, -9223372036854775808, 99999999999999999999]");
    assert_round_trip("\"esc \\\" \\\\ \\/ \\b \\f \\n \\r \\t \\u001f \\u00e9 \\uD83D\\uDE00\"");
    assert_round_trip("{\"k\":{\"l\":[false,true,null]}}");
}
