use json_keymap::query::{query, ParseError, ParseFailure};

fn failed(rest: &str, reason: ParseFailure) -> Result<(&str, Vec<&str>), ParseError<'_>> {
    Err(ParseError { rest, reason })
}

#[test]
fn parse_query() {
    assert_eq!(query(".a.b.v"), Ok(("", vec!["a", "b", "v"])));
    assert_eq!(query("a.b.v"), failed("a.b.v", ParseFailure::MissingDot));
}

#[test]
fn parse_quoted_query() {
    assert_eq!(query(".a.\"b\".v"), Ok(("", vec!["a", "b", "v"])));
    assert_eq!(query("a.\"b\".v"), failed("a.\"b\".v", ParseFailure::MissingDot));
}

#[test]
fn parse_quoted_dot_query() {
    assert_eq!(query(".a.\"b.b\".v"), Ok(("", vec!["a", "b.b", "v"])));
    assert_eq!(query("a.\"b.b\".v"), failed("a.\"b.b\".v", ParseFailure::MissingDot));
}

#[test]
fn parse_quoted_dot_query2() {
    assert_eq!(
        query(".a.\"b\n.\t  b\".v"),
        Ok(("", vec!["a", "b\n.\t  b", "v"]))
    );
    assert_eq!(
        query("a.\"b\n.\t  b\".v"),
        failed("a.\"b\n.\t  b\".v", ParseFailure::MissingDot)
    );
}

#[test]
fn quoted_segment_keeps_its_dot() {
    assert_eq!(query(".a.\"b.b\""), Ok(("", vec!["a", "b.b"])));
}

#[test]
fn bare_dot_is_the_empty_path() {
    assert_eq!(query("."), Ok(("", vec![])));
}

#[test]
fn empty_query_misses_its_dot() {
    assert_eq!(query(""), failed("", ParseFailure::MissingDot));
}

#[test]
fn two_dots_do_not_parse() {
    assert_eq!(query(".."), failed(".", ParseFailure::TrailingInput));
    assert_eq!(query(".a..b"), failed("..b", ParseFailure::TrailingInput));
}

#[test]
fn trailing_dot_does_not_parse() {
    assert_eq!(query(".a."), failed(".", ParseFailure::TrailingInput));
}

#[test]
fn empty_quoted_segment_is_an_empty_key() {
    assert_eq!(query(".\"\""), Ok(("", vec![""])));
    assert_eq!(query(".a.\"\".b"), Ok(("", vec!["a", "", "b"])));
}

#[test]
fn open_quote_does_not_parse() {
    assert_eq!(query(".\"a"), failed("\"a", ParseFailure::TrailingInput));
    assert_eq!(query(".a.\"b"), failed(".\"b", ParseFailure::TrailingInput));
}

#[test]
fn blank_ends_a_bare_segment() {
    assert_eq!(query(".a b"), failed(" b", ParseFailure::TrailingInput));
    assert_eq!(query(".a\tb"), failed("\tb", ParseFailure::TrailingInput));
    assert_eq!(query(".a\nb"), failed("\nb", ParseFailure::TrailingInput));
}

#[test]
fn text_after_a_quoted_segment_does_not_parse() {
    assert_eq!(query(".\"a\"b"), failed("b", ParseFailure::TrailingInput));
    assert_eq!(query(".a\"b\""), failed("\"b\"", ParseFailure::TrailingInput));
}

#[test]
fn segments_may_hold_characters_of_several_bytes() {
    assert_eq!(query(".né.\"日本.語\".ü"), Ok(("", vec!["né", "日本.語", "ü"])));
    assert_eq!(query(".né é"), failed(" é", ParseFailure::TrailingInput));
}

#[test]
fn parse_error_message_names_the_rest() {
    let e = ParseError { rest: "a.b", reason: ParseFailure::MissingDot };
    assert_eq!(e.message(), "expected '.' at: a.b");
    let e = ParseError { rest: " x", reason: ParseFailure::TrailingInput };
    assert_eq!(e.message(), "unexpected input at:  x");
}
