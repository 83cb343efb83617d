use config::token_stream::{Token, TokenStream};

#[test]
fn test_simple_token_stream() {
    let mut s = TokenStream::new("key arg0 arg1;");

    assert_eq!(s.next().unwrap(), Token::Val("key"));
    assert_eq!(s.next().unwrap(), Token::Val("arg0"));
    assert_eq!(s.next().unwrap(), Token::Val("arg1"));
    assert_eq!(s.next().unwrap(), Token::DirectiveEntire);
    assert_eq!(s.next(), None);
}

#[test]
fn test_block_token_stream() {
    let mut s = TokenStream::new("key val { hello; }");
    assert_eq!(s.next().unwrap(), Token::Val("key"));
    assert_eq!(s.next().unwrap(), Token::Val("val"));
    assert_eq!(s.next().unwrap(), Token::DirectiveBlockStart);
    assert_eq!(s.next().unwrap(), Token::Val("hello"));
    assert_eq!(s.next().unwrap(), Token::DirectiveEntire);
    assert_eq!(s.next().unwrap(), Token::DirectiveBlockEnd);
    assert_eq!(s.next(), None);
}

fn drain(buf: &str) -> Vec<Token<'_>> {
    let mut s = TokenStream::new(buf);
    let mut v = Vec::new();
    while let Some(t) = s.next() {
        v.push(t);
    }
    v
}

#[test]
fn drain_twice_identical() {
    let buf = "key val { hello; }\n# note\nlast one;";
    assert_eq!(drain(buf), drain(buf));
}

#[test]
fn comment_consumes_through_line_end() {
    assert_eq!(
        drain("# comment\na b;"),
        vec![Token::Val("a"), Token::Val("b"), Token::DirectiveEntire]
    );
}

#[test]
fn comment_without_newline_runs_to_end() {
    assert_eq!(drain("a;# trailing"), vec![Token::Val("a"), Token::DirectiveEntire]);
}

#[test]
fn line_end_is_a_token_and_drops_pending_words() {
    assert_eq!(
        drain("a\nb;"),
        vec![Token::LineEnd, Token::Val("b"), Token::DirectiveEntire]
    );
    assert_eq!(
        drain("a \nb;"),
        vec![Token::Val("a"), Token::LineEnd, Token::Val("b"), Token::DirectiveEntire]
    );
}

#[test]
fn tab_separates_words() {
    assert_eq!(
        drain("a\tb;"),
        vec![Token::Val("a"), Token::Val("b"), Token::DirectiveEntire]
    );
}

#[test]
fn pending_word_dropped_at_end_of_input() {
    assert_eq!(drain("abc"), Vec::<Token>::new());
    assert_eq!(drain("a b"), vec![Token::Val("a")]);
}

#[test]
fn block_end_drops_pending_word() {
    assert_eq!(drain("a}"), vec![Token::DirectiveBlockEnd]);
}

#[test]
fn eof_repeats_after_exhaustion() {
    let mut s = TokenStream::new(";");
    assert_eq!(s.next_token(), Token::DirectiveEntire);
    assert_eq!(s.next_token(), Token::EOF);
    assert_eq!(s.next_token(), Token::EOF);
}

#[test]
fn empty_input_is_empty() {
    assert_eq!(drain(""), Vec::<Token>::new());
}
