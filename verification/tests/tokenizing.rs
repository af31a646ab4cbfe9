use nadi_tasks::token::{tokenize, TokenKind, LexErrorKind};

#[test]
fn empty_input_gives_no_tokens() {
    let toks = tokenize("").unwrap();
    assert_eq!(toks.len(), 0);
}

#[test]
fn simple_call_token_kinds() {
    let toks = tokenize("foo(1, \"x\")").unwrap();
    let kinds: Vec<TokenKind> = toks.iter().map(|t| t.kind).collect();
    assert_eq!(
        kinds,
        vec![
            TokenKind::Ident,
            TokenKind::LParen,
            TokenKind::Int,
            TokenKind::Comma,
            TokenKind::Whitespace,
            TokenKind::Str,
            TokenKind::RParen,
        ]
    );
    assert_eq!(toks[0].text, "foo");
    assert_eq!(toks[2].text, "1");
    assert_eq!(toks[5].text, "\"x\"");
}

#[test]
fn concatenation_of_token_texts_is_the_input() {
    let src = "node.set_attr(node=\"A\", key=\"x\", value=1) # done\n";
    let toks = tokenize(src).unwrap();
    let mut joined = String::new();
    for t in &toks {
        joined.push_str(&t.text);
    }
    assert_eq!(joined, src);
}

#[test]
fn positions_are_one_based_lines_and_columns() {
    let toks = tokenize("a\nbb cc").unwrap();
    // a, newline, bb, space, cc
    assert_eq!((toks[0].line, toks[0].col), (1, 1));
    assert_eq!((toks[1].line, toks[1].col), (1, 2));
    assert_eq!((toks[2].line, toks[2].col), (2, 1));
    assert_eq!((toks[3].line, toks[3].col), (2, 3));
    assert_eq!((toks[4].line, toks[4].col), (2, 4));
}

#[test]
fn multi_line_string_advances_lines() {
    let toks = tokenize("\"a\nb\" x").unwrap();
    assert_eq!(toks[0].kind, TokenKind::Str);
    // the token after the two-line string sits on line 2
    assert_eq!((toks[2].line, toks[2].col), (2, 4));
    assert_eq!(toks[2].text, "x");
}

#[test]
fn offsets_cover_the_text() {
    let toks = tokenize("ab 12").unwrap();
    assert_eq!((toks[0].start, toks[0].end), (0, 2));
    assert_eq!((toks[1].start, toks[1].end), (2, 3));
    assert_eq!((toks[2].start, toks[2].end), (3, 5));
}

#[test]
fn unterminated_string_is_a_lex_error() {
    let e = tokenize("foo(\"abc").unwrap_err();
    assert_eq!(e.kind, LexErrorKind::UnterminatedString);
    assert_eq!(e.line, 1);
    assert_eq!(e.col, 5);
}

#[test]
fn escaped_quote_does_not_terminate() {
    let toks = tokenize("\"a\\\"b\"").unwrap();
    assert_eq!(toks.len(), 1);
    assert_eq!(toks[0].kind, TokenKind::Str);
    assert_eq!(toks[0].text, "\"a\\\"b\"");
}

#[test]
fn invalid_character_is_a_lex_error() {
    let e = tokenize("foo(~)").unwrap_err();
    assert_eq!(e.kind, LexErrorKind::InvalidCharacter);
    assert_eq!(e.line, 1);
    assert_eq!(e.col, 5);
}

#[test]
fn invalid_character_position_after_newline() {
    let e = tokenize("ok()\n  ~").unwrap_err();
    assert_eq!(e.kind, LexErrorKind::InvalidCharacter);
    assert_eq!(e.line, 2);
    assert_eq!(e.col, 3);
}

#[test]
fn comment_runs_to_end_of_line() {
    let toks = tokenize("# a comment ~ anything\nx").unwrap();
    assert_eq!(toks[0].kind, TokenKind::Comment);
    assert_eq!(toks[0].text, "# a comment ~ anything");
    assert_eq!(toks[1].kind, TokenKind::Newline);
    assert_eq!(toks[2].kind, TokenKind::Ident);
}
