use lang_front::lexer::{get_next_token, lex, token_is, SourceToken};
use lang_front::span::Span;
use lang_front::token::{Keyword, Symbol, Token};

fn tokens_of(source: &str) -> Vec<SourceToken> {
    match lex(source.as_bytes()) {
        Ok((tokens, _)) => tokens,
        Err((_, message)) => panic!("Should have lexed: {}", message),
    }
}

fn failure_of(source: &str) -> (usize, usize, usize, String) {
    match lex(source.as_bytes()) {
        Ok(_) => panic!("Should not have lexed"),
        Err((position, message)) => (position.idx, position.row, position.col, message),
    }
}

#[test]
fn lexes_a_use_statement_with_spans() {
    let tokens = tokens_of("use Foo.Bar;");
    let kinds: Vec<&Token> = tokens.iter().map(|t| &t.token).collect();
    assert_eq!(
        kinds,
        vec![
            &Token::Keyword(Keyword::Use),
            &Token::Identifier("Foo".to_string()),
            &Token::Symbol(Symbol::Period),
            &Token::Identifier("Bar".to_string()),
            &Token::End,
        ]
    );
    let spans: Vec<(usize, usize, usize, usize)> = tokens.iter().map(|t| t.span.split()).collect();
    assert_eq!(spans, vec![(1, 1, 3, 1), (5, 1, 7, 1), (8, 1, 8, 1), (9, 1, 11, 1), (12, 1, 12, 1)]);
}

#[test]
fn lexes_literals_comments_and_keywords() {
    let tokens = tokens_of("// note\nreturn \"hi there\" 42 letter let");
    let kinds: Vec<&Token> = tokens.iter().map(|t| &t.token).collect();
    assert_eq!(
        kinds,
        vec![
            &Token::Comment(" note".to_string()),
            &Token::Keyword(Keyword::Return),
            &Token::StringLiteral("hi there".to_string()),
            &Token::IntegerLiteral(42),
            &Token::Identifier("letter".to_string()),
            &Token::Keyword(Keyword::Let),
        ]
    );
    assert_eq!(tokens[0].span.split(), (1, 1, 7, 1));
    assert_eq!(tokens[1].span.split(), (1, 2, 6, 2));
    assert_eq!(tokens[2].span.split(), (8, 2, 17, 2));
}

#[test]
fn every_keyword_spelling_is_recognised() {
    let tokens = tokens_of("fn return let class impl public protected abstract static use");
    let kinds: Vec<&Token> = tokens.iter().map(|t| &t.token).collect();
    assert_eq!(
        kinds,
        vec![
            &Token::Keyword(Keyword::Function),
            &Token::Keyword(Keyword::Return),
            &Token::Keyword(Keyword::Let),
            &Token::Keyword(Keyword::Class),
            &Token::Keyword(Keyword::Implements),
            &Token::Keyword(Keyword::Public),
            &Token::Keyword(Keyword::Protected),
            &Token::Keyword(Keyword::Abstract),
            &Token::Keyword(Keyword::Static),
            &Token::Keyword(Keyword::Use),
        ]
    );
    assert_eq!(Keyword::from_string("impl"), Some(Keyword::Implements));
    assert_eq!(Keyword::from_string("Fn"), None);
}

#[test]
fn every_symbol_character_is_recognised() {
    let tokens = tokens_of("= ( ) [ ] < > , . : + - / ! ? * ^");
    let symbols: Vec<char> = tokens
        .iter()
        .map(|t| match &t.token {
            Token::Symbol(s) => s.as_char(),
            other => panic!("not a symbol: {:?}", other),
        })
        .collect();
    assert_eq!(symbols, vec!['=', '(', ')', '[', ']', '<', '>', ',', '.', ':', '+', '-', '/', '!', '?', '*', '^']);
    assert_eq!(Symbol::from_char(&b'{'), Some(Symbol::BraceOpen));
    assert_eq!(Symbol::from_char(&b';'), None);
}

#[test]
fn braces_are_balanced_and_matched() {
    let source = "fn a(): B { { } }\nfn c(): D { }";
    let (tokens, blocks) = lex(source.as_bytes()).ok().unwrap();
    let opens = tokens.iter().filter(|t| t.token == Token::Symbol(Symbol::BraceOpen)).count();
    let closes = tokens.iter().filter(|t| t.token == Token::Symbol(Symbol::BraceClose)).count();
    assert_eq!(opens, 3);
    assert_eq!(closes, 3);
    assert_eq!(blocks.len(), 3);
    for (start, block) in &blocks {
        assert_eq!(*start, block.start);
        assert!(block.start < block.end);
        assert_eq!(tokens[block.start].token, Token::Symbol(Symbol::BraceOpen));
        assert_eq!(tokens[block.end].token, Token::Symbol(Symbol::BraceClose));
    }
    assert_eq!(blocks[&6].end, 9);
    assert_eq!(blocks[&7].end, 8);
    assert_eq!(blocks[&16].end, 17);
}

#[test]
fn spans_increase_and_columns_reset_after_newlines() {
    let tokens = tokens_of("let a: Int = 1;\n  return a;\n\nfoo(\"x\ny\");");
    for t in &tokens {
        let (sc, sr, ec, er) = t.span.split();
        assert!((sr, sc) <= (er, ec));
    }
    for pair in tokens.windows(2) {
        let (_, _, ec, er) = pair[0].span.split();
        let (sc, sr, _, _) = pair[1].span.split();
        assert!((er, ec) < (sr, sc));
    }
    // `return` starts the second row after two spaces
    assert_eq!(tokens[7].span.split(), (3, 2, 8, 2));
    // the string literal runs over a newline onto the next row
    assert_eq!(tokens[12].token, Token::StringLiteral("x\ny".to_string()));
    assert_eq!(tokens[12].span.split(), (5, 4, 2, 5));
}

#[test]
fn unclosed_block_fails_at_the_opening_brace() {
    let (idx, row, col, message) = failure_of("fn main(): Int { ");
    assert_eq!(message, "Unclosed code block.");
    assert_eq!((idx, row, col), (15, 1, 16));
}

#[test]
fn unmatched_closing_brace_fails() {
    let (idx, row, col, message) = failure_of("}");
    assert_eq!(message, "Unmatched closing brace");
    assert_eq!((idx, row, col), (0, 1, 1));
}

#[test]
fn unrecognised_input_fails_where_it_stands() {
    let (idx, row, col, message) = failure_of("let\n  # x");
    assert_eq!(message, "Unrecognised input");
    assert_eq!((idx, row, col), (6, 2, 3));
}

#[test]
fn unterminated_string_fails_at_the_end_of_input() {
    let (idx, row, col, message) = failure_of("\"abc");
    assert_eq!(message, "Unterminated string literal.");
    assert_eq!((idx, row, col), (4, 1, 5));
}

#[test]
fn integer_literals_that_do_not_fit_fail() {
    let tokens = tokens_of("9223372036854775807");
    assert_eq!(tokens[0].token, Token::IntegerLiteral(i64::MAX));
    let (idx, _, _, message) = failure_of("9223372036854775808;");
    assert_eq!(message, "Integer literal out of range.");
    assert_eq!(idx, 19);
}

#[test]
fn empty_input_has_no_tokens() {
    let (tokens, blocks) = lex(" \n\t".as_bytes()).ok().unwrap();
    assert!(tokens.is_empty());
    assert!(blocks.is_empty());
}

#[test]
fn next_token_failures_are_located() {
    let tokens = tokens_of("use Foo");
    let found = get_next_token(&tokens, 1, &tokens[0], |t| Ok(t), "missing".to_string());
    assert_eq!(found.ok().unwrap().0.token, Token::Identifier("Foo".to_string()));

    let past_end = get_next_token(&tokens, 2, &tokens[1], |t| Ok(t), "missing".to_string());
    let failure = past_end.err().unwrap();
    assert_eq!(failure.message, "missing");
    assert_eq!(failure.span.split(), (7, 1, 7, 1));

    let rejected = get_next_token(&tokens, 0, &tokens[0], |t| Err::<(), _>(Some(t)), "bad".to_string());
    assert_eq!(rejected.err().unwrap().span.split(), (1, 1, 3, 1));

    assert!(token_is(&Token::Keyword(Keyword::Use), &tokens, 0));
    assert!(!token_is(&Token::Keyword(Keyword::Use), &tokens, 1));
    assert!(!token_is(&Token::Keyword(Keyword::Use), &tokens, 5));
    assert_eq!(Span::new(1, 2, 3, 4).to_last_char().split(), (3, 4, 3, 4));
}
