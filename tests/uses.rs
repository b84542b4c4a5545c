use std::collections::HashMap;

use lang_front::lexer::SourceToken;
use lang_front::parser::File;
use lang_front::span::Span;
use lang_front::token::{Keyword, Symbol, Token};
use lang_front::uses::parse_use;

fn empty_file() -> File {
    File::new("Some.Base.Namespace", HashMap::new())
}

#[test]
fn it_will_not_parse_if_no_next_input() {
    let tokens: Vec<SourceToken> = vec![SourceToken { token: Token::Keyword(Keyword::Use), span: Span::new(1, 1, 3, 1) }];
    let mut file = empty_file();

    match parse_use(&mut file, &tokens, &0, &tokens[0]) {
        Ok(_) => panic!("Should not have parsed correctly"),
        Err(failure) => {
            assert_eq!("Expected an identifier.", failure.message);
            assert_eq!(failure.span.split(), (3, 1, 3, 1));
        },
    }
}

#[test]
fn it_will_not_parse_if_first_input_not_identifier() {
    let second_token_span = Span::new(4, 1, 4, 1);
    let example_invalid_tokens = vec![
        Token::Keyword(Keyword::Use),
        Token::Symbol(Symbol::Equal),
        Token::Comment("hi".to_owned()),
        Token::StringLiteral("hi".to_owned()),
    ];

    for example_token in example_invalid_tokens {
        let tokens: Vec<SourceToken> = vec![
            SourceToken { token: Token::Keyword(Keyword::Use), span: Span::new(1, 1, 3, 1) },
            SourceToken { token: example_token, span: second_token_span.clone() },
        ];
        let mut file = empty_file();

        match parse_use(&mut file, &tokens, &0, &tokens[0]) {
            Ok(_) => panic!("Should not have parsed correctly"),
            Err(failure) => {
                assert_eq!("Expected an identifier.", failure.message);
                assert_eq!(failure.span.split(), (4, 1, 4, 1));
            },
        }
    }
}

#[test]
fn it_will_not_parse_if_first_input_is_end() {
    let tokens: Vec<SourceToken> = vec![
        SourceToken { token: Token::Keyword(Keyword::Use), span: Span::new(1, 1, 3, 1) },
        SourceToken { token: Token::End, span: Span::new(4, 1, 4, 1) },
    ];
    let mut file = empty_file();

    match parse_use(&mut file, &tokens, &0, &tokens[0]) {
        Ok(_) => panic!("Should not have parsed correctly"),
        Err(failure) => {
            assert_eq!("At least one identifier must be provided in a use statement.", failure.message);
            assert_eq!(failure.span.split(), (4, 1, 4, 1));
        },
    }
}

#[test]
fn it_will_not_parse_if_an_identifier_is_not_followed_by_a_period_or_end() {
    let mut example_token_sets: Vec<((usize, usize, usize, usize), Vec<SourceToken>)> = vec![
        (
            (3, 3, 3, 3),
            vec![
                SourceToken { token: Token::Identifier("Foo".to_string()), span: Span::new(2, 2, 2, 2) },
                SourceToken { token: Token::Keyword(Keyword::Abstract), span: Span::new(3, 3, 3, 3) },
            ],
        ),
        (
            (5, 5, 5, 5),
            vec![
                SourceToken { token: Token::Identifier("Foo".to_string()), span: Span::new(2, 2, 2, 2) },
                SourceToken { token: Token::Symbol(Symbol::Period), span: Span::new(3, 3, 3, 3) },
                SourceToken { token: Token::Identifier("Bar".to_string()), span: Span::new(4, 4, 4, 4) },
                SourceToken { token: Token::Keyword(Keyword::Abstract), span: Span::new(5, 5, 5, 5) },
            ],
        ),
    ];

    for example_tokens in &mut example_token_sets {
        let mut tokens: Vec<SourceToken> =
            vec![SourceToken { token: Token::Keyword(Keyword::Use), span: Span::new(1, 1, 3, 1) }];
        tokens.append(&mut example_tokens.1);

        let mut file = empty_file();

        match parse_use(&mut file, &tokens, &0, &tokens[0]) {
            Ok(_) => panic!("Should not have parsed correctly"),
            Err(failure) => {
                assert_eq!("Expected an identifier.", failure.message);
                assert_eq!(failure.span.split(), example_tokens.0);
            },
        }
    }
}

#[test]
fn it_will_parse_correctly_for_one_identifier() {
    let tokens: Vec<SourceToken> = vec![
        SourceToken { token: Token::Keyword(Keyword::Use), span: Span::new(1, 1, 3, 1) },
        SourceToken { token: Token::Identifier("Foo".to_string()), span: Span::new(2, 2, 2, 2) },
        SourceToken { token: Token::End, span: Span::new(3, 3, 3, 3) },
    ];

    let mut file = empty_file();

    match parse_use(&mut file, &tokens, &0, &tokens[0]) {
        Ok(new_index) => {
            assert_eq!(3, new_index);
            assert!(file.uses.contains_key("Foo"));

            let new_use = file.uses.get("Foo").unwrap();
            assert_eq!("Foo", new_use.identifier);
            assert_eq!((1, 1, 2, 2), new_use.span.split());
        },
        Err(err) => panic!("Should not have failed to parse: {}", err.message),
    }
}

#[test]
fn it_will_parse_correctly_for_many_identifiers() {
    let tokens: Vec<SourceToken> = vec![
        SourceToken { token: Token::Keyword(Keyword::Use), span: Span::new(1, 1, 3, 1) },
        SourceToken { token: Token::Identifier("Foo".to_string()), span: Span::new(2, 2, 2, 2) },
        SourceToken { token: Token::Symbol(Symbol::Period), span: Span::new(3, 3, 3, 3) },
        SourceToken { token: Token::Identifier("Bar".to_string()), span: Span::new(4, 4, 4, 4) },
        SourceToken { token: Token::Symbol(Symbol::Period), span: Span::new(5, 5, 5, 5) },
        SourceToken { token: Token::Identifier("Baz".to_string()), span: Span::new(6, 6, 6, 6) },
        SourceToken { token: Token::End, span: Span::new(7, 7, 7, 7) },
    ];

    let mut file = empty_file();

    match parse_use(&mut file, &tokens, &0, &tokens[0]) {
        Ok(new_index) => {
            assert_eq!(7, new_index);
            // a use is keyed by the last segment of its path
            assert!(file.uses.contains_key("Baz"));

            let new_use = file.uses.get("Baz").unwrap();
            assert_eq!("Foo.Bar.Baz", new_use.identifier);
            assert_eq!((1, 1, 6, 6), new_use.span.split());
        },
        Err(err) => panic!("Should not have failed to parse: {}", err.message),
    }
}
