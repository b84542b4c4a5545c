use std::collections::HashMap;

use lang_front::arguments::parse_arguments;
use lang_front::expression::{parse_expression, parse_variable_declaration};
use lang_front::lexer::{lex, SourceToken};
use lang_front::names::NameMap;
use lang_front::parser::{parse_file, Failure, File};
use lang_front::resolved_type::parse_resolved_type;
use lang_front::statement::{
    as_type_reference, Block, Expression, Function, Infix, Prefix, SubExpression, ToTypeReference, Use, Visibility,
};
use lang_front::span::Span;
use lang_front::sub_expression::{parse_sub_expression, Precedence};

const PROGRAM: &str = "
use Foo.Bar.Baz;use Fizz.Buzz;
use Fizz;

public fn main(foo: Bar, baz: Int): Baz {
    let abc: Int = -4 + (7 - 3 + asdf - hjkl(7, 8, abc));

    helloWorld(6, 7, 8);

    return 42;
}
";

fn tokens_of(source: &str) -> Vec<SourceToken> {
    match lex(source.as_bytes()) {
        Ok((tokens, _)) => tokens,
        Err((_, message)) => panic!("Should have lexed: {}", message),
    }
}

fn parse(source: &str) -> Result<File, Failure> {
    match lex(source.as_bytes()) {
        Ok((tokens, blocks)) => parse_file(&tokens, blocks, "Test.Namespace"),
        Err((_, message)) => panic!("Should have lexed: {}", message),
    }
}

fn failure_of(source: &str) -> (String, (usize, usize, usize, usize)) {
    match parse(source) {
        Ok(_) => panic!("Should not have parsed"),
        Err(failure) => (failure.message, failure.span.split()),
    }
}

fn show(e: &SubExpression) -> String {
    match e {
        SubExpression::FunctionCall(name, args) => {
            let shown: Vec<String> = args.iter().map(show).collect();
            format!("{}({})", name, shown.join(", "))
        },
        SubExpression::StringLiteral(s) => format!("{:?}", s),
        SubExpression::IntegerLiteral(v) => format!("{}", v),
        SubExpression::Variable(name) => name.clone(),
        SubExpression::Prefix(Prefix::Not(x)) => format!("Not({})", show(x)),
        SubExpression::Prefix(Prefix::Minus(x)) => format!("Minus({})", show(x)),
        SubExpression::Prefix(Prefix::Plus(x)) => format!("Plus({})", show(x)),
        SubExpression::Prefix(Prefix::Group(x)) => format!("Group({})", show(x)),
        SubExpression::Infix(Infix::Add(a, b)) => format!("Add({}, {})", show(a), show(b)),
        SubExpression::Infix(Infix::Sub(a, b)) => format!("Sub({}, {})", show(a), show(b)),
    }
}

/// Parses what follows a leading `=`, as the value of a declaration is parsed.
fn sub_expression(source: &str) -> Result<(SubExpression, usize), Failure> {
    let tokens = tokens_of(&format!("= {}", source));
    let file = File::new("Test.Namespace", HashMap::new());
    parse_sub_expression(&file, &tokens, &0, &tokens[0], Precedence::Default)
}

fn shown(source: &str) -> String {
    match sub_expression(source) {
        Ok((e, _)) => show(&e),
        Err(f) => panic!("Should have parsed: {}", f.message),
    }
}

fn sub_failure(source: &str) -> (String, (usize, usize, usize, usize)) {
    match sub_expression(source) {
        Ok((e, _)) => panic!("Should not have parsed: {}", show(&e)),
        Err(f) => (f.message, f.span.split()),
    }
}

#[test]
fn use_path_is_keyed_by_its_last_segment() {
    let file = parse("use Foo.Bar.Baz;").ok().unwrap();
    assert_eq!(file.uses.len(), 1);
    let found = file.uses.get("Baz").unwrap();
    assert_eq!(found.identifier, "Foo.Bar.Baz");
    assert_eq!(found.span.split(), (1, 1, 15, 1));
    assert_eq!(file.namespace, "Test.Namespace");
}

#[test]
fn minimal_function() {
    let file = parse("fn main(): Int { return 42; }").ok().unwrap();
    assert_eq!(file.functions.len(), 1);
    match file.functions.get("main").unwrap() {
        Function::Regular(d) => {
            assert_eq!(d.identifier.0, "main");
            assert_eq!(d.identifier.1.split(), (4, 1, 7, 1));
            assert_eq!(d.visibility.0, Visibility::Private);
            assert!(d.visibility.1.is_none());
            assert_eq!(d.arguments.len(), 0);
            assert_eq!(d.returns.identifier.0, "Int");
            assert_eq!(d.returns.namespace, "Test.Namespace");
            assert_eq!(d.expressions.len(), 1);
            match &d.expressions[0] {
                Expression::Return(SubExpression::IntegerLiteral(42)) => {},
                other => panic!("unexpected statement: {:?}", other),
            }
            assert_eq!(d.expressions().len(), 1);
        },
        Function::Anonymous(_) => panic!("expected a defined function"),
    }
}

#[test]
fn sums_associate_to_the_left() {
    assert_eq!(shown("1 + 2 - 3"), "Sub(Add(1, 2), 3)");
    assert_eq!(shown("a - b - c"), "Sub(Sub(a, b), c)");
}

#[test]
fn calls_and_groups_are_told_apart() {
    assert_eq!(shown("hjkl(7, 8, abc)"), "hjkl(7, 8, abc)");
    assert_eq!(shown("(7 - 3)"), "Group(Sub(7, 3))");
    let (message, span) = sub_failure("(1)(2)");
    assert_eq!(message, "Cannot call function on non-identifier.");
    assert_eq!(span, (5, 1, 5, 1));
}

#[test]
fn sub_expression_end_index_is_past_the_expression() {
    let (_, end) = sub_expression("1 + 2 - 3").ok().unwrap();
    assert_eq!(end, 6);
    let (_, end) = sub_expression("f(1) ;").ok().unwrap();
    assert_eq!(end, 5);
}

#[test]
fn prefixes_calls_and_literals() {
    assert_eq!(shown("!-x"), "Not(Minus(x))");
    assert_eq!(shown("+1 - -2"), "Sub(Plus(1), Minus(2))");
    assert_eq!(shown("f()"), "f()");
    assert_eq!(shown("\"a\" + b"), "Add(\"a\", b)");
    assert_eq!(shown("-f(1) + g(h(2), 3)"), "Add(Minus(f(1)), g(h(2), 3))");
}

#[test]
fn sub_expression_failures() {
    assert_eq!(sub_failure("*x"), ("Unknown symbol '*'.".to_string(), (3, 1, 3, 1)));
    assert_eq!(sub_failure("1 * 2"), ("Unknown symbol '*'.".to_string(), (5, 1, 5, 1)));
    assert_eq!(sub_failure("(1 + 2"), ("Expected closing parenthesis.".to_string(), (8, 1, 8, 1)));
    assert_eq!(sub_failure("f(1 2)"), ("Expected closing parenthesis.".to_string(), (7, 1, 7, 1)));
    assert_eq!(sub_failure("let"), ("Expected valid sub-expression.".to_string(), (3, 1, 5, 1)));
    assert_eq!(sub_failure(""), ("Expected a sub-expression.".to_string(), (1, 1, 1, 1)));
}

#[test]
fn unclosed_block_fails_lexing() {
    match lex("fn main(): Int { ".as_bytes()) {
        Ok(_) => panic!("Should not have lexed"),
        Err((_, message)) => assert_eq!(message, "Unclosed code block."),
    }
}

#[test]
fn unmatched_brace_fails_lexing() {
    match lex("}".as_bytes()) {
        Ok(_) => panic!("Should not have lexed"),
        Err((_, message)) => assert_eq!(message, "Unmatched closing brace"),
    }
}

#[test]
fn empty_use_statement_fails() {
    let (message, span) = failure_of("use;");
    assert_eq!(message, "At least one identifier must be provided in a use statement.");
    assert_eq!(span, (4, 1, 4, 1));
}

#[test]
fn whole_program_parses() {
    let file = parse(PROGRAM).ok().unwrap();
    assert_eq!(file.uses.len(), 3);
    assert_eq!(file.uses.get("Baz").unwrap().identifier, "Foo.Bar.Baz");
    assert_eq!(file.uses.get("Buzz").unwrap().identifier, "Fizz.Buzz");
    assert_eq!(file.uses.get("Fizz").unwrap().identifier, "Fizz");
    match file.functions.get("main").unwrap() {
        Function::Regular(d) => {
            assert_eq!(d.visibility.0, Visibility::Public);
            assert_eq!(d.visibility.1.unwrap().split(), (8, 5, 9, 5));
            assert_eq!(d.arguments.len(), 2);
            assert_eq!(d.arguments.get("foo").unwrap().as_type_reference(), "Test.Namespace.Bar");
            assert_eq!(d.arguments.get("baz").unwrap().as_type_reference(), "Test.Namespace.Int");
            assert_eq!(d.returns.namespace, "Foo.Bar.Baz");
            assert_eq!(d.returns.identifier.0, "Baz");
            assert_eq!(d.expressions.len(), 3);
            match &d.expressions[0] {
                Expression::VariableDeclaration(v) => {
                    assert_eq!(v.identifier.0, "abc");
                    assert_eq!(v.variable_type.identifier.0, "Int");
                    assert_eq!(
                        show(&v.value),
                        "Add(Minus(4), Group(Sub(Add(Sub(7, 3), asdf), hjkl(7, 8, abc))))"
                    );
                },
                other => panic!("unexpected statement: {:?}", other),
            }
            match &d.expressions[1] {
                Expression::SubExpression(e) => assert_eq!(show(e), "helloWorld(6, 7, 8)"),
                other => panic!("unexpected statement: {:?}", other),
            }
            match &d.expressions[2] {
                Expression::Return(e) => assert_eq!(show(e), "42"),
                other => panic!("unexpected statement: {:?}", other),
            }
        },
        Function::Anonymous(_) => panic!("expected a defined function"),
    }
}

#[test]
fn top_level_failures() {
    assert_eq!(
        failure_of("let x"),
        ("Expected a use statement, function definition, or comment.".to_string(), (1, 1, 3, 1))
    );
    assert_eq!(failure_of("fn main(): Int ;"), ("Expected opening brace.".to_string(), (12, 1, 14, 1)));
    assert_eq!(failure_of("public x"), ("Expected fn keyword.".to_string(), (8, 1, 8, 1)));
    assert_eq!(failure_of("fn (): X {}"), ("Expected function identifier.".to_string(), (4, 1, 4, 1)));
    assert_eq!(failure_of("fn f: X {}"), ("Expected opening parenthesis.".to_string(), (5, 1, 5, 1)));
    assert_eq!(failure_of("fn f() X {}"), ("Expected colon.".to_string(), (8, 1, 8, 1)));
    assert_eq!(failure_of("fn f(): {}"), ("Expected type identifier.".to_string(), (9, 1, 9, 1)));
}

#[test]
fn statements_need_their_terminator() {
    assert_eq!(
        failure_of("fn f(): X { return 1 }"),
        ("Expected end of statement.".to_string(), (22, 1, 22, 1))
    );
    assert_eq!(
        failure_of("fn f(): X { g(1) }"),
        ("Expected end of statement.".to_string(), (18, 1, 18, 1))
    );
    assert_eq!(
        failure_of("fn f(): X { let a: B = 1 }"),
        ("Expected end of statement.".to_string(), (26, 1, 26, 1))
    );
    assert_eq!(failure_of("fn f(): X { let = 1; }"), ("Expected variable identifier.".to_string(), (17, 1, 17, 1)));
    assert_eq!(failure_of("fn f(): X { let a B = 1; }"), ("Expected colon.".to_string(), (19, 1, 19, 1)));
    assert_eq!(failure_of("fn f(): X { let a: B 1; }"), ("Expected equal symbol.".to_string(), (22, 1, 22, 1)));
}

#[test]
fn later_declarations_replace_earlier_ones() {
    let file = parse("use A.X; use B.X; fn f(): T { } public fn f(): T { }").ok().unwrap();
    assert_eq!(file.uses.len(), 1);
    assert_eq!(file.uses.get("X").unwrap().identifier, "B.X");
    assert_eq!(file.functions.len(), 1);
    match file.functions.get("f").unwrap() {
        Function::Regular(d) => {
            assert_eq!(d.visibility.0, Visibility::Public);
            assert!(d.expressions.is_empty());
        },
        Function::Anonymous(_) => panic!("expected a defined function"),
    }
}

#[test]
fn argument_lists() {
    let file = parse("use Lib.Str;").ok().unwrap();

    let tokens = tokens_of("( a: Int, b: Str, a: Str )");
    let (args, end) = parse_arguments(&file, &tokens, &0, &tokens[0]).ok().unwrap();
    assert_eq!(end, 13);
    assert_eq!(args.len(), 2);
    assert_eq!(args.get("a").unwrap().as_type_reference(), "Lib.Str.Str");
    assert_eq!(args.get("b").unwrap().namespace, "Lib.Str");

    let tokens = tokens_of("(a: Int,)");
    let (args, end) = parse_arguments(&file, &tokens, &0, &tokens[0]).ok().unwrap();
    assert_eq!((args.len(), end), (1, 6));

    let tokens = tokens_of("()");
    let (args, end) = parse_arguments(&file, &tokens, &0, &tokens[0]).ok().unwrap();
    assert_eq!((args.len(), end), (0, 2));

    let failure = |source: &str| {
        let tokens = tokens_of(source);
        let f = parse_arguments(&file, &tokens, &0, &tokens[0]).err().unwrap();
        (f.message, f.span.split())
    };
    assert_eq!(failure("(a Int)"), ("Expected colon.".to_string(), (4, 1, 6, 1)));
    assert_eq!(failure("(a: Int b)"), ("Expected comma or closing parenthesis.".to_string(), (9, 1, 9, 1)));
    assert_eq!(failure("(1)"), ("Expected identifier or closing parenthesis.".to_string(), (2, 1, 2, 1)));
    assert_eq!(failure("(a: Int,"), ("Expected identifier or closing parenthesis.".to_string(), (8, 1, 8, 1)));
}

#[test]
fn types_resolve_through_uses() {
    let file = parse("use Lib.Thing;").ok().unwrap();
    let tokens = tokens_of(": Thing : Other : 7");
    let (t, end) = parse_resolved_type(&file, &tokens, &0, &tokens[0]).ok().unwrap();
    assert_eq!(end, 2);
    assert_eq!(t.namespace, "Lib.Thing");
    assert_eq!(t.identifier.0, "Thing");
    assert_eq!(t.identifier.1.unwrap().split(), (3, 1, 7, 1));
    let (t, _) = parse_resolved_type(&file, &tokens, &2, &tokens[2]).ok().unwrap();
    assert_eq!(t.as_type_reference(), "Test.Namespace.Other");
    let f = parse_resolved_type(&file, &tokens, &4, &tokens[4]).err().unwrap();
    assert_eq!((f.message, f.span.split()), ("Expected type identifier.".to_string(), (19, 1, 19, 1)));
    let f = parse_resolved_type(&file, &tokens, &5, &tokens[5]).err().unwrap();
    assert_eq!(f.span.split(), (19, 1, 19, 1));
}

#[test]
fn declarations_and_statements() {
    let file = parse("use Lib.Foo;").ok().unwrap();
    let tokens = tokens_of("let x: Foo = y + 1;");
    let (d, end) = parse_variable_declaration(&file, &tokens, &0, &tokens[0]).ok().unwrap();
    assert_eq!(end, 8);
    assert_eq!(d.identifier.0, "x");
    assert_eq!(d.identifier.1.split(), (5, 1, 5, 1));
    assert_eq!(d.variable_type.namespace, "Lib.Foo");
    assert_eq!(show(&d.value), "Add(y, 1)");

    let tokens = tokens_of("{ return a; b; let c: D = e; }");
    let (first, end) = parse_expression(&file, &tokens, &0, &tokens[0]).ok().unwrap();
    assert_eq!(end, 3);
    assert!(matches!(first, Expression::Return(SubExpression::Variable(_))));
    let (second, end) = parse_expression(&file, &tokens, &3, &tokens[3]).ok().unwrap();
    assert_eq!(end, 5);
    assert!(matches!(second, Expression::SubExpression(SubExpression::Variable(_))));
    let (third, end) = parse_expression(&file, &tokens, &5, &tokens[5]).ok().unwrap();
    assert_eq!(end, 12);
    assert!(matches!(third, Expression::VariableDeclaration(_)));
    let f = parse_expression(&file, &tokens, &13, &tokens[13]).err().unwrap();
    assert_eq!((f.message, f.span.split()), ("Expected an expression.".to_string(), (30, 1, 30, 1)));
}

#[test]
fn type_references_and_names() {
    assert_eq!(as_type_reference("A.B", "C"), "A.B.C");
    assert_eq!(vec!["Foo", "Bar", "Baz"].as_type_reference(), "Foo.Bar.Baz");
    assert_eq!(Vec::<&str>::new().as_type_reference(), "");
    let u = Use { identifier: "X.Y".to_string(), span: Span::new(1, 1, 2, 1) };
    assert_eq!(u.as_type_reference(), "X.Y");

    let mut names: NameMap<u32> = NameMap::new();
    names.insert("a".to_string(), 1);
    names.insert("b".to_string(), 2);
    names.insert("a".to_string(), 3);
    assert_eq!(names.len(), 2);
    assert_eq!(names.get("a"), Some(&3));
    assert_eq!(names.get("c"), None);
    assert!(names.contains_key("b"));
    assert_eq!(Precedence::Sum.level(), 3);
    assert!(Precedence::Call.level() > Precedence::Prefix.level());
}
