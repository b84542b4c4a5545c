use vstd::prelude::*;
use vstd::string::*;

verus! {

/// The reserved words of the language.
#[derive(Clone, Copy, Debug, PartialEq, Eq, Structural)]
pub enum Keyword {
    Function,
    Return,
    Let,
    Class,
    Implements,
    Public,
    Protected,
    Abstract,
    Static,
    Use,
}

/// The keyword spelled by `s`, if any.
pub open spec fn keyword_of(s: Seq<char>) -> Option<Keyword> {
    if s == seq!['f', 'n'] {
        Some(Keyword::Function)
    } else if s == seq!['r', 'e', 't', 'u', 'r', 'n'] {
        Some(Keyword::Return)
    } else if s == seq!['l', 'e', 't'] {
        Some(Keyword::Let)
    } else if s == seq!['c', 'l', 'a', 's', 's'] {
        Some(Keyword::Class)
    } else if s == seq!['i', 'm', 'p', 'l'] {
        Some(Keyword::Implements)
    } else if s == seq!['p', 'u', 'b', 'l', 'i', 'c'] {
        Some(Keyword::Public)
    } else if s == seq!['p', 'r', 'o', 't', 'e', 'c', 't', 'e', 'd'] {
        Some(Keyword::Protected)
    } else if s == seq!['a', 'b', 's', 't', 'r', 'a', 'c', 't'] {
        Some(Keyword::Abstract)
    } else if s == seq!['s', 't', 'a', 't', 'i', 'c'] {
        Some(Keyword::Static)
    } else if s == seq!['u', 's', 'e'] {
        Some(Keyword::Use)
    } else {
        None
    }
}

/// Whether `s` holds exactly the characters of `word`.
fn text_is(s: &str, word: &[char]) -> (r: bool)
    ensures
        r == (s@ == word@),
{
    let n = s.unicode_len();
    if n != word.len() {
        return false;
    }
    let mut i: usize = 0;
    while i < n
        invariant
            n == s@.len(),
            n == word@.len(),
            i <= n,
            forall|j: int| 0 <= j < i ==> s@[j] == word@[j],
        decreases n - i,
    {
        if s.get_char(i) != word[i] {
            return false;
        }
        i = i + 1;
    }
    assert(s@ =~= word@);
    true
}

impl Keyword {
    /// The keyword spelled by `str`, or `None` where it spells no keyword.
    pub fn from_string(str: &str) -> (r: Option<Keyword>)
        ensures
            r == keyword_of(str@),
    {
        if text_is(str, &['f', 'n']) {
            Some(Keyword::Function)
        } else if text_is(str, &['r', 'e', 't', 'u', 'r', 'n']) {
            Some(Keyword::Return)
        } else if text_is(str, &['l', 'e', 't']) {
            Some(Keyword::Let)
        } else if text_is(str, &['c', 'l', 'a', 's', 's']) {
            Some(Keyword::Class)
        } else if text_is(str, &['i', 'm', 'p', 'l']) {
            Some(Keyword::Implements)
        } else if text_is(str, &['p', 'u', 'b', 'l', 'i', 'c']) {
            Some(Keyword::Public)
        } else if text_is(str, &['p', 'r', 'o', 't', 'e', 'c', 't', 'e', 'd']) {
            Some(Keyword::Protected)
        } else if text_is(str, &['a', 'b', 's', 't', 'r', 'a', 'c', 't']) {
            Some(Keyword::Abstract)
        } else if text_is(str, &['s', 't', 'a', 't', 'i', 'c']) {
            Some(Keyword::Static)
        } else if text_is(str, &['u', 's', 'e']) {
            Some(Keyword::Use)
        } else {
            None
        }
    }
}

/// The single-character punctuation of the language.
#[derive(Clone, Copy, Debug, PartialEq, Eq, Structural)]
pub enum Symbol {
    Equal,
    ParenOpen,
    ParenClose,
    BraceOpen,
    BraceClose,
    BracketOpen,
    BracketClose,
    AngleOpen,
    AngleClose,
    Comma,
    Period,
    Colon,
    Plus,
    Minus,
    ForwardSlash,
    Exclamation,
    Question,
    Asterisk,
    Caret,
}

/// The character each symbol is written with.
pub open spec fn symbol_char(s: Symbol) -> char {
    match s {
        Symbol::Equal => '=',
        Symbol::ParenOpen => '(',
        Symbol::ParenClose => ')',
        Symbol::BraceOpen => '{',
        Symbol::BraceClose => '}',
        Symbol::BracketOpen => '[',
        Symbol::BracketClose => ']',
        Symbol::AngleOpen => '<',
        Symbol::AngleClose => '>',
        Symbol::Comma => ',',
        Symbol::Period => '.',
        Symbol::Colon => ':',
        Symbol::Plus => '+',
        Symbol::Minus => '-',
        Symbol::ForwardSlash => '/',
        Symbol::Exclamation => '!',
        Symbol::Question => '?',
        Symbol::Asterisk => '*',
        Symbol::Caret => '^',
    }
}

/// The symbol written with the byte `b`, if any.
pub open spec fn symbol_of(b: u8) -> Option<Symbol> {
    if b == 61 {
        Some(Symbol::Equal)
    } else if b == 40 {
        Some(Symbol::ParenOpen)
    } else if b == 41 {
        Some(Symbol::ParenClose)
    } else if b == 123 {
        Some(Symbol::BraceOpen)
    } else if b == 125 {
        Some(Symbol::BraceClose)
    } else if b == 91 {
        Some(Symbol::BracketOpen)
    } else if b == 93 {
        Some(Symbol::BracketClose)
    } else if b == 60 {
        Some(Symbol::AngleOpen)
    } else if b == 62 {
        Some(Symbol::AngleClose)
    } else if b == 44 {
        Some(Symbol::Comma)
    } else if b == 46 {
        Some(Symbol::Period)
    } else if b == 58 {
        Some(Symbol::Colon)
    } else if b == 43 {
        Some(Symbol::Plus)
    } else if b == 45 {
        Some(Symbol::Minus)
    } else if b == 47 {
        Some(Symbol::ForwardSlash)
    } else if b == 33 {
        Some(Symbol::Exclamation)
    } else if b == 63 {
        Some(Symbol::Question)
    } else if b == 42 {
        Some(Symbol::Asterisk)
    } else if b == 94 {
        Some(Symbol::Caret)
    } else {
        None
    }
}

impl Symbol {
    /// The symbol written with `char`, or `None` where no symbol is.
    pub fn from_char(char: &u8) -> (r: Option<Symbol>)
        ensures
            r == symbol_of(*char),
            r matches Some(s) ==> symbol_char(s) == *char as char,
    {
        match *char {
            61u8 => Some(Symbol::Equal),
            40u8 => Some(Symbol::ParenOpen),
            41u8 => Some(Symbol::ParenClose),
            123u8 => Some(Symbol::BraceOpen),
            125u8 => Some(Symbol::BraceClose),
            91u8 => Some(Symbol::BracketOpen),
            93u8 => Some(Symbol::BracketClose),
            60u8 => Some(Symbol::AngleOpen),
            62u8 => Some(Symbol::AngleClose),
            44u8 => Some(Symbol::Comma),
            46u8 => Some(Symbol::Period),
            58u8 => Some(Symbol::Colon),
            43u8 => Some(Symbol::Plus),
            45u8 => Some(Symbol::Minus),
            47u8 => Some(Symbol::ForwardSlash),
            33u8 => Some(Symbol::Exclamation),
            63u8 => Some(Symbol::Question),
            42u8 => Some(Symbol::Asterisk),
            94u8 => Some(Symbol::Caret),
            _ => None,
        }
    }

    /// The character the symbol is written with.
    pub fn as_char(&self) -> (r: char)
        ensures
            r == symbol_char(*self),
    {
        match self {
            Symbol::Equal => '=',
            Symbol::ParenOpen => '(',
            Symbol::ParenClose => ')',
            Symbol::BraceOpen => '{',
            Symbol::BraceClose => '}',
            Symbol::BracketOpen => '[',
            Symbol::BracketClose => ']',
            Symbol::AngleOpen => '<',
            Symbol::AngleClose => '>',
            Symbol::Comma => ',',
            Symbol::Period => '.',
            Symbol::Colon => ':',
            Symbol::Plus => '+',
            Symbol::Minus => '-',
            Symbol::ForwardSlash => '/',
            Symbol::Exclamation => '!',
            Symbol::Question => '?',
            Symbol::Asterisk => '*',
            Symbol::Caret => '^',
        }
    }
}

/// A lexical unit. Its place in the source is kept beside it, in a `SourceToken`.
#[derive(Debug)]
pub enum Token {
    Comment(String),
    Keyword(Keyword),
    StringLiteral(String),
    IntegerLiteral(i64),
    Identifier(String),
    Symbol(Symbol),
    /// Denotes the end of a statement
    End,
}

/// Two tokens are equal when they are of one kind and carry equal contents.
pub open spec fn token_eq(a: Token, b: Token) -> bool {
    match (a, b) {
        (Token::Comment(x), Token::Comment(y)) => x@ == y@,
        (Token::Keyword(x), Token::Keyword(y)) => x == y,
        (Token::StringLiteral(x), Token::StringLiteral(y)) => x@ == y@,
        (Token::IntegerLiteral(x), Token::IntegerLiteral(y)) => x == y,
        (Token::Identifier(x), Token::Identifier(y)) => x@ == y@,
        (Token::Symbol(x), Token::Symbol(y)) => x == y,
        (Token::End, Token::End) => true,
        _ => false,
    }
}

impl PartialEq for Token {
    fn eq(&self, other: &Token) -> (r: bool)
        ensures
            r == token_eq(*self, *other),
    {
        match (self, other) {
            (Token::Comment(x), Token::Comment(y)) => *x == *y,
            (Token::Keyword(x), Token::Keyword(y)) => *x == *y,
            (Token::StringLiteral(x), Token::StringLiteral(y)) => *x == *y,
            (Token::IntegerLiteral(x), Token::IntegerLiteral(y)) => *x == *y,
            (Token::Identifier(x), Token::Identifier(y)) => *x == *y,
            (Token::Symbol(x), Token::Symbol(y)) => *x == *y,
            (Token::End, Token::End) => true,
            _ => false,
        }
    }
}

impl vstd::std_specs::cmp::PartialEqSpecImpl for Token {
    open spec fn obeys_eq_spec() -> bool {
        true
    }

    open spec fn eq_spec(&self, other: &Token) -> bool {
        token_eq(*self, *other)
    }
}

} // verus!
