//! What a scan of source bytes into tokens is: where each token lies and what it holds, where
//! rows and columns fall, when braces nest, and why a scan stops; with the lemmas that show two
//! scans of one source agree.

use vstd::prelude::*;

use crate::lexer::{CodeBlock, SourceToken};
use crate::span::{loc_le, loc_lt, Location, Position};
use crate::token::{keyword_of, symbol_of, Symbol, Token};

verus! {

pub open spec fn is_ws(b: u8) -> bool {
    b == 32 || b == 9 || b == 10 || b == 12 || b == 13
}

pub open spec fn is_digit(b: u8) -> bool {
    48 <= b <= 57
}

pub open spec fn is_alpha(b: u8) -> bool {
    (65 <= b <= 90) || (97 <= b <= 122)
}

pub open spec fn is_alnum(b: u8) -> bool {
    is_digit(b) || is_alpha(b)
}

/// The row and column of the character at byte offset `n`: rows grow at each newline, after
/// which the column starts again from 1; any other byte moves one column on.
pub open spec fn pos_at(src: Seq<u8>, n: int) -> (int, int)
    decreases n,
{
    if n <= 0 {
        (1, 1)
    } else {
        let p = pos_at(src, n - 1);
        if src[n - 1] == 10 {
            (p.0 + 1, 1)
        } else {
            (p.0, p.1 + 1)
        }
    }
}

pub open spec fn loc_is(l: Location, p: (int, int)) -> bool {
    l.row == p.0 && l.col == p.1
}

/// The bytes read one for one as characters.
pub open spec fn chars_of(s: Seq<u8>) -> Seq<char> {
    s.map_values(|b: u8| b as char)
}

/// The value of a run of decimal digits.
pub open spec fn digits_value(s: Seq<u8>) -> int
    decreases s.len(),
{
    if s.len() == 0 {
        0
    } else {
        digits_value(s.drop_last()) * 10 + (s.last() - 48)
    }
}

pub open spec fn all_in(src: Seq<u8>, a: int, b: int, p: spec_fn(u8) -> bool) -> bool {
    forall|k: int| a <= k < b ==> p(#[trigger] src[k])
}

/// Whether a token may begin with byte `b`.
pub open spec fn starts_token(b: u8) -> bool {
    b == 59 || b == 34 || is_digit(b) || is_alpha(b) || symbol_of(b) is Some
}

/// The bytes `src[s..e]` are scanned as `tok`.
pub open spec fn token_at(src: Seq<u8>, s: int, e: int, tok: Token) -> bool {
    &&& 0 <= s < e <= src.len()
    &&& match tok {
        Token::End => e == s + 1 && src[s] == 59,
        Token::Comment(t) => {
            &&& s + 2 <= e
            &&& src[s] == 47 && src[s + 1] == 47
            &&& all_in(src, s + 2, e, |b: u8| b != 10)
            &&& (e == src.len() || src[e] == 10)
            &&& t@ == chars_of(src.subrange(s + 2, e))
        },
        Token::StringLiteral(t) => {
            &&& s + 2 <= e
            &&& src[s] == 34 && src[e - 1] == 34
            &&& all_in(src, s + 1, e - 1, |b: u8| b != 34)
            &&& t@ == chars_of(src.subrange(s + 1, e - 1))
        },
        Token::IntegerLiteral(v) => {
            &&& all_in(src, s, e, |b: u8| is_digit(b))
            &&& (e == src.len() || !is_digit(src[e]))
            &&& v == digits_value(src.subrange(s, e))
        },
        Token::Keyword(k) => {
            &&& is_alpha(src[s])
            &&& all_in(src, s, e, |b: u8| is_alnum(b))
            &&& (e == src.len() || !is_alnum(src[e]))
            &&& keyword_of(chars_of(src.subrange(s, e))) == Some(k)
        },
        Token::Identifier(t) => {
            &&& is_alpha(src[s])
            &&& all_in(src, s, e, |b: u8| is_alnum(b))
            &&& (e == src.len() || !is_alnum(src[e]))
            &&& keyword_of(chars_of(src.subrange(s, e))) is None
            &&& t@ == chars_of(src.subrange(s, e))
        },
        Token::Symbol(sym) => {
            &&& e == s + 1
            &&& symbol_of(src[s]) == Some(sym)
            &&& !(src[s] == 47 && s + 1 < src.len() && src[s + 1] == 47)
        },
    }
}

/// Token `t` was scanned from `src[s..e]` and its span names the first and the last of those
/// characters.
pub open spec fn scanned_at(src: Seq<u8>, s: int, e: int, t: SourceToken) -> bool {
    &&& token_at(src, s, e, t.token)
    &&& loc_is(t.span.start, pos_at(src, s))
    &&& loc_is(t.span.end, pos_at(src, e - 1))
}

/// The end offset of the last of `bounds`, or 0 where there is none.
pub open spec fn last_end(bounds: Seq<(int, int)>) -> int {
    if bounds.len() == 0 {
        0
    } else {
        bounds.last().1
    }
}

/// `src[0..p]` is scanned as `toks`, token `i` from the bytes `bounds[i]`, with nothing but
/// whitespace before, between and after them.
pub open spec fn scanned_upto(
    src: Seq<u8>,
    p: int,
    toks: Seq<SourceToken>,
    bounds: Seq<(int, int)>,
) -> bool {
    &&& toks.len() == bounds.len()
    &&& 0 <= last_end(bounds) <= p <= src.len()
    &&& forall|i: int| 0 <= i < toks.len() ==> scanned_at(src, bounds[i].0, bounds[i].1, #[trigger] toks[i])
    &&& forall|i: int| 0 < i < toks.len() ==> bounds[i - 1].1 <= #[trigger] bounds[i].0
    &&& forall|i: int, k: int| 0 < i < toks.len() && bounds[i - 1].1 <= k < #[trigger] bounds[i].0 ==> is_ws(#[trigger] src[k])
    &&& toks.len() > 0 ==> all_in(src, 0, bounds[0].0, |b: u8| is_ws(b))
    &&& all_in(src, last_end(bounds), p, |b: u8| is_ws(b))
}

pub open spec fn is_symbol(t: SourceToken, s: Symbol) -> bool {
    t.token == Token::Symbol(s)
}

/// How many of `toks` are the symbol `s`.
pub open spec fn count_symbol(toks: Seq<SourceToken>, s: Symbol) -> nat
    decreases toks.len(),
{
    if toks.len() == 0 {
        0
    } else {
        count_symbol(toks.drop_last(), s) + if is_symbol(toks.last(), s) {
            1nat
        } else {
            0nat
        }
    }
}

/// Each entry of `blocks` is keyed by its own start, an opening brace of `toks` before the
/// closing brace at its end.
pub open spec fn blocks_valid(toks: Seq<SourceToken>, blocks: Map<usize, CodeBlock>) -> bool {
    forall|k: usize|
        #[trigger] blocks.contains_key(k) ==> {
            &&& blocks[k].start == k
            &&& k < blocks[k].end < toks.len()
            &&& is_symbol(toks[k as int], Symbol::BraceOpen)
            &&& is_symbol(toks[blocks[k].end as int], Symbol::BraceClose)
        }
}

/// The tokens of a successful scan of `src`, with their matched code blocks.
pub open spec fn lexed(src: Seq<u8>, toks: Seq<SourceToken>, blocks: Map<usize, CodeBlock>) -> bool {
    &&& exists|bounds: Seq<(int, int)>| scanned_upto(src, src.len() as int, toks, bounds)
    &&& blocks_valid(toks, blocks)
    &&& blocks.dom().finite()
    &&& count_symbol(toks, Symbol::BraceOpen) == blocks.len()
    &&& count_symbol(toks, Symbol::BraceClose) == blocks.len()
}

/// Spans of `toks` follow document order and do not overlap.
pub open spec fn spans_increasing(toks: Seq<SourceToken>) -> bool {
    &&& forall|i: int| 0 <= i < toks.len() ==> loc_le(#[trigger] toks[i].span.start, toks[i].span.end)
    &&& forall|i: int, j: int|
        0 <= i < j < toks.len() ==> loc_lt(#[trigger] toks[i].span.end, #[trigger] toks[j].span.start)
}

pub(crate) proof fn lemma_pos_bounds(src: Seq<u8>, n: int)
    requires
        0 <= n,
    ensures
        1 <= pos_at(src, n).0 <= n + 1,
        1 <= pos_at(src, n).1 <= n + 1,
    decreases n,
{
    if n > 0 {
        lemma_pos_bounds(src, n - 1);
    }
}

proof fn lemma_pos_increasing(src: Seq<u8>, a: int, b: int)
    requires
        0 <= a < b,
    ensures
        pos_at(src, a).0 < pos_at(src, b).0 || (pos_at(src, a).0 == pos_at(src, b).0 && pos_at(src, a).1 < pos_at(src, b).1),
    decreases b,
{
    if a < b - 1 {
        lemma_pos_increasing(src, a, b - 1);
    }
}

pub(crate) proof fn lemma_chars_extend(src: Seq<u8>, a: int, b: int)
    requires
        0 <= a <= b < src.len(),
    ensures
        chars_of(src.subrange(a, b + 1)) == chars_of(src.subrange(a, b)).push(src[b] as char),
{
    assert(chars_of(src.subrange(a, b + 1)) =~= chars_of(src.subrange(a, b)).push(src[b] as char));
}

/// After a newline the row goes one on and the column starts again from 1; after any other
/// byte the row stays and the column goes one on.
pub proof fn lemma_column_resets_after_newline(src: Seq<u8>, n: int)
    requires
        0 <= n < src.len(),
    ensures
        src[n] == 10 ==> pos_at(src, n + 1) == (pos_at(src, n).0 + 1, 1int),
        src[n] != 10 ==> pos_at(src, n + 1) == (pos_at(src, n).0, pos_at(src, n).1 + 1),
{
}

proof fn lemma_digits_grow(s: Seq<u8>, n: int)
    requires
        0 <= n <= s.len(),
        forall|k: int| 0 <= k < s.len() ==> is_digit(#[trigger] s[k]),
    ensures
        digits_value(s.subrange(0, n)) <= digits_value(s),
        0 <= digits_value(s.subrange(0, n)),
    decreases s.len(),
{
    if n < s.len() {
        assert(s.drop_last().subrange(0, n) =~= s.subrange(0, n));
        lemma_digits_grow(s.drop_last(), n);
    } else {
        assert(s.subrange(0, n) =~= s);
        if s.len() > 0 {
            lemma_digits_grow(s.drop_last(), n - 1);
            assert(s.drop_last().subrange(0, n - 1) =~= s.drop_last());
        }
    }
}

/// The value of the decimal digits `src[s..e]`, or `None` where it does not fit in an `i64`.
pub(crate) fn decimal_value(src: &[u8], s: usize, e: usize) -> (r: Option<i64>)
    requires
        s <= e <= src@.len(),
        all_in(src@, s as int, e as int, |b: u8| is_digit(b)),
    ensures
        r matches Some(v) ==> v == digits_value(src@.subrange(s as int, e as int)),
        r is None ==> digits_value(src@.subrange(s as int, e as int)) > i64::MAX,
{
    let mut v: i64 = 0;
    let mut i = s;
    assert(src@.subrange(s as int, s as int) =~= Seq::<u8>::empty());
    while i < e
        invariant
            s <= i <= e <= src@.len(),
            all_in(src@, s as int, e as int, |b: u8| is_digit(b)),
            0 <= v,
            v == digits_value(src@.subrange(s as int, i as int)),
        decreases e - i,
    {
        let d = (src[i] - 48u8) as i64;
        assert(src@.subrange(s as int, i + 1).drop_last() =~= src@.subrange(s as int, i as int));
        if v > 922337203685477580i64 || (v == 922337203685477580i64 && d > 7) {
            proof {
                let whole = src@.subrange(s as int, e as int);
                assert(whole.subrange(0, i + 1 - s) =~= src@.subrange(s as int, i + 1));
                lemma_digits_grow(whole, i + 1 - s);
            }
            return None;
        }
        v = v * 10 + d;
        i = i + 1;
    }
    Some(v)
}
pub(crate) proof fn lemma_count_push(toks: Seq<SourceToken>, t: SourceToken, s: Symbol)
    ensures
        count_symbol(toks.push(t), s) == count_symbol(toks, s) + if is_symbol(t, s) {
            1nat
        } else {
            0nat
        },
{
    assert(toks.push(t).drop_last() =~= toks);
}

pub(crate) proof fn lemma_scanned_ws(src: Seq<u8>, p: int, q: int, toks: Seq<SourceToken>, bounds: Seq<(int, int)>)
    requires
        scanned_upto(src, p, toks, bounds),
        p <= q <= src.len(),
        all_in(src, p, q, |b: u8| is_ws(b)),
    ensures
        scanned_upto(src, q, toks, bounds),
{
    assert forall|k: int| last_end(bounds) <= k < q implies #[trigger] is_ws(src[k]) by {
        if k >= p {
            assert((|b: u8| is_ws(b))(src[k]));
        } else {
            assert((|b: u8| is_ws(b))(src[k]));
        }
    }
}

pub(crate) proof fn lemma_scanned_push(
    src: Seq<u8>,
    p: int,
    toks: Seq<SourceToken>,
    bounds: Seq<(int, int)>,
    s: int,
    e: int,
    t: SourceToken,
)
    requires
        scanned_upto(src, p, toks, bounds),
        p <= s,
        all_in(src, p, s, |b: u8| is_ws(b)),
        scanned_at(src, s, e, t),
    ensures
        scanned_upto(src, e, toks.push(t), bounds.push((s, e))),
{
    lemma_scanned_ws(src, p, s, toks, bounds);
    let toks2 = toks.push(t);
    let bounds2 = bounds.push((s, e));
    assert forall|i: int| 0 <= i < toks2.len() implies scanned_at(src, bounds2[i].0, bounds2[i].1, #[trigger] toks2[i]) by {
        if i < toks.len() {
            assert(toks2[i] == toks[i]);
        }
    }
    assert forall|i: int, k: int| 0 < i < toks2.len() && bounds2[i - 1].1 <= k < #[trigger] bounds2[i].0 implies is_ws(#[trigger] src[k]) by {
        if i < toks.len() {
        } else {
            assert((|b: u8| is_ws(b))(src[k]));
        }
    }
    if toks.len() == 0 {
        assert forall|k: int| 0 <= k < bounds2[0].0 implies #[trigger] is_ws(src[k]) by {
            assert((|b: u8| is_ws(b))(src[k]));
        }
    }
}

/// Every span of a scan starts no later than it ends and ends before the next one starts.
pub(crate) proof fn lemma_spans_increasing(src: Seq<u8>, p: int, toks: Seq<SourceToken>, bounds: Seq<(int, int)>)
    requires
        scanned_upto(src, p, toks, bounds),
    ensures
        spans_increasing(toks),
{
    assert forall|i: int| 0 <= i < toks.len() implies loc_le(#[trigger] toks[i].span.start, toks[i].span.end) by {
        assert(scanned_at(src, bounds[i].0, bounds[i].1, toks[i]));
        if bounds[i].0 < bounds[i].1 - 1 {
            lemma_pos_increasing(src, bounds[i].0, bounds[i].1 - 1);
        }
    }
    assert forall|i: int, j: int| 0 <= i < j < toks.len() implies loc_lt(#[trigger] toks[i].span.end, #[trigger] toks[j].span.start) by {
        lemma_bounds_ordered(src, p, toks, bounds, i, j);
        assert(scanned_at(src, bounds[i].0, bounds[i].1, toks[i]));
        assert(scanned_at(src, bounds[j].0, bounds[j].1, toks[j]));
        lemma_pos_increasing(src, bounds[i].1 - 1, bounds[j].0);
    }
}

proof fn lemma_bounds_ordered(src: Seq<u8>, p: int, toks: Seq<SourceToken>, bounds: Seq<(int, int)>, i: int, j: int)
    requires
        scanned_upto(src, p, toks, bounds),
        0 <= i < j < toks.len(),
    ensures
        bounds[i].1 <= bounds[j].0,
    decreases j - i,
{
    assert(bounds[j - 1].1 <= bounds[j].0);
    assert(scanned_at(src, bounds[j - 1].0, bounds[j - 1].1, toks[j - 1]));
    if i < j - 1 {
        lemma_bounds_ordered(src, p, toks, bounds, i, j - 1);
    }
}


/// Closing braces never outnumber the opening braces before them.
pub open spec fn braces_nested(toks: Seq<SourceToken>) -> bool {
    forall|n: int|
        0 <= n <= toks.len() ==> count_symbol(#[trigger] toks.subrange(0, n), Symbol::BraceClose) <= count_symbol(
            toks.subrange(0, n),
            Symbol::BraceOpen,
        )
}

/// Braces nest within `toks` and as many close as open.
pub open spec fn balanced_run(toks: Seq<SourceToken>) -> bool {
    braces_nested(toks) && count_symbol(toks, Symbol::BraceOpen) == count_symbol(toks, Symbol::BraceClose)
}

pub(crate) proof fn lemma_count_concat(a: Seq<SourceToken>, b: Seq<SourceToken>, sym: Symbol)
    ensures
        count_symbol(a + b, sym) == count_symbol(a, sym) + count_symbol(b, sym),
    decreases b.len(),
{
    if b.len() == 0 {
        assert(a + b =~= a);
    } else {
        assert((a + b).drop_last() =~= a + b.drop_last());
        assert((a + b).last() == b.last());
        lemma_count_concat(a, b.drop_last(), sym);
    }
}

pub(crate) proof fn lemma_nested_push(toks: Seq<SourceToken>, t: SourceToken)
    requires
        braces_nested(toks),
        is_symbol(t, Symbol::BraceClose) ==> count_symbol(toks, Symbol::BraceClose) < count_symbol(
            toks,
            Symbol::BraceOpen,
        ),
    ensures
        braces_nested(toks.push(t)),
{
    let toks1 = toks.push(t);
    assert forall|n: int| 0 <= n <= toks1.len() implies count_symbol(#[trigger] toks1.subrange(0, n), Symbol::BraceClose)
        <= count_symbol(toks1.subrange(0, n), Symbol::BraceOpen) by {
        if n < toks1.len() {
            assert(toks1.subrange(0, n) =~= toks.subrange(0, n));
        } else {
            assert(toks1.subrange(0, n) =~= toks1);
            assert(toks.subrange(0, toks.len() as int) =~= toks);
            lemma_count_push(toks, t, Symbol::BraceOpen);
            lemma_count_push(toks, t, Symbol::BraceClose);
        }
    }
}

proof fn lemma_nested_concat(a: Seq<SourceToken>, b: Seq<SourceToken>)
    requires
        braces_nested(a),
        braces_nested(b),
    ensures
        braces_nested(a + b),
{
    let c = a + b;
    assert(a.subrange(0, a.len() as int) =~= a);
    assert forall|n: int| 0 <= n <= c.len() implies count_symbol(#[trigger] c.subrange(0, n), Symbol::BraceClose)
        <= count_symbol(c.subrange(0, n), Symbol::BraceOpen) by {
        if n <= a.len() {
            assert(c.subrange(0, n) =~= a.subrange(0, n));
        } else {
            let m = n - a.len();
            assert(c.subrange(0, n) =~= a + b.subrange(0, m));
            lemma_count_concat(a, b.subrange(0, m), Symbol::BraceOpen);
            lemma_count_concat(a, b.subrange(0, m), Symbol::BraceClose);
        }
    }
}

/// An opening brace, a balanced run, a second balanced run and a closing brace after them make a
/// balanced run.
pub(crate) proof fn lemma_wrap_balanced(
    a: Seq<SourceToken>,
    open: SourceToken,
    b: Seq<SourceToken>,
    close: SourceToken,
)
    requires
        balanced_run(a),
        balanced_run(b),
        is_symbol(open, Symbol::BraceOpen),
        is_symbol(close, Symbol::BraceClose),
    ensures
        balanced_run(a.push(open) + b.push(close)),
{
    let e: Seq<SourceToken> = Seq::empty();
    assert(e.push(open).drop_last() =~= e);
    lemma_nested_push(e, open);
    assert(a.push(open) =~= a + e.push(open));
    lemma_nested_concat(a, e.push(open));
    lemma_count_push(a, open, Symbol::BraceOpen);
    lemma_count_push(a, open, Symbol::BraceClose);
    let x = a.push(open) + b;
    lemma_nested_concat(a.push(open), b);
    lemma_count_concat(a.push(open), b, Symbol::BraceOpen);
    lemma_count_concat(a.push(open), b, Symbol::BraceClose);
    lemma_nested_push(x, close);
    lemma_count_push(x, close, Symbol::BraceOpen);
    lemma_count_push(x, close, Symbol::BraceClose);
    assert(a.push(open) + b.push(close) =~= x.push(close));
}

/// `src` scans whole into tokens whose braces nest and balance: the inputs that lex.
pub open spec fn lexable(src: Seq<u8>) -> bool {
    exists|toks: Seq<SourceToken>, bounds: Seq<(int, int)>|
        {
            &&& scanned_upto(src, src.len() as int, toks, bounds)
            &&& braces_nested(toks)
            &&& count_symbol(toks, Symbol::BraceOpen) == count_symbol(toks, Symbol::BraceClose)
        }
}

/// A token never starts with whitespace, and it is a brace exactly where its first byte is.
proof fn lemma_token_start(src: Seq<u8>, s: int, e: int, t: Token)
    requires
        token_at(src, s, e, t),
    ensures
        !is_ws(src[s]),
        starts_token(src[s]) || src[s] == 47,
        (t == Token::Symbol(Symbol::BraceOpen)) == (src[s] == 123),
        (t == Token::Symbol(Symbol::BraceClose)) == (src[s] == 125),
        src[s] == 34 ==> t is StringLiteral,
        is_digit(src[s]) ==> t is IntegerLiteral,
{
    match t {
        Token::IntegerLiteral(_) => {
            assert(is_digit(src[s]));
        },
        Token::Keyword(_) => {
            assert(is_alnum(src[s]));
        },
        Token::Identifier(_) => {
            assert(is_alnum(src[s]));
        },
        _ => {},
    }
}

/// Where a token starts, its end is settled.
proof fn lemma_token_end_unique(src: Seq<u8>, s: int, e1: int, t1: Token, e2: int, t2: Token)
    requires
        token_at(src, s, e1, t1),
        token_at(src, s, e2, t2),
    ensures
        e1 == e2,
{
    lemma_token_start(src, s, e1, t1);
    lemma_token_start(src, s, e2, t2);
    lemma_token_end_not_before(src, s, e1, t1, e2, t2);
    lemma_token_end_not_before(src, s, e2, t2, e1, t1);
}

proof fn lemma_token_end_not_before(src: Seq<u8>, s: int, e1: int, t1: Token, e2: int, t2: Token)
    requires
        token_at(src, s, e1, t1),
        token_at(src, s, e2, t2),
    ensures
        e2 <= e1,
{
    lemma_token_start(src, s, e1, t1);
    lemma_token_start(src, s, e2, t2);
    if e1 < e2 {
    match t1 {
        Token::Comment(_) => {
            if !(t2 is Comment) {
                assert(t2 is Symbol);
            } else {
                assert(src[e1] != 10);
            }
        },
        Token::StringLiteral(_) => {
            assert(t2 is StringLiteral);
            assert(src[e1 - 1] != 34);
        },
        Token::IntegerLiteral(_) => {
            assert(t2 is IntegerLiteral);
            assert(is_digit(src[e1]));
        },
        Token::Keyword(_) => {
            assert(is_alnum(src[e1]));
        },
        Token::Identifier(_) => {
            assert(is_alnum(src[e1]));
        },
        Token::Symbol(sym) => {
            if t2 is Comment {
            } else {
                assert(e2 == s + 1);
            }
        },
        Token::End => {},
    }
    }
}

/// Two scans of one source agree on where each of their common tokens lies, and the shorter
/// one's tokens are all in the longer one.
proof fn lemma_scans_agree(
    src: Seq<u8>,
    p1: int,
    t1: Seq<SourceToken>,
    b1: Seq<(int, int)>,
    t2: Seq<SourceToken>,
    b2: Seq<(int, int)>,
    i: int,
)
    requires
        scanned_upto(src, p1, t1, b1),
        scanned_upto(src, src.len() as int, t2, b2),
        0 <= i < t1.len(),
    ensures
        i < t2.len(),
        b1[i] == b2[i],
    decreases i,
{
    let prev1 = if i == 0 {
        0
    } else {
        b1[i - 1].1
    };
    if i > 0 {
        lemma_scans_agree(src, p1, t1, b1, t2, b2, i - 1);
    }
    assert(scanned_at(src, b1[i].0, b1[i].1, t1[i]));
    lemma_token_start(src, b1[i].0, b1[i].1, t1[i].token);
    let s1 = b1[i].0;
    // bytes from prev1 up to s1 are whitespace in the first scan
    assert forall|k: int| prev1 <= k < s1 implies is_ws(#[trigger] src[k]) by {
        if i > 0 {
            assert(b1[i - 1].1 <= k < b1[i].0);
        }
    }
    if i >= t2.len() {
        // the second scan ends with whitespace over s1
        assert(last_end(b2) == prev1) by {
            if i > 0 {
                assert(b2[i - 1] == b1[i - 1]);
            }
        }
        assert(is_ws(src[s1]));
    } else {
        assert(scanned_at(src, b2[i].0, b2[i].1, t2[i]));
        lemma_token_start(src, b2[i].0, b2[i].1, t2[i].token);
        let s2 = b2[i].0;
        assert(prev1 <= s2) by {
            if i > 0 {
                assert(b2[i - 1].1 <= b2[i].0);
            }
        }
        if s1 < s2 {
            if i > 0 {
                assert(b2[i - 1].1 <= s1 < b2[i].0);
            }
            assert(is_ws(src[s1]));
        } else if s2 < s1 {
            assert(is_ws(src[s2]));
        }
        lemma_token_end_unique(src, s1, b1[i].1, t1[i].token, b2[i].1, t2[i].token);
    }
}

/// Where a prefix scan stops before a byte that is no whitespace, a whole scan has its next
/// token start at that byte.
proof fn lemma_next_token_at(
    src: Seq<u8>,
    p: int,
    t1: Seq<SourceToken>,
    b1: Seq<(int, int)>,
    t2: Seq<SourceToken>,
    b2: Seq<(int, int)>,
)
    requires
        scanned_upto(src, p, t1, b1),
        scanned_upto(src, src.len() as int, t2, b2),
        p < src.len(),
        !is_ws(src[p]),
    ensures
        t1.len() < t2.len(),
        b2[t1.len() as int].0 == p,
        forall|i: int| 0 <= i < t1.len() ==> b1[i] == b2[i],
{
    assert forall|i: int| 0 <= i < t1.len() implies b1[i] == b2[i] by {
        lemma_scans_agree(src, p, t1, b1, t2, b2, i);
    }
    let n = t1.len() as int;
    if n > 0 {
        lemma_scans_agree(src, p, t1, b1, t2, b2, n - 1);
    }
    let le = last_end(b1);
    if n >= t2.len() {
        assert(last_end(b2) == le);
        assert(is_ws(src[p]));
    } else {
        let s2 = b2[n].0;
        assert(scanned_at(src, s2, b2[n].1, t2[n]));
        lemma_token_start(src, s2, b2[n].1, t2[n].token);
        assert(le <= s2) by {
            if n > 0 {
                assert(b2[n - 1].1 <= b2[n].0);
            }
        }
        if s2 < p {
            assert(is_ws(src[s2]));
        } else if p < s2 {
            if n > 0 {
                assert(b2[n - 1].1 <= p < b2[n].0);
            }
            assert(is_ws(src[p]));
        }
    }
}

proof fn lemma_counts_agree(t1: Seq<SourceToken>, t2: Seq<SourceToken>, n: int, sym: Symbol)
    requires
        0 <= n <= t1.len(),
        n <= t2.len(),
        forall|i: int| 0 <= i < n ==> is_symbol(#[trigger] t1[i], sym) == is_symbol(t2[i], sym),
    ensures
        count_symbol(t1.subrange(0, n), sym) == count_symbol(t2.subrange(0, n), sym),
    decreases n,
{
    if n > 0 {
        lemma_counts_agree(t1, t2, n - 1, sym);
        assert(t1.subrange(0, n).drop_last() =~= t1.subrange(0, n - 1));
        assert(t2.subrange(0, n).drop_last() =~= t2.subrange(0, n - 1));
    }
}

/// A scan of a prefix and a whole scan that shares its token bounds agree on their brace counts.
proof fn lemma_prefix_counts(
    src: Seq<u8>,
    p: int,
    t1: Seq<SourceToken>,
    b1: Seq<(int, int)>,
    t2: Seq<SourceToken>,
    b2: Seq<(int, int)>,
)
    requires
        scanned_upto(src, p, t1, b1),
        scanned_upto(src, src.len() as int, t2, b2),
        t1.len() <= t2.len(),
        forall|i: int| 0 <= i < t1.len() ==> b1[i] == b2[i],
    ensures
        count_symbol(t1, Symbol::BraceOpen) == count_symbol(t2.subrange(0, t1.len() as int), Symbol::BraceOpen),
        count_symbol(t1, Symbol::BraceClose) == count_symbol(t2.subrange(0, t1.len() as int), Symbol::BraceClose),
{
    let n = t1.len() as int;
    assert forall|i: int| 0 <= i < n implies (is_symbol(#[trigger] t1[i], Symbol::BraceOpen) == is_symbol(
        t2[i],
        Symbol::BraceOpen,
    ) && is_symbol(t1[i], Symbol::BraceClose) == is_symbol(t2[i], Symbol::BraceClose)) by {
        assert(scanned_at(src, b1[i].0, b1[i].1, t1[i]));
        assert(scanned_at(src, b2[i].0, b2[i].1, t2[i]));
        lemma_token_start(src, b1[i].0, b1[i].1, t1[i].token);
        lemma_token_start(src, b2[i].0, b2[i].1, t2[i].token);
    }
    lemma_counts_agree(t1, t2, n, Symbol::BraceOpen);
    lemma_counts_agree(t1, t2, n, Symbol::BraceClose);
    assert(t1.subrange(0, n) =~= t1);
}

/// No input on which scanning stops with a failure lexes.
pub(crate) proof fn lemma_failure_not_lexable(src: Seq<u8>, pos: Position, msg: Seq<char>)
    requires
        lex_failure(src, pos, msg),
    ensures
        !lexable(src),
{
    if lexable(src) {
        let (t2, b2) = choose|toks: Seq<SourceToken>, bounds: Seq<(int, int)>|
            {
                &&& scanned_upto(src, src.len() as int, toks, bounds)
                &&& braces_nested(toks)
                &&& count_symbol(toks, Symbol::BraceOpen) == count_symbol(toks, Symbol::BraceClose)
            };
        let p = pos.idx as int;
        if msg == "Unrecognised input"@ && p < src.len() && !is_ws(src[p]) && !starts_token(src[p]) && exists|
            toks: Seq<SourceToken>,
            bounds: Seq<(int, int)>,
        | scanned_upto(src, p, toks, bounds) {
            let (t1, b1) = choose|toks: Seq<SourceToken>, bounds: Seq<(int, int)>| scanned_upto(src, p, toks, bounds);
            lemma_next_token_at(src, p, t1, b1, t2, b2);
            let n = t1.len() as int;
            assert(scanned_at(src, b2[n].0, b2[n].1, t2[n]));
            lemma_token_start(src, b2[n].0, b2[n].1, t2[n].token);
            // a '/' that starts no comment is a symbol
            assert(symbol_of(47) is Some);
        } else if msg == "Unmatched closing brace"@ && p < src.len() && src[p] == 125 && exists|
            toks: Seq<SourceToken>,
            bounds: Seq<(int, int)>,
        |
            scanned_upto(src, p, toks, bounds) && count_symbol(toks, Symbol::BraceOpen) == count_symbol(
                toks,
                Symbol::BraceClose,
            ) {
            let (t1, b1) = choose|toks: Seq<SourceToken>, bounds: Seq<(int, int)>|
                scanned_upto(src, p, toks, bounds) && count_symbol(toks, Symbol::BraceOpen) == count_symbol(
                    toks,
                    Symbol::BraceClose,
                );
            lemma_next_token_at(src, p, t1, b1, t2, b2);
            let n = t1.len() as int;
            assert(scanned_at(src, b2[n].0, b2[n].1, t2[n]));
            lemma_token_start(src, b2[n].0, b2[n].1, t2[n].token);
            lemma_prefix_counts(src, p, t1, b1, t2, b2);
            let pre = t2.subrange(0, n + 1);
            assert(pre.drop_last() =~= t2.subrange(0, n));
            assert(pre.last() == t2[n]);
            assert(count_symbol(pre, Symbol::BraceClose) <= count_symbol(pre, Symbol::BraceOpen));
        } else if msg == "Unclosed code block."@ && exists|toks: Seq<SourceToken>, bounds: Seq<(int, int)>|
            {
                &&& scanned_upto(src, src.len() as int, toks, bounds)
                &&& count_symbol(toks, Symbol::BraceOpen) > count_symbol(toks, Symbol::BraceClose)
                &&& exists|k: int|
                    0 <= k < toks.len() && is_symbol(#[trigger] toks[k], Symbol::BraceOpen) && bounds[k].0 == p
                        && balanced_run(toks.subrange(k + 1, toks.len() as int))
            } {
            let (t1, b1) = choose|toks: Seq<SourceToken>, bounds: Seq<(int, int)>|
                {
                    &&& scanned_upto(src, src.len() as int, toks, bounds)
                    &&& count_symbol(toks, Symbol::BraceOpen) > count_symbol(toks, Symbol::BraceClose)
                    &&& exists|k: int|
                        0 <= k < toks.len() && is_symbol(#[trigger] toks[k], Symbol::BraceOpen) && bounds[k].0 == p
                            && balanced_run(toks.subrange(k + 1, toks.len() as int))
                };
            lemma_whole_scans_same_length(src, t1, b1, t2, b2);
            lemma_prefix_counts(src, src.len() as int, t1, b1, t2, b2);
            assert(t2.subrange(0, t2.len() as int) =~= t2);
        } else if msg == "Unterminated string literal."@ && exists|
            q: int,
            toks: Seq<SourceToken>,
            bounds: Seq<(int, int)>,
        |
            {
                &&& scanned_upto(src, q, toks, bounds)
                &&& q < src.len() && src[q] == 34
                &&& all_in(src, q + 1, src.len() as int, |b: u8| b != 34)
            } {
            let (q, t1, b1) = choose|q: int, toks: Seq<SourceToken>, bounds: Seq<(int, int)>|
                {
                    &&& scanned_upto(src, q, toks, bounds)
                    &&& q < src.len() && src[q] == 34
                    &&& all_in(src, q + 1, src.len() as int, |b: u8| b != 34)
                };
            lemma_next_token_at(src, q, t1, b1, t2, b2);
            let n = t1.len() as int;
            assert(scanned_at(src, b2[n].0, b2[n].1, t2[n]));
            lemma_token_start(src, b2[n].0, b2[n].1, t2[n].token);
            assert(src[b2[n].1 - 1] == 34);
        } else if msg == "Integer literal out of range."@ && (p == src.len() || !is_digit(src[p])) && exists|
            q: int,
            toks: Seq<SourceToken>,
            bounds: Seq<(int, int)>,
        |
            {
                &&& scanned_upto(src, q, toks, bounds)
                &&& q < p <= src.len()
                &&& all_in(src, q, p, |b: u8| is_digit(b))
                &&& digits_value(src.subrange(q, p)) > i64::MAX
            } {
            let (q, t1, b1) = choose|q: int, toks: Seq<SourceToken>, bounds: Seq<(int, int)>|
                {
                    &&& scanned_upto(src, q, toks, bounds)
                    &&& q < p <= src.len()
                    &&& all_in(src, q, p, |b: u8| is_digit(b))
                    &&& digits_value(src.subrange(q, p)) > i64::MAX
                };
            assert(is_digit(src[q]));
            lemma_next_token_at(src, q, t1, b1, t2, b2);
            let n = t1.len() as int;
            assert(scanned_at(src, b2[n].0, b2[n].1, t2[n]));
            lemma_token_start(src, b2[n].0, b2[n].1, t2[n].token);
            let e = b2[n].1;
            if e < p {
                assert(is_digit(src[e]));
            } else if p < e {
                assert(is_digit(src[p]));
            }
        }
    }
}

proof fn lemma_whole_scans_same_length(
    src: Seq<u8>,
    t1: Seq<SourceToken>,
    b1: Seq<(int, int)>,
    t2: Seq<SourceToken>,
    b2: Seq<(int, int)>,
)
    requires
        scanned_upto(src, src.len() as int, t1, b1),
        scanned_upto(src, src.len() as int, t2, b2),
    ensures
        t1.len() == t2.len(),
        forall|i: int| 0 <= i < t1.len() ==> b1[i] == b2[i],
{
    assert forall|i: int| 0 <= i < t1.len() implies b1[i] == b2[i] by {
        lemma_scans_agree(src, src.len() as int, t1, b1, t2, b2, i);
    }
    if t1.len() < t2.len() {
        let n = t1.len() as int;
        if n > 0 {
            lemma_scans_agree(src, src.len() as int, t1, b1, t2, b2, n - 1);
        }
        assert(scanned_at(src, b2[n].0, b2[n].1, t2[n]));
        lemma_token_start(src, b2[n].0, b2[n].1, t2[n].token);
        assert(last_end(b1) <= b2[n].0) by {
            if n > 0 {
                assert(b2[n - 1].1 <= b2[n].0);
            }
        }
        assert(is_ws(src[b2[n].0]));
    } else if t2.len() < t1.len() {
        let n = t2.len() as int;
        lemma_scans_agree(src, src.len() as int, t1, b1, t2, b2, n);
    }
}

/// Why scanning `src` stopped at `pos` with message `msg`.
pub open spec fn lex_failure(src: Seq<u8>, pos: Position, msg: Seq<char>) -> bool {
    let p = pos.idx as int;
    ||| {
        &&& msg == "Unrecognised input"@
        &&& p < src.len() && !is_ws(src[p]) && !starts_token(src[p])
        &&& loc_is(pos.span_spec(), pos_at(src, p))
        &&& exists|toks: Seq<SourceToken>, bounds: Seq<(int, int)>| scanned_upto(src, p, toks, bounds)
    }
    ||| {
        &&& msg == "Unmatched closing brace"@
        &&& p < src.len() && src[p] == 125
        &&& loc_is(pos.span_spec(), pos_at(src, p))
        &&& exists|toks: Seq<SourceToken>, bounds: Seq<(int, int)>|
            scanned_upto(src, p, toks, bounds) && count_symbol(toks, Symbol::BraceOpen) == count_symbol(
                toks,
                Symbol::BraceClose,
            )
    }
    ||| {
        &&& msg == "Unclosed code block."@
        &&& loc_is(pos.span_spec(), pos_at(src, p))
        &&& exists|toks: Seq<SourceToken>, bounds: Seq<(int, int)>|
            {
                &&& scanned_upto(src, src.len() as int, toks, bounds)
                &&& count_symbol(toks, Symbol::BraceOpen) > count_symbol(toks, Symbol::BraceClose)
                &&& exists|k: int|
                    0 <= k < toks.len() && is_symbol(#[trigger] toks[k], Symbol::BraceOpen) && bounds[k].0 == p
                        && balanced_run(toks.subrange(k + 1, toks.len() as int))
            }
    }
    ||| {
        &&& msg == "Unterminated string literal."@
        &&& p == src.len()
        &&& loc_is(pos.span_spec(), pos_at(src, p))
        &&& exists|q: int, toks: Seq<SourceToken>, bounds: Seq<(int, int)>|
            {
                &&& scanned_upto(src, q, toks, bounds)
                &&& q < src.len() && src[q] == 34
                &&& all_in(src, q + 1, src.len() as int, |b: u8| b != 34)
            }
    }
    ||| {
        &&& msg == "Integer literal out of range."@
        &&& loc_is(pos.span_spec(), pos_at(src, p))
        &&& p == src.len() || !is_digit(src[p])
        &&& exists|q: int, toks: Seq<SourceToken>, bounds: Seq<(int, int)>|
            {
                &&& scanned_upto(src, q, toks, bounds)
                &&& q < p <= src.len()
                &&& all_in(src, q, p, |b: u8| is_digit(b))
                &&& digits_value(src.subrange(q, p)) > i64::MAX
            }
    }
}

} // verus!
