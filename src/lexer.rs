use std::collections::HashMap;
use vstd::prelude::*;

use crate::parser::Failure;
use crate::scan::{
    all_in, balanced_run, lemma_nested_push, lemma_wrap_balanced, blocks_valid, chars_of, count_symbol, decimal_value, is_symbol, is_ws, lemma_chars_extend,
    lemma_count_push, lemma_failure_not_lexable, lemma_pos_bounds, lemma_scanned_push, lemma_scanned_ws,
    lemma_spans_increasing, lex_failure, lexable, lexed, loc_is, pos_at, scanned_at, scanned_upto,
    spans_increasing, braces_nested, is_alnum, is_digit,
};
use crate::span::{Location, Position, Span};
use crate::text::string_from_chars;
use crate::token::{token_eq, Keyword, Symbol, Token};

verus! {

/// Wrapper around [Token] that associates it with a [Span].
#[derive(Debug)]
pub struct SourceToken {
    pub token: Token,
    pub span: Span,
}

/// A code block is a section of code that's surrounded by braces: the indices, in the lexer's
/// token output, of the opening brace and of its matching closing brace.
#[derive(Clone, Copy, Debug, PartialEq, Eq, Structural)]
pub struct CodeBlock {
    /// The index of the opening brace symbol token.
    pub start: usize,
    /// The index of the closing brace symbol token.
    pub end: usize,
}

pub struct Lexer<'src> {
    source: &'src [u8],
    lexeme: Vec<char>,
    tokens: Vec<SourceToken>,
    position: Position,
    /// Code blocks that were identified during lexing, indexed by their start position in the
    /// tokens vector for easier lookup later.
    code_blocks: HashMap<usize, CodeBlock>,
}

/// Character classes that the scanner takes runs of.
enum Run {
    Digits,
    Alphanumeric,
    UntilNewline,
    UntilQuote,
}

spec fn in_run(r: Run, b: u8) -> bool {
    match r {
        Run::Digits => is_digit(b),
        Run::Alphanumeric => is_alnum(b),
        Run::UntilNewline => b != 10,
        Run::UntilQuote => b != 34,
    }
}

impl<'src> Lexer<'src> {
    spec fn wf(&self) -> bool {
        &&& self.source@.len() < usize::MAX
        &&& self.position.idx <= self.source@.len()
        &&& loc_is(self.position.span_spec(), pos_at(self.source@, self.position.idx as int))
    }

    fn new(source: &'src [u8]) -> (r: Lexer<'src>)
        requires
            source@.len() < usize::MAX,
        ensures
            r.wf(),
            r.source@ == source@,
            r.position.idx == 0,
            r.tokens@.len() == 0,
            r.code_blocks@ == Map::<usize, CodeBlock>::empty(),
    {
        Lexer {
            source,
            lexeme: Vec::new(),
            tokens: Vec::new(),
            position: Position { idx: 0, row: 1, col: 1 },
            code_blocks: HashMap::new(),
        }
    }

    /// View the current character in the source
    fn peek(&self) -> (r: Option<u8>)
        requires
            self.wf(),
        ensures
            self.position.idx < self.source@.len() ==> r == Some(self.source@[self.position.idx as int]),
            self.position.idx == self.source@.len() ==> r is None,
    {
        if self.position.idx < self.source.len() {
            Some(self.source[self.position.idx])
        } else {
            None
        }
    }

    /// View the character `amount` places after the current one
    fn peek_next(&self, amount: usize) -> (r: Option<u8>)
        requires
            self.wf(),
        ensures
            self.position.idx + amount < self.source@.len() ==> r == Some(self.source@[self.position.idx + amount]),
            self.position.idx + amount >= self.source@.len() ==> r is None,
    {
        if amount < self.source.len() - self.position.idx {
            Some(self.source[self.position.idx + amount])
        } else {
            None
        }
    }

    /// Move `count` characters along the source, keeping row and column in step, and append
    /// them to the lexeme where `take` is set.
    fn advance(&mut self, count: usize, take: bool)
        requires
            old(self).wf(),
            old(self).position.idx + count <= old(self).source@.len(),
        ensures
            final(self).wf(),
            final(self).source == old(self).source,
            final(self).tokens == old(self).tokens,
            final(self).code_blocks == old(self).code_blocks,
            final(self).position.idx == old(self).position.idx + count,
            take ==> final(self).lexeme@ == old(self).lexeme@ + chars_of(
                old(self).source@.subrange(old(self).position.idx as int, old(self).position.idx + count),
            ),
            !take ==> final(self).lexeme == old(self).lexeme,
    {
        let ghost start = self.position.idx as int;
        let ghost lex0 = self.lexeme@;
        let ghost src = self.source@;
        let end = self.position.idx + count;
        while self.position.idx < end
            invariant
                self.wf(),
                self.source@ == src,
                0 <= start <= self.position.idx <= end <= src.len(),
                self.tokens == old(self).tokens,
                self.code_blocks == old(self).code_blocks,
                take ==> self.lexeme@ == lex0 + chars_of(src.subrange(start, self.position.idx as int)),
                !take ==> self.lexeme == old(self).lexeme,
            decreases end - self.position.idx,
        {
            let c = self.source[self.position.idx];
            proof {
                lemma_pos_bounds(src, self.position.idx as int);
                lemma_chars_extend(src, start, self.position.idx as int);
            }
            if c == 10u8 {
                self.position.row = self.position.row + 1;
                self.position.col = 1;
            } else {
                self.position.col = self.position.col + 1;
            }
            if take {
                self.lexeme.push(c as char);
            }
            self.position.idx = self.position.idx + 1;
        }
    }

    /// How many characters from the current one on belong to the run `r`.
    fn run_length(&self, r: &Run) -> (n: usize)
        requires
            self.wf(),
        ensures
            self.position.idx + n <= self.source@.len(),
            all_in(self.source@, self.position.idx as int, self.position.idx + n, |b: u8| in_run(*r, b)),
            self.position.idx + n == self.source@.len() || !in_run(*r, self.source@[self.position.idx + n]),
    {
        let mut i = self.position.idx;
        while i < self.source.len()
            invariant
                self.wf(),
                self.position.idx <= i <= self.source@.len(),
                all_in(self.source@, self.position.idx as int, i as int, |b: u8| in_run(*r, b)),
            ensures
                i == self.source@.len() || !in_run(*r, self.source@[i as int]),
            decreases self.source@.len() - i,
        {
            let c = self.source[i];
            let more = match r {
                Run::Digits => 48u8 <= c && c <= 57u8,
                Run::Alphanumeric => (48u8 <= c && c <= 57u8) || (65u8 <= c && c <= 90u8) || (97u8 <= c && c <= 122u8),
                Run::UntilNewline => c != 10u8,
                Run::UntilQuote => c != 34u8,
            };
            if !more {
                break;
            }
            i = i + 1;
        }
        i - self.position.idx
    }

    /// Move along the source from the current position, taking all characters of the run `r`
    /// into the lexeme. Once a character does not belong, stop.
    fn take_while(&mut self, r: Run)
        requires
            old(self).wf(),
        ensures
            final(self).wf(),
            final(self).source == old(self).source,
            final(self).tokens == old(self).tokens,
            final(self).code_blocks == old(self).code_blocks,
            old(self).position.idx <= final(self).position.idx <= final(self).source@.len(),
            all_in(final(self).source@, old(self).position.idx as int, final(self).position.idx as int, |b: u8| in_run(r, b)),
            final(self).position.idx == final(self).source@.len() || !in_run(r, final(self).source@[final(self).position.idx as int]),
            final(self).lexeme@ == old(self).lexeme@ + chars_of(
                old(self).source@.subrange(old(self).position.idx as int, final(self).position.idx as int),
            ),
    {
        let n = self.run_length(&r);
        self.advance(n, true);
    }

    fn skip_all_whitespace(&mut self)
        requires
            old(self).wf(),
        ensures
            final(self).wf(),
            final(self).source == old(self).source,
            final(self).tokens == old(self).tokens,
            final(self).code_blocks == old(self).code_blocks,
            final(self).lexeme == old(self).lexeme,
            old(self).position.idx <= final(self).position.idx <= final(self).source@.len(),
            all_in(final(self).source@, old(self).position.idx as int, final(self).position.idx as int, |b: u8| is_ws(b)),
            final(self).position.idx == final(self).source@.len() || !is_ws(final(self).source@[final(self).position.idx as int]),
    {
        let mut i = self.position.idx;
        while i < self.source.len()
            invariant
                self.wf(),
                self.position.idx <= i <= self.source@.len(),
                all_in(self.source@, self.position.idx as int, i as int, |b: u8| is_ws(b)),
            ensures
                i == self.source@.len() || !is_ws(self.source@[i as int]),
            decreases self.source@.len() - i,
        {
            let c = self.source[i];
            if !(c == 32u8 || c == 9u8 || c == 10u8 || c == 12u8 || c == 13u8) {
                break;
            }
            i = i + 1;
        }
        let n = i - self.position.idx;
        self.advance(n, false);
    }

    /// Move along the source by up to `amount` characters without taking them.
    fn skip(&mut self, amount: usize)
        requires
            old(self).wf(),
        ensures
            final(self).wf(),
            final(self).source == old(self).source,
            final(self).tokens == old(self).tokens,
            final(self).code_blocks == old(self).code_blocks,
            final(self).lexeme == old(self).lexeme,
            old(self).position.idx + amount <= old(self).source@.len() ==> final(self).position.idx
                == old(self).position.idx + amount,
            old(self).position.idx + amount > old(self).source@.len() ==> final(self).position.idx
                == old(self).source@.len(),
    {
        let left = self.source.len() - self.position.idx;
        let n = if amount < left {
            amount
        } else {
            left
        };
        self.advance(n, false);
    }

    /// Convert the lexeme to a string
    fn lexeme_to_str(&self) -> (r: String)
        ensures
            r@ == self.lexeme@,
    {
        string_from_chars(&self.lexeme)
    }

    /// Record `token`, spanning from `start` to the character before the current one.
    fn add_token(&mut self, token: Token, start: Location)
        requires
            old(self).wf(),
        ensures
            final(self).wf(),
            final(self).source == old(self).source,
            final(self).position == old(self).position,
            final(self).code_blocks == old(self).code_blocks,
            final(self).lexeme == old(self).lexeme,
            old(self).position.col >= 1,
            final(self).tokens@ == old(self).tokens@.push(
                SourceToken {
                    token,
                    span: Span {
                        start,
                        end: Location { row: old(self).position.row, col: (old(self).position.col - 1) as usize },
                    },
                },
            ),
    {
        proof {
            lemma_pos_bounds(self.source@, self.position.idx as int);
        }
        let mut current_pos = self.position.span();
        current_pos.col = current_pos.col - 1;
        self.tokens.push(SourceToken { token, span: Span { start, end: current_pos } });
    }
}

/// Each entry of the open-block stack names an opening brace of `toks`, by its token index and
/// byte offset, that no entry of `blocks` has closed yet; entries grow from bottom to top.
spec fn stack_valid(
    toks: Seq<SourceToken>,
    bounds: Seq<(int, int)>,
    blocks: Map<usize, CodeBlock>,
    stack: Seq<(usize, usize)>,
) -> bool {
    &&& forall|j: int|
        0 <= j < stack.len() ==> {
            &&& (#[trigger] stack[j]).0 < toks.len()
            &&& is_symbol(toks[stack[j].0 as int], Symbol::BraceOpen)
            &&& !blocks.contains_key(stack[j].0)
            &&& stack[j].1 == bounds[stack[j].0 as int].0
        }
    &&& forall|i: int, j: int| 0 <= i < j < stack.len() ==> (#[trigger] stack[i]).0 < (#[trigger] stack[j]).0
}

/// The tokens after open brace `j` of the stack, up to the next open brace or the end.
spec fn segment(toks: Seq<SourceToken>, stack: Seq<(usize, usize)>, j: int) -> Seq<SourceToken> {
    toks.subrange(
        stack[j].0 + 1,
        if j + 1 < stack.len() {
            stack[j + 1].0 as int
        } else {
            toks.len() as int
        },
    )
}

/// Between open braces of the stack, and after the last of them, braces nest and balance.
spec fn segments_balanced(toks: Seq<SourceToken>, stack: Seq<(usize, usize)>) -> bool {
    forall|j: int| 0 <= j < stack.len() ==> balanced_run(#[trigger] segment(toks, stack, j))
}

proof fn lemma_segments_plain(
    toks0: Seq<SourceToken>,
    toks1: Seq<SourceToken>,
    bounds: Seq<(int, int)>,
    blocks: Map<usize, CodeBlock>,
    stack: Seq<(usize, usize)>,
)
    requires
        toks1 == toks0.push(toks1.last()),
        !is_symbol(toks1.last(), Symbol::BraceOpen),
        !is_symbol(toks1.last(), Symbol::BraceClose),
        stack_valid(toks0, bounds, blocks, stack),
        segments_balanced(toks0, stack),
    ensures
        segments_balanced(toks1, stack),
{
    let t = toks1.last();
    assert forall|j: int| 0 <= j < stack.len() implies balanced_run(#[trigger] segment(toks1, stack, j)) by {
        let a = stack[j].0 + 1;
        assert(balanced_run(segment(toks0, stack, j)));
        if j + 1 < stack.len() {
            assert(stack[j + 1].0 < toks0.len());
            assert(segment(toks1, stack, j) =~= segment(toks0, stack, j));
        } else {
            let seg0 = segment(toks0, stack, j);
            assert(segment(toks1, stack, j) =~= seg0.push(t));
            lemma_nested_push(seg0, t);
            lemma_count_push(seg0, t, Symbol::BraceOpen);
            lemma_count_push(seg0, t, Symbol::BraceClose);
        }
    }
}

proof fn lemma_segments_open(
    toks0: Seq<SourceToken>,
    toks1: Seq<SourceToken>,
    bounds: Seq<(int, int)>,
    blocks: Map<usize, CodeBlock>,
    stack1: Seq<(usize, usize)>,
)
    requires
        toks1 == toks0.push(toks1.last()),
        stack1.len() > 0,
        stack1.last().0 == toks0.len(),
        stack_valid(toks0, bounds, blocks, stack1.drop_last()),
        segments_balanced(toks0, stack1.drop_last()),
    ensures
        segments_balanced(toks1, stack1),
{
    let stack0 = stack1.drop_last();
    assert forall|j: int| 0 <= j < stack1.len() implies balanced_run(#[trigger] segment(toks1, stack1, j)) by {
        if j < stack0.len() {
            assert(stack1[j] == stack0[j]);
            assert(balanced_run(segment(toks0, stack0, j)));
            if j + 1 < stack0.len() {
                assert(stack1[j + 1] == stack0[j + 1]);
                assert(stack0[j + 1].0 < toks0.len());
            } else {
                assert(stack1[j + 1] == stack1.last());
            }
            assert(segment(toks1, stack1, j) =~= segment(toks0, stack0, j));
        } else {
            assert(stack1[j] == stack1.last());
            let e = segment(toks1, stack1, j);
            assert(e =~= Seq::<SourceToken>::empty());
            assert(e.subrange(0, 0) =~= e);
        }
    }
}

proof fn lemma_segments_close(
    toks0: Seq<SourceToken>,
    toks1: Seq<SourceToken>,
    bounds: Seq<(int, int)>,
    blocks: Map<usize, CodeBlock>,
    stack0: Seq<(usize, usize)>,
)
    requires
        toks1 == toks0.push(toks1.last()),
        is_symbol(toks1.last(), Symbol::BraceClose),
        stack0.len() > 0,
        stack_valid(toks0, bounds, blocks, stack0),
        segments_balanced(toks0, stack0),
    ensures
        segments_balanced(toks1, stack0.drop_last()),
{
    let stack1 = stack0.drop_last();
    let top = stack0.len() - 1;
    let k = stack0[top].0 as int;
    assert forall|j: int| 0 <= j < stack1.len() implies balanced_run(#[trigger] segment(toks1, stack1, j)) by {
        assert(stack1[j] == stack0[j]);
        assert(balanced_run(segment(toks0, stack0, j)));
        if j + 1 < stack1.len() {
            assert(stack1[j + 1] == stack0[j + 1]);
            assert(stack0[j + 1].0 < toks0.len());
            assert(segment(toks1, stack1, j) =~= segment(toks0, stack0, j));
        } else {
            assert(j + 1 == top);
            let a = segment(toks0, stack0, j);
            let b = segment(toks0, stack0, top);
            assert(balanced_run(b));
            assert(stack0[j].0 < k);
            assert(segment(toks1, stack1, j) =~= a.push(toks0[k]) + b.push(toks1.last()));
            lemma_wrap_balanced(a, toks0[k], b, toks1.last());
        }
    }
}

/// What a scan of `src` returns: the tokens and their code blocks, or where and why it stopped.
pub open spec fn lex_outcome(
    src: Seq<u8>,
    r: Result<(Vec<SourceToken>, HashMap<usize, CodeBlock>), (Position, String)>,
) -> bool {
    match r {
        Ok((toks, blocks)) => lexed(src, toks@, blocks@) && spans_increasing(toks@),
        Err((pos, msg)) => lex_failure(src, pos, msg@),
    }
}

/// A token other than a brace was added to a scan: the scan and its brace bookkeeping go on.
proof fn lemma_plain_token_added(
    src: Seq<u8>,
    p: int,
    toks0: Seq<SourceToken>,
    toks1: Seq<SourceToken>,
    bounds: Seq<(int, int)>,
    blocks: Map<usize, CodeBlock>,
    stack: Seq<(usize, usize)>,
    s: int,
    e: int,
)
    requires
        scanned_upto(src, p, toks0, bounds),
        p <= s,
        all_in(src, p, s, |b: u8| is_ws(b)),
        toks1 == toks0.push(toks1.last()),
        scanned_at(src, s, e, toks1.last()),
        blocks_valid(toks0, blocks),
        stack_valid(toks0, bounds, blocks, stack),
        braces_nested(toks0),
        is_symbol(toks1.last(), Symbol::BraceClose) ==> count_symbol(toks0, Symbol::BraceClose) < count_symbol(
            toks0,
            Symbol::BraceOpen,
        ),
    ensures
        braces_nested(toks1),
        scanned_upto(src, e, toks1, bounds.push((s, e))),
        blocks_valid(toks1, blocks),
        stack_valid(toks1, bounds.push((s, e)), blocks, stack),
        count_symbol(toks1, Symbol::BraceOpen) == count_symbol(toks0, Symbol::BraceOpen) + if is_symbol(
            toks1.last(),
            Symbol::BraceOpen,
        ) {
            1nat
        } else {
            0nat
        },
        count_symbol(toks1, Symbol::BraceClose) == count_symbol(toks0, Symbol::BraceClose) + if is_symbol(
            toks1.last(),
            Symbol::BraceClose,
        ) {
            1nat
        } else {
            0nat
        },
{
    lemma_scanned_push(src, p, toks0, bounds, s, e, toks1.last());
    lemma_count_push(toks0, toks1.last(), Symbol::BraceOpen);
    lemma_count_push(toks0, toks1.last(), Symbol::BraceClose);
    assert forall|k: usize| #[trigger] blocks.contains_key(k) implies toks1[k as int] == toks0[k as int] && toks1[blocks[k].end as int] == toks0[blocks[k].end as int] by {}
    let bounds1 = bounds.push((s, e));
    assert forall|j: int| 0 <= j < stack.len() implies toks1[(#[trigger] stack[j]).0 as int] == toks0[stack[j].0 as int] && bounds1[stack[j].0 as int] == bounds[stack[j].0 as int] by {}
    assert forall|n: int| 0 <= n <= toks1.len() implies count_symbol(#[trigger] toks1.subrange(0, n), Symbol::BraceClose)
        <= count_symbol(toks1.subrange(0, n), Symbol::BraceOpen) by {
        if n < toks1.len() {
            assert(toks1.subrange(0, n) =~= toks0.subrange(0, n));
        } else {
            assert(toks1.subrange(0, n) =~= toks1);
            assert(toks0.subrange(0, toks0.len() as int) =~= toks0);
        }
    }
}

proof fn lemma_open_pushed(
    toks0: Seq<SourceToken>,
    toks1: Seq<SourceToken>,
    bounds0: Seq<(int, int)>,
    bounds1: Seq<(int, int)>,
    blocks: Map<usize, CodeBlock>,
    stack1: Seq<(usize, usize)>,
    s: int,
)
    requires
        toks1.len() == toks0.len() + 1,
        bounds1 == bounds0.push((s, s + 1)),
        is_symbol(toks1.last(), Symbol::BraceOpen),
        blocks_valid(toks1, blocks),
        stack1.len() > 0,
        stack1.last().0 == toks0.len(),
        stack1.last().1 == s,
        bounds0.len() == toks0.len(),
        stack_valid(toks1, bounds1, blocks, stack1.drop_last()),
        forall|j: int| 0 <= j < stack1.len() - 1 ==> (#[trigger] stack1[j]).0 < toks0.len(),
    ensures
        stack_valid(toks1, bounds1, blocks, stack1),
{
    let stack0 = stack1.drop_last();
    assert forall|j: int| 0 <= j < stack1.len() implies {
        &&& (#[trigger] stack1[j]).0 < toks1.len()
        &&& is_symbol(toks1[stack1[j].0 as int], Symbol::BraceOpen)
        &&& !blocks.contains_key(stack1[j].0)
        &&& stack1[j].1 == bounds1[stack1[j].0 as int].0
    } by {
        if j < stack0.len() {
            assert(stack1[j] == stack0[j]);
        } else {
            assert(stack1[j] == stack1.last());
            assert(toks1[toks0.len() as int] == toks1.last());
            if blocks.contains_key(stack1[j].0) {
                assert(blocks[stack1[j].0].end < toks1.len());
            }
        }
    }
    assert forall|i: int, j: int| 0 <= i < j < stack1.len() implies (#[trigger] stack1[i]).0 < (#[trigger] stack1[j]).0 by {
        assert(stack1[i] == stack0[i]);
        if j < stack0.len() {
            assert(stack1[j] == stack0[j]);
        } else {
            assert(stack1[j] == stack1.last());
            assert(stack1[i].0 < toks0.len());
        }
    }
}

proof fn lemma_close_popped(
    toks0: Seq<SourceToken>,
    toks1: Seq<SourceToken>,
    bounds1: Seq<(int, int)>,
    blocks0: Map<usize, CodeBlock>,
    blocks1: Map<usize, CodeBlock>,
    stack0: Seq<(usize, usize)>,
    end: usize,
)
    requires
        toks1.len() == toks0.len() + 1,
        end == toks0.len(),
        is_symbol(toks1.last(), Symbol::BraceClose),
        blocks0.dom().finite(),
        blocks_valid(toks1, blocks0),
        stack0.len() > 0,
        stack_valid(toks1, bounds1, blocks0, stack0),
        forall|j: int| 0 <= j < stack0.len() ==> (#[trigger] stack0[j]).0 < toks0.len(),
        blocks1 == blocks0.insert(stack0.last().0, CodeBlock { start: stack0.last().0, end }),
    ensures
        blocks_valid(toks1, blocks1),
        stack_valid(toks1, bounds1, blocks1, stack0.drop_last()),
        blocks1.dom().finite(),
        blocks1.len() == blocks0.len() + 1,
{
    let k = stack0.last().0;
    assert(stack0[stack0.len() - 1] == stack0.last());
    assert(!blocks0.contains_key(k));
    assert(blocks1.dom() =~= blocks0.dom().insert(k));
    assert(toks1[toks0.len() as int] == toks1.last());
    assert(k < toks0.len());
    let stack1 = stack0.drop_last();
    assert forall|j: int| 0 <= j < stack1.len() implies {
        &&& (#[trigger] stack1[j]).0 < toks1.len()
        &&& is_symbol(toks1[stack1[j].0 as int], Symbol::BraceOpen)
        &&& !blocks1.contains_key(stack1[j].0)
        &&& stack1[j].1 == bounds1[stack1[j].0 as int].0
    } by {
        assert(stack1[j] == stack0[j]);
        assert(stack0[j].0 < stack0[stack0.len() - 1].0);
    }
    assert forall|i: int, j: int| 0 <= i < j < stack1.len() implies (#[trigger] stack1[i]).0 < (#[trigger] stack1[j]).0 by {
        assert(stack1[i] == stack0[i]);
        assert(stack1[j] == stack0[j]);
    }
}

impl<'src> Lexer<'src> {
    /// Scan the whole source.
    #[verifier::rlimit(60)]
    fn parse(self) -> (r: Result<(Vec<SourceToken>, HashMap<usize, CodeBlock>), (Position, String)>)
        requires
            self.wf(),
            self.position.idx == 0,
            self.tokens@.len() == 0,
            self.code_blocks@ == Map::<usize, CodeBlock>::empty(),
        ensures
            lex_outcome(self.source@, r),
            r is Ok <==> lexable(self.source@),
    {
        let ghost src = self.source@;
        let mut lexer = self;
        // the open code blocks, innermost last: the token index and the byte offset of each brace
        let mut code_block_stack: Vec<(usize, usize)> = Vec::new();
        let ghost mut bounds: Seq<(int, int)> = Seq::empty();
        proof {
            assert(lexer.code_blocks@.len() == 0);
        }
        loop
            invariant
                lexer.wf(),
                lexer.source@ == src,
                self.source@ == src,
                scanned_upto(src, lexer.position.idx as int, lexer.tokens@, bounds),
                blocks_valid(lexer.tokens@, lexer.code_blocks@),
                stack_valid(lexer.tokens@, bounds, lexer.code_blocks@, code_block_stack@),
                count_symbol(lexer.tokens@, Symbol::BraceOpen) == lexer.code_blocks@.len() + code_block_stack@.len(),
                count_symbol(lexer.tokens@, Symbol::BraceClose) == lexer.code_blocks@.len(),
                braces_nested(lexer.tokens@),
                segments_balanced(lexer.tokens@, code_block_stack@),
            ensures
                lexer.position.idx == src.len(),
            decreases src.len() - lexer.position.idx,
        {
            let ghost p0 = lexer.position.idx as int;
            lexer.skip_all_whitespace();
            proof {
                lemma_scanned_ws(src, p0, lexer.position.idx as int, lexer.tokens@, bounds);
            }
            lexer.lexeme = Vec::new();
            let raw_peeked_current = lexer.peek();
            if raw_peeked_current.is_none() {
                break;
            }
            let start = lexer.position.span();
            let start_idx = lexer.position.idx;
            let ghost s = start_idx as int;
            let ghost toks0 = lexer.tokens@;
            let ghost stack_before = code_block_stack@;
            proof {
                lemma_pos_bounds(src, s);
            }
            let peeked_current = raw_peeked_current.unwrap();

            if peeked_current == 59u8 {
                lexer.skip(1);
                lexer.add_token(Token::End, start);
                proof {
                    lemma_plain_token_added(src, s, toks0, lexer.tokens@, bounds, lexer.code_blocks@, code_block_stack@, s, s + 1);
                    lemma_segments_plain(toks0, lexer.tokens@, bounds, lexer.code_blocks@, code_block_stack@);
                    bounds = bounds.push((s, s + 1));
                }
                continue;
            }

            // a comment runs from `//` to the end of the line
            if peeked_current == 47u8 && lexer.peek_next(1) == Some(47u8) {
                lexer.skip(2);
                lexer.take_while(Run::UntilNewline);
                let text = lexer.lexeme_to_str();
                let ghost e = lexer.position.idx as int;
                lexer.add_token(Token::Comment(text), start);
                proof {
                    assert(lexer.lexeme@ =~= chars_of(src.subrange(s + 2, e)));
                    lemma_plain_token_added(src, s, toks0, lexer.tokens@, bounds, lexer.code_blocks@, code_block_stack@, s, e);
                    lemma_segments_plain(toks0, lexer.tokens@, bounds, lexer.code_blocks@, code_block_stack@);
                    bounds = bounds.push((s, e));
                }
                continue;
            }

            // string literal
            if peeked_current == 34u8 {
                lexer.skip(1);
                lexer.take_while(Run::UntilQuote);
                if lexer.peek().is_none() {
                    proof {
                        assert(scanned_upto(src, s, toks0, bounds));
                    }
                    let failure = (lexer.position, "Unterminated string literal.".to_owned());
                    proof {
                        lemma_failure_not_lexable(src, failure.0, failure.1@);
                    }
                    return Err(failure);
                }
                lexer.skip(1);
                let text = lexer.lexeme_to_str();
                let ghost e = lexer.position.idx as int;
                lexer.add_token(Token::StringLiteral(text), start);
                proof {
                    lemma_plain_token_added(src, s, toks0, lexer.tokens@, bounds, lexer.code_blocks@, code_block_stack@, s, e);
                    lemma_segments_plain(toks0, lexer.tokens@, bounds, lexer.code_blocks@, code_block_stack@);
                    bounds = bounds.push((s, e));
                }
                continue;
            }

            if 48u8 <= peeked_current && peeked_current <= 57u8 {
                lexer.take_while(Run::Digits);
                match decimal_value(lexer.source, start_idx, lexer.position.idx) {
                    Some(value) => {
                        let ghost e = lexer.position.idx as int;
                        lexer.add_token(Token::IntegerLiteral(value), start);
                        proof {
                            lemma_plain_token_added(src, s, toks0, lexer.tokens@, bounds, lexer.code_blocks@, code_block_stack@, s, e);
                            lemma_segments_plain(toks0, lexer.tokens@, bounds, lexer.code_blocks@, code_block_stack@);
                            bounds = bounds.push((s, e));
                        }
                        continue;
                    },
                    None => {
                        proof {
                            assert(scanned_upto(src, s, toks0, bounds));
                        }
                        let failure = (lexer.position, "Integer literal out of range.".to_owned());
                        proof {
                            lemma_failure_not_lexable(src, failure.0, failure.1@);
                        }
                        return Err(failure);
                    },
                }
            }

            // keyword/identifier
            if (65u8 <= peeked_current && peeked_current <= 90u8) || (97u8 <= peeked_current && peeked_current <= 122u8) {
                lexer.take_while(Run::Alphanumeric);
                let full_lexeme = lexer.lexeme_to_str();
                let ghost e = lexer.position.idx as int;
                match Keyword::from_string(full_lexeme.as_str()) {
                    Some(keyword) => lexer.add_token(Token::Keyword(keyword), start),
                    None => lexer.add_token(Token::Identifier(full_lexeme), start),
                }
                proof {
                    lemma_plain_token_added(src, s, toks0, lexer.tokens@, bounds, lexer.code_blocks@, code_block_stack@, s, e);
                    lemma_segments_plain(toks0, lexer.tokens@, bounds, lexer.code_blocks@, code_block_stack@);
                    bounds = bounds.push((s, e));
                }
                continue;
            }

            if let Some(symbol) = Symbol::from_char(&peeked_current) {
                if symbol == Symbol::BraceOpen {
                    code_block_stack.push((lexer.tokens.len(), lexer.position.idx));
                    lexer.skip(1);
                    lexer.add_token(Token::Symbol(symbol), start);
                    proof {
                        lemma_plain_token_added(src, s, toks0, lexer.tokens@, bounds, lexer.code_blocks@, code_block_stack@.drop_last(), s, s + 1);
                        lemma_open_pushed(toks0, lexer.tokens@, bounds, bounds.push((s, s + 1)), lexer.code_blocks@, code_block_stack@, s);
                        assert(code_block_stack@.drop_last() =~= stack_before);
                        lemma_segments_open(toks0, lexer.tokens@, bounds, lexer.code_blocks@, code_block_stack@);
                        bounds = bounds.push((s, s + 1));
                    }
                    continue;
                } else if symbol == Symbol::BraceClose {
                    if let Some(open) = code_block_stack.pop() {
                        let ghost blocks0 = lexer.code_blocks@;
                        let ghost stack0 = code_block_stack@.push(open);
                        let block_start = open.0;
                        let block_end = lexer.tokens.len();
                        lexer.code_blocks.insert(block_start, CodeBlock { start: block_start, end: block_end });
                        lexer.skip(1);
                        lexer.add_token(Token::Symbol(symbol), start);
                        proof {
                            lemma_plain_token_added(src, s, toks0, lexer.tokens@, bounds, blocks0, stack0, s, s + 1);
                            lemma_close_popped(toks0, lexer.tokens@, bounds.push((s, s + 1)), blocks0, lexer.code_blocks@, stack0, block_end);
                            assert(stack0 =~= stack_before);
                            lemma_segments_close(toks0, lexer.tokens@, bounds, blocks0, stack0);
                            bounds = bounds.push((s, s + 1));
                        }
                        continue;
                    } else {
                        proof {
                            assert(scanned_upto(src, s, toks0, bounds));
                        }
                        let failure = (lexer.position, "Unmatched closing brace".to_owned());
                        proof {
                            lemma_failure_not_lexable(src, failure.0, failure.1@);
                        }
                        return Err(failure);
                    }
                }
                lexer.skip(1);
                lexer.add_token(Token::Symbol(symbol), start);
                proof {
                    lemma_plain_token_added(src, s, toks0, lexer.tokens@, bounds, lexer.code_blocks@, code_block_stack@, s, s + 1);
                    lemma_segments_plain(toks0, lexer.tokens@, bounds, lexer.code_blocks@, code_block_stack@);
                    bounds = bounds.push((s, s + 1));
                }
                continue;
            }

            let msg = "Unrecognised input".to_owned();
            proof {
                assert(scanned_upto(src, s, toks0, bounds));
            }
            let failure = (lexer.position, msg);
            proof {
                lemma_failure_not_lexable(src, failure.0, failure.1@);
            }
            return Err(failure);
        }

        // if there's any code blocks open then there's no point continuing since it's invalid
        if code_block_stack.len() > 0 {
            let last = code_block_stack[code_block_stack.len() - 1];
            proof {
                assert(balanced_run(segment(lexer.tokens@, code_block_stack@, code_block_stack@.len() - 1)));
            }
            let last_span = lexer.tokens[last.0].span.end;
            proof {
                let k = last.0 as int;
                assert(scanned_at(src, bounds[k].0, bounds[k].1, lexer.tokens@[k]));
                assert(is_symbol(lexer.tokens@[k], Symbol::BraceOpen));
            }
            let failure = (Position { idx: last.1, col: last_span.col, row: last_span.row }, "Unclosed code block.".to_owned());
            proof {
                lemma_failure_not_lexable(src, failure.0, failure.1@);
            }
            return Err(failure);
        }

        proof {
            lemma_spans_increasing(src, src.len() as int, lexer.tokens@, bounds);
        }
        Ok((lexer.tokens, lexer.code_blocks))
    }
}

/// Turn the source code into parsable [Token]s, with the code blocks that the braces among
/// them delimit.
///
/// Scanning stops at the first failure: input that starts no token, a closing brace with no
/// open block, a string literal with no closing quote, an integer literal too large for an
/// `i64`, or, at the end, a block left open, reported at the last opening brace still open.
pub fn lex(source: &[u8]) -> (r: Result<(Vec<SourceToken>, HashMap<usize, CodeBlock>), (Position, String)>)
    requires
        source@.len() < usize::MAX,
    ensures
        lex_outcome(source@, r),
        r is Ok <==> lexable(source@),
{
    Lexer::new(source).parse()
}

/// The zero-width span just after `s`: the one a failure at the end of input is given.
pub open spec fn last_char_of(s: Span) -> Span {
    Span { start: s.end, end: s.end }
}

/// Standardised way of getting the token at `index` and handing it to `func`, which accepts it
/// with a value or rejects it, naming the offending token where there is one.
///
/// A failure carries `error_message`, and the span of the offending token, or, where the input
/// ran out or no token was named, the span just after `previous_token`.
pub fn get_next_token<'a, T, F: FnOnce(&'a SourceToken) -> Result<T, Option<&'a SourceToken>>>(
    tokens: &'a Vec<SourceToken>,
    index: usize,
    previous_token: &SourceToken,
    func: F,
    error_message: String,
) -> (r: Result<(T, &'a SourceToken), Failure>)
    requires
        index < tokens@.len() ==> func.requires((&tokens@[index as int],)),
    ensures
        index >= tokens@.len() ==> (r matches Err(f) && f.message == error_message && f.span == last_char_of(
            previous_token.span,
        )),
        index < tokens@.len() ==> match r {
            Ok((t, tok)) => *tok == tokens@[index as int] && func.ensures((&tokens@[index as int],), Ok(t)),
            Err(f) => f.message == error_message && exists|e: Option<&'a SourceToken>|
                #[trigger] func.ensures((&tokens@[index as int],), Err(e)) && f.span == match e {
                    Some(bad) => bad.span,
                    None => last_char_of(previous_token.span),
                },
        },
{
    if index < tokens.len() {
        let next_token = &tokens[index];
        match func(next_token) {
            Ok(t) => Ok((t, next_token)),
            Err(Some(problematic_token)) => Err(Failure { message: error_message, span: problematic_token.span }),
            Err(None) => Err(Failure { message: error_message, span: previous_token.span.to_last_char() }),
        }
    } else {
        Err(Failure { message: error_message, span: previous_token.span.to_last_char() })
    }
}

/// Whether the token at `index` exists and equals `expected`.
pub fn token_is(expected: &Token, tokens: &Vec<SourceToken>, index: usize) -> (r: bool)
    ensures
        r == (index < tokens@.len() && token_eq(*expected, tokens@[index as int].token)),
{
    if index < tokens.len() {
        expected.eq(&tokens[index].token)
    } else {
        false
    }
}

} // verus!
