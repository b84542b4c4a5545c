use std::collections::HashMap;
use vstd::prelude::*;

use crate::expect::stalled;
use crate::function::{function_at, lemma_function_agrees, parse_function};
use crate::lexer::{CodeBlock, SourceToken};
use crate::scan::blocks_valid;
use crate::names::NameMap;
use crate::span::Span;
use crate::statement::{joined, Function, Use};
use crate::token::{Keyword, Token};
use crate::uses::{parse_use, use_path};

verus! {

/// A source file's declarations, keyed by name.
#[derive(Debug)]
pub struct File {
    pub namespace: String,
    pub uses: NameMap<Use>,
    pub functions: NameMap<Function>,
    /// The code blocks the lexer matched, keyed by the token index of their opening brace.
    pub code_blocks: HashMap<usize, CodeBlock>,
}

/// Why lexing or parsing stopped, and where.
#[derive(Debug)]
pub struct Failure {
    pub message: String,
    pub span: Span,
}

impl File {
    pub open spec fn wf(&self) -> bool {
        self.uses.wf() && self.functions.wf()
    }

    /// An empty file in `namespace`, with the code blocks that lexing its source found.
    pub fn new(namespace: &str, code_blocks: HashMap<usize, CodeBlock>) -> (r: File)
        ensures
            r.wf(),
            r.namespace@ == namespace@,
            r.uses@ == Map::<Seq<char>, Use>::empty(),
            r.functions@ == Map::<Seq<char>, Function>::empty(),
            r.code_blocks@ == code_blocks@,
    {
        File { namespace: namespace.to_owned(), uses: NameMap::new(), functions: NameMap::new(), code_blocks }
    }
}

/// Each use of `file`, as its dotted path and its span.
pub open spec fn uses_view(file: File) -> Map<Seq<char>, (Seq<char>, Span)> {
    file.uses@.map_values(|u: Use| (u.identifier@, u.span))
}

/// The top-level declarations from token `k` on, `uses` and `functions` holding what was
/// declared before: each use by its last path segment with its path and span, a later one
/// replacing an earlier one, and the names of the functions; or the failure. `file` lends its
/// code blocks.
pub open spec fn top_level_at(
    file: File,
    toks: Seq<SourceToken>,
    k: int,
    uses: Map<Seq<char>, (Seq<char>, Span)>,
    functions: Set<Seq<char>>,
) -> Result<(Map<Seq<char>, (Seq<char>, Span)>, Set<Seq<char>>), (Seq<char>, Span)>
    decreases toks.len() - k,
{
    if k < 0 || k >= toks.len() {
        Ok((uses, functions))
    } else if toks[k].token == Token::Keyword(Keyword::Use) {
        match use_path(toks, k + 1, toks[k].span, seq![], toks[k].span) {
            Ok((parts, last, n)) => {
                if k < n <= toks.len() {
                    top_level_at(
                        file,
                        toks,
                        n,
                        uses.insert(parts.last(), (joined(parts), Span { start: toks[k].span.start, end: last.end })),
                        functions,
                    )
                } else {
                    Err(stalled())
                }
            },
            Err(f) => Err(f),
        }
    } else if toks[k].token == Token::Keyword(Keyword::Public) || toks[k].token == Token::Keyword(Keyword::Function) {
        match function_at(file, toks, k) {
            Ok(shape) => {
                let n = file.code_blocks@[shape.body_start as usize].end + 1;
                if k < n <= toks.len() {
                    top_level_at(file, toks, n, uses, functions.insert(shape.name))
                } else {
                    Err(stalled())
                }
            },
            Err(f) => Err(f),
        }
    } else {
        Err(("Expected a use statement, function definition, or comment."@, toks[k].span))
    }
}

proof fn lemma_top_level_agrees(
    f1: File,
    f2: File,
    toks: Seq<SourceToken>,
    k: int,
    uses: Map<Seq<char>, (Seq<char>, Span)>,
    functions: Set<Seq<char>>,
)
    requires
        f1.code_blocks@ == f2.code_blocks@,
    ensures
        top_level_at(f1, toks, k, uses, functions) == top_level_at(f2, toks, k, uses, functions),
    decreases toks.len() - k,
{
    if 0 <= k < toks.len() {
        if toks[k].token == Token::Keyword(Keyword::Use) {
            let u = use_path(toks, k + 1, toks[k].span, seq![], toks[k].span);
            if u is Ok {
                let (parts, last, n) = u->Ok_0;
                if k < n <= toks.len() {
                    lemma_top_level_agrees(
                        f1,
                        f2,
                        toks,
                        n,
                        uses.insert(parts.last(), (joined(parts), Span { start: toks[k].span.start, end: last.end })),
                        functions,
                    );
                }
            }
        } else if toks[k].token == Token::Keyword(Keyword::Public) || toks[k].token == Token::Keyword(
            Keyword::Function,
        ) {
            lemma_function_agrees(f1, f2, toks, k);
            let r = function_at(f1, toks, k);
            if r is Ok {
                let shape = r->Ok_0;
                let n = f1.code_blocks@[shape.body_start as usize].end + 1;
                if k < n <= toks.len() {
                    lemma_top_level_agrees(f1, f2, toks, n, uses, functions.insert(shape.name));
                }
            }
        }
    }
}

/// Convert raw tokens, with the code blocks that lexing them found, to a structured AST.
///
/// A file is a run of use statements and function declarations; any other leading token fails.
/// A later declaration under a name replaces an earlier one, and a type resolves through the
/// uses declared before it.
///
/// ## Arguments
/// * `tokens` - The file's tokens.
/// * `namespace` - The file's namespace.
pub fn parse_file(tokens: &Vec<SourceToken>, code_blocks: HashMap<usize, CodeBlock>, namespace: &str) -> (r: Result<
    File,
    Failure,
>)
    requires
        blocks_valid(tokens@, code_blocks@),
    ensures
        r matches Ok(file) ==> {
            &&& file.wf()
            &&& file.namespace@ == namespace@
            &&& file.code_blocks@ == code_blocks@
        },
        forall|f: File|
            f.code_blocks@ == code_blocks@ ==> match #[trigger] top_level_at(f, tokens@, 0, Map::empty(), Set::empty()) {
                Ok((uses, functions)) => r matches Ok(file) && uses_view(file) == uses && file.functions@.dom()
                    == functions,
                Err((msg, span)) => r matches Err(e) && e.message@ == msg && e.span == span,
            },
{
    let mut file = File::new(namespace, code_blocks);
    let ghost f0 = file;
    let ghost blocks = file.code_blocks@;
    let ghost goal = top_level_at(f0, tokens@, 0, Map::empty(), Set::empty());
    proof {
        assert forall|f: File| f.code_blocks@ == code_blocks@ implies #[trigger] top_level_at(
            f,
            tokens@,
            0,
            Map::empty(),
            Set::empty(),
        ) == goal by {
            lemma_top_level_agrees(f, f0, tokens@, 0, Map::empty(), Set::empty());
        }
        assert(uses_view(file) =~= Map::<Seq<char>, (Seq<char>, Span)>::empty());
        assert(file.functions@.dom() =~= Set::<Seq<char>>::empty());
    }

    // our index into the tokens
    let mut index: usize = 0;
    while index < tokens.len()
        invariant
            file.wf(),
            file.namespace@ == namespace@,
            file.code_blocks@ == blocks,
            blocks == code_blocks@,
            f0.code_blocks@ == blocks,
            blocks_valid(tokens@, file.code_blocks@),
            index <= tokens@.len(),
            goal == top_level_at(f0, tokens@, 0, Map::empty(), Set::empty()),
            forall|f: File|
                f.code_blocks@ == code_blocks@ ==> #[trigger] top_level_at(f, tokens@, 0, Map::empty(), Set::empty())
                    == goal,
            goal == top_level_at(f0, tokens@, index as int, uses_view(file), file.functions@.dom()),
        decreases tokens@.len() - index,
    {
        let token = &tokens[index];
        let ghost before = file;
        let new_index = match &token.token {
            Token::Keyword(Keyword::Use) => {
                let n = parse_use(&mut file, tokens, &index, token)?;
                proof {
                    let (parts, last, _) = use_path(tokens@, index + 1, token.span, seq![], token.span)->Ok_0;
                    assert(uses_view(file) =~= uses_view(before).insert(
                        parts.last(),
                        (joined(parts), Span { start: token.span.start, end: last.end }),
                    ));
                }
                n
            },
            Token::Keyword(Keyword::Public) | Token::Keyword(Keyword::Function) => {
                proof {
                    lemma_function_agrees(f0, before, tokens@, index as int);
                }
                let n = parse_function(&mut file, tokens, &index, token)?;
                proof {
                    let shape = function_at(before, tokens@, index as int)->Ok_0;
                    assert(file.functions@.dom() =~= before.functions@.dom().insert(shape.name));
                }
                n
            },
            _ => {
                return Err(
                    Failure {
                        message: "Expected a use statement, function definition, or comment.".to_owned(),
                        span: token.span,
                    },
                );
            },
        };
        index = new_index;
    }

    Ok(file)
}

} // verus!
