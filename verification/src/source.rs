//! What is known of a source text before it is rendered: its tokens, the analysis records that
//! belong to them, and the places that symbols can jump to.

use crate::text;
use vstd::hash_map::StringHashMap;
use vstd::prelude::*;

verus! {

/// What a token is.
#[derive(Clone, Debug, PartialEq, Eq)]
pub enum TokenKind {
    PlainText,
    Punctuation,
    /// A word; where the language gives it a style of its own, the attributes of that style.
    Identifier(Option<String>),
    StringLiteral,
    RegularExpressionLiteral,
    Comment,
    TagName,
    TagAttrName,
    EndTagName,
    Newline,
}

/// A token and the byte offsets at which it starts and ends in the source text.
#[derive(Clone, Debug, PartialEq, Eq)]
pub struct Token {
    pub start: usize,
    pub end: usize,
    pub kind: TokenKind,
}

/// The lines that a nested construct spans; both are zero where there is no such construct.
#[derive(Clone, Copy, Debug, PartialEq, Eq)]
pub struct SourceRange {
    pub start_lineno: u32,
    pub end_lineno: u32,
}

/// One record of the semantic analysis of a token.
#[derive(Clone, Debug, PartialEq, Eq)]
pub struct AnalysisSource {
    pub syntax: Vec<String>,
    pub pretty: String,
    pub sym: Vec<String>,
    pub no_crossref: bool,
    pub nesting_range: SourceRange,
}

/// A line number, counted from one, and a byte offset in that line.
#[derive(Clone, Copy, Debug, PartialEq, Eq)]
pub struct Location {
    pub lineno: u32,
    pub col_start: u32,
}

/// A value with the location that it belongs to.
#[derive(Clone, Debug, PartialEq, Eq)]
pub struct WithLocation<T> {
    pub data: T,
    pub loc: Location,
}

/// Where the definition of a symbol stands.
#[derive(Clone, Debug, PartialEq, Eq)]
pub struct Jump {
    pub path: String,
    pub lineno: u64,
    pub pretty: String,
}

/// The jumps by symbol.
pub struct JumpTable {
    map: StringHashMap<Jump>,
}

impl View for JumpTable {
    type V = Map<Seq<char>, Jump>;

    closed spec fn view(&self) -> Map<Seq<char>, Jump> {
        self.map@
    }
}

impl JumpTable {
    /// A table without any jump.
    pub fn new() -> (r: JumpTable)
        ensures
            r@ == Map::<Seq<char>, Jump>::empty(),
    {
        JumpTable { map: StringHashMap::new() }
    }

    /// Sets the jump of a symbol.
    pub fn insert(&mut self, sym: String, jump: Jump)
        ensures
            final(self)@ == old(self)@.insert(sym@, jump),
    {
        self.map.insert(sym, jump);
    }

    /// The jump of a symbol.
    pub fn get(&self, sym: &str) -> (r: Option<&Jump>)
        ensures
            match r {
                Some(jump) => self@.contains_key(sym@) && *jump == self@[sym@],
                None => !self@.contains_key(sym@),
            },
    {
        self.map.get(sym)
    }
}

/// Whether the tokens follow each other and start and end between characters of the text.
pub open spec fn tokens_valid(input: Seq<char>, tokens: Seq<Token>) -> bool {
    &&& forall|i: int| 0 <= i < tokens.len() ==> token_valid(input, #[trigger] tokens[i])
    &&& forall|i: int, j: int|
        0 <= i < j < tokens.len() ==> (#[trigger] tokens[i]).end <= (#[trigger] tokens[j]).start
}

/// Whether a token starts and ends between characters of the text, in that order.
pub open spec fn token_valid(input: Seq<char>, token: Token) -> bool {
    &&& token.start <= token.end
    &&& text::boundary(input, token.start as int)
    &&& text::boundary(input, token.end as int)
}

/// Tells whether tokens fit a text.
pub fn check_tokens(input: &str, tokens: &[Token]) -> (r: bool)
    ensures
        r == tokens_valid(input@, tokens@),
{
    let mut last_pos: usize = 0;
    let mut i: usize = 0;
    while i < tokens.len()
        invariant
            i <= tokens@.len(),
            forall|k: int| 0 <= k < i ==> token_valid(input@, #[trigger] tokens@[k]),
            forall|k: int| 0 <= k < i ==> (#[trigger] tokens@[k]).end <= last_pos,
            i == 0 ==> last_pos == 0,
            i > 0 ==> last_pos == tokens@[i - 1].end,
            forall|k: int, j: int|
                0 <= k < j < i ==> (#[trigger] tokens@[k]).end <= (#[trigger] tokens@[j]).start,
        decreases tokens@.len() - i,
    {
        let start = tokens[i].start;
        let end = tokens[i].end;
        if start > end || !input.is_char_boundary(start) || !input.is_char_boundary(end) {
            proof {
                assert(!token_valid(input@, tokens@[i as int]));
            }
            return false;
        }
        if last_pos > start {
            proof {
                assert(tokens@[i - 1].end > tokens@[i as int].start);
            }
            return false;
        }
        last_pos = end;
        i = i + 1;
    }
    true
}

/// How many of the first `k` tokens end a line.
pub open spec fn newlines(tokens: Seq<Token>, k: int) -> int
    decreases k,
{
    if k <= 0 {
        0
    } else if tokens[k - 1].kind is Newline {
        newlines(tokens, k - 1) + 1
    } else {
        newlines(tokens, k - 1)
    }
}

/// Whether the lines of a text can be counted in 32 bits.
pub open spec fn lines_countable(tokens: Seq<Token>) -> bool {
    newlines(tokens, tokens.len() as int) < u32::MAX
}

/// The number of line ends never shrinks along the tokens, and grows by at most one a token.
pub proof fn lemma_newlines_grow(tokens: Seq<Token>, i: int, j: int)
    requires
        0 <= i <= j,
    ensures
        0 <= newlines(tokens, i) <= newlines(tokens, j) <= newlines(tokens, i) + (j - i),
    decreases j,
{
    if i < j {
        lemma_newlines_grow(tokens, i, j - 1);
    } else if i > 0 {
        lemma_newlines_grow(tokens, i - 1, j - 1);
    }
}

/// Tells whether the line ends of a text stay below 2^32 - 1.
pub fn check_line_count(tokens: &[Token]) -> (r: bool)
    ensures
        r == lines_countable(tokens@),
{
    let mut count: u32 = 0;
    let mut i: usize = 0;
    while i < tokens.len()
        invariant
            i <= tokens@.len(),
            count == newlines(tokens@, i as int),
            count < u32::MAX,
        decreases tokens@.len() - i,
    {
        if matches!(tokens[i].kind, TokenKind::Newline) {
            count = count + 1;
            if count == u32::MAX {
                proof {
                    lemma_newlines_grow(tokens@, i + 1, tokens@.len() as int);
                }
                return false;
            }
        }
        i = i + 1;
    }
    true
}

} // verus!
