//! The data model: source locations, spans, and the token tree that the
//! reconstructor walks.

use vstd::prelude::*;

verus! {

/// A position in the host source file: a 1-based line and a 0-based column.
/// Columns count bytes.
#[derive(Clone, Copy, PartialEq, Eq, Structural, Debug)]
pub struct LineCol {
    pub line: usize,
    pub col: usize,
}

/// A location range in the host source file.
#[derive(Clone, Copy, PartialEq, Eq, Structural, Debug)]
pub struct Span {
    pub start: LineCol,
    pub end: LineCol,
}

/// The visible delimiter of a token group. `Transparent` groups have no
/// delimiter of their own: their children are spliced inline as if ungrouped.
#[derive(Clone, Copy, PartialEq, Eq, Structural, Debug)]
pub enum Delim {
    Paren,
    Bracket,
    Brace,
    Transparent,
}

/// A leaf token: its literal text (as bytes) and the location range it came
/// from in the host source.
#[derive(Debug)]
pub struct Leaf {
    pub text: Vec<u8>,
    pub span: Span,
}

/// A delimited group of tokens. `open` and `close` locate the two delimiter
/// characters in the host source; `span` is the range of the whole group.
pub struct Group {
    pub delim: Delim,
    pub open: Span,
    pub close: Span,
    pub span: Span,
    pub children: Vec<Token>,
}

/// One node of the token tree handed to the reconstructor.
pub enum Token {
    Leaf(Leaf),
    Group(Group),
}

/// `a` strictly precedes `b` in source order (line first, then column).
pub open spec fn lc_before(a: LineCol, b: LineCol) -> bool {
    a.line < b.line || (a.line == b.line && a.col < b.col)
}

/// A location is local to the embedding site when it precedes the site's
/// extent end; tokens pasted in from elsewhere fail this test.
pub open spec fn is_local(loc: LineCol, extent_end: LineCol) -> bool {
    lc_before(loc, extent_end)
}

/// Executable version of `lc_before`.
pub fn lc_lt(a: LineCol, b: LineCol) -> (r: bool)
    ensures
        r == lc_before(a, b),
{
    a.line < b.line || (a.line == b.line && a.col < b.col)
}

/// Lines are 1-based, so every span start a token carries must sit on a
/// positive line number.
pub open spec fn token_wf(t: Token) -> bool
    decreases t, 1int,
{
    match t {
        Token::Leaf(l) => l.span.start.line >= 1,
        Token::Group(g) => {
            &&& g.open.start.line >= 1
            &&& g.close.start.line >= 1
            &&& group_children_wf(g, 0)
        },
    }
}

/// Well-formedness of a group's children from child `i` on.
pub open spec fn group_children_wf(g: Group, i: int) -> bool
    decreases g, g.children@.len() - i, 0int,
{
    if !(0 <= i < g.children@.len()) {
        true
    } else {
        token_wf(g.children@[i]) && group_children_wf(g, i + 1)
    }
}

/// Each child from position `j` on of a group whose tail is well formed is
/// itself well formed.
pub proof fn lemma_children_wf_index(g: Group, j: int, i: int)
    requires
        group_children_wf(g, j),
        0 <= j <= i < g.children@.len(),
    ensures
        token_wf(g.children@[i]),
    decreases i - j,
{
    if j < i {
        lemma_children_wf_index(g, j + 1, i);
    }
}

/// A well-formed group has only well-formed children.
pub proof fn lemma_group_child_wf(g: Group, i: int)
    requires
        token_wf(Token::Group(g)),
        0 <= i < g.children@.len(),
    ensures
        token_wf(g.children@[i]),
{
    lemma_children_wf_index(g, 0, i);
}

/// `token_wf` lifted to a token sequence.
pub open spec fn tokens_wf(ts: Seq<Token>) -> bool {
    forall|i: int| 0 <= i < ts.len() ==> #[trigger] token_wf(ts[i])
}

} // verus!
