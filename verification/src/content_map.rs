//! The reconstructor and the position index it builds: `build` walks a token
//! tree, emits the reconstructed text, and records one index entry per
//! visible token; `Tree::starlark_offset_to_rust_span` maps a byte offset in
//! that text back to the original span of the token that produced it.

use vstd::prelude::*;

use crate::model::{
    NL, SP, RecState, SpecNode, children_step, close_byte, cont_step, first_start_after,
    index_wf, init_state, lemma_first_start_after_at_least, lemma_first_start_after_props,
    lemma_reconstruct_wf, lemma_scan_visits_nonneg, line_end, lookup_spec, open_byte,
    reconstruct_spec, repeat_byte, resolved_index, scan_visits, text_step, token_step,
    tokens_step, ws_step,
};
use crate::token::{Delim, LineCol, Span, Token, is_local, lc_lt, token_wf, tokens_wf};

verus! {

/// The one fault a reconstruction pass can hit: a local token sits left of
/// the indentation base, or a continuation line of a multi-line token is not
/// indented by at least the base.
#[derive(Clone, Copy, PartialEq, Eq, Structural, Debug)]
pub enum ReconstructError {
    MalformedIndentation,
}

/// One entry of the position index, in executable form.
#[derive(Debug)]
pub struct IndexNode {
    pub start: usize,
    pub end: usize,
    pub orig: Span,
    pub width: usize,
}

/// The mathematical value of one index entry.
pub open spec fn abs_node(n: IndexNode) -> SpecNode {
    SpecNode { start: n.start as int, end: n.end as int, orig: n.orig, width: n.width as int }
}

/// The mathematical value of an index entry sequence.
pub open spec fn abs_nodes(ns: Seq<IndexNode>) -> Seq<SpecNode> {
    ns.map_values(|n: IndexNode| abs_node(n))
}

/// The working state of one reconstruction pass.
pub(crate) struct Source {
    pub out: Vec<u8>,
    pub start_col: Option<usize>,
    pub line: usize,
    pub col: usize,
    pub nodes: Vec<IndexNode>,
}

impl Source {
    /// The ghost state this value stands for.
    pub(crate) open spec fn abs(self) -> RecState {
        RecState {
            out: self.out@,
            base: match self.start_col {
                Some(c) => Some(c as int),
                None => None,
            },
            line: self.line as int,
            col: self.col as int,
            nodes: abs_nodes(self.nodes@),
        }
    }

    /// The cursor never runs ahead of the output; this is what keeps every
    /// column and line computation inside machine bounds.
    pub(crate) open spec fn wf(self) -> bool {
        self.col <= self.out@.len() && self.line <= self.out@.len()
    }
}

/// Appends `s[from..to]` to `out`.
fn push_range(out: &mut Vec<u8>, s: &Vec<u8>, from: usize, to: usize)
    requires
        from <= to <= s@.len(),
    ensures
        final(out)@ == old(out)@ + s@.subrange(from as int, to as int),
{
    let mut i = from;
    while i < to
        invariant
            from <= i <= to <= s@.len(),
            out@ == old(out)@ + s@.subrange(from as int, i as int),
        decreases to - i,
    {
        out.push(s[i]);
        proof {
            assert(s@.subrange(from as int, i + 1 as int) =~= s@.subrange(
                from as int,
                i as int,
            ).push(s@[i as int]));
        }
        i = i + 1;
    }
}

/// Finds where the line starting at `from` ends in `s`.
fn line_end_exec(s: &Vec<u8>, from: usize) -> (r: usize)
    requires
        from <= s@.len(),
    ensures
        r == line_end(s@, from as int),
        from <= r <= s@.len(),
        from < s@.len() ==> from < r,
        r < s@.len() ==> s@[r - 1] == NL,
{
    let mut i = from;
    while i < s.len()
        invariant
            from <= i <= s@.len(),
            line_end(s@, from as int) == line_end(s@, i as int),
        decreases s@.len() - i,
    {
        if s[i] == NL {
            return i + 1;
        }
        i = i + 1;
    }
    s.len()
}

impl Source {
    /// Pads the output up to the location a local token came from, recording
    /// the indentation base on first use; adds nothing before pasted tokens.
    fn add_whitespace(&mut self, loc: LineCol, extent_end: LineCol) -> (r: Result<
        (),
        ReconstructError,
    >)
        requires
            old(self).wf(),
            is_local(loc, extent_end) ==> loc.line >= 1,
        ensures
            final(self).wf(),
            final(self).nodes@ == old(self).nodes@,
            match r {
                Ok(()) => ws_step(old(self).abs(), loc, extent_end) == Some(final(self).abs()),
                Err(e) => ws_step(old(self).abs(), loc, extent_end) is None && e
                    == ReconstructError::MalformedIndentation,
            },
    {
        if !lc_lt(loc, extent_end) {
            return Ok(());
        }
        let target_line = loc.line - 1;
        let ghost line0: int = self.line as int;
        let ghost nl: int = if line0 < target_line as int {
            target_line - line0
        } else {
            0
        };
        while self.line < target_line
            invariant
                line0 <= self.line as int,
                self.line as int <= if line0 > target_line as int {
                    line0
                } else {
                    target_line as int
                },
                self.out@ == old(self).out@ + repeat_byte(NL, self.line - line0),
                self.line as int > line0 ==> self.col == 0,
                self.line as int == line0 ==> self.col == old(self).col,
                self.start_col == old(self).start_col,
                self.nodes@ == old(self).nodes@,
                self.wf(),
            decreases target_line - self.line,
        {
            self.out.push(NL);
            proof {
                assert(old(self).out@ + repeat_byte(NL, self.line - line0 + 1) =~= (old(self).out@
                    + repeat_byte(NL, self.line - line0)).push(NL));
            }
            self.line = self.line + 1;
            self.col = 0;
        }
        proof {
            assert(self.line as int == line0 + nl);
            assert(self.out@ =~= old(self).out@ + repeat_byte(NL, nl));
        }
        let base = match self.start_col {
            Some(b) => b,
            None => {
                self.start_col = Some(loc.col);
                loc.col
            },
        };
        if loc.col < base {
            return Err(ReconstructError::MalformedIndentation);
        }
        let target_col = loc.col - base;
        let ghost line1: int = self.line as int;
        let ghost col1: int = self.col as int;
        let ghost out1: Seq<u8> = self.out@;
        while self.col < target_col
            invariant
                col1 <= self.col as int,
                self.col as int <= if col1 > target_col as int {
                    col1
                } else {
                    target_col as int
                },
                self.out@ == out1 + repeat_byte(SP, self.col - col1),
                self.line as int == line1,
                self.line <= out1.len(),
                self.start_col == Some(base),
                self.nodes@ == old(self).nodes@,
                col1 <= out1.len(),
                self.col <= self.out@.len(),
            decreases target_col - self.col,
        {
            self.out.push(SP);
            proof {
                assert(out1 + repeat_byte(SP, self.col - col1 + 1) =~= (out1 + repeat_byte(
                    SP,
                    self.col - col1,
                )).push(SP));
            }
            self.col = self.col + 1;
        }
        proof {
            let st = old(self).abs();
            let col2 = if col1 < target_col as int {
                target_col as int
            } else {
                col1
            };
            assert(self.col as int == col2);
            assert(self.out@ =~= out1 + repeat_byte(SP, col2 - col1));
            assert(self.abs() =~= (RecState {
                out: out1 + repeat_byte(SP, col2 - col1),
                base: Some(base as int),
                line: line1,
                col: col2,
                nodes: st.nodes,
            }));
            assert(ws_step(st, loc, extent_end) == Some(self.abs()));
        }
        Ok(())
    }

    /// Emits one token's literal text, dedenting every line after the first
    /// by the indentation base.
    #[verifier::loop_isolation(false)]
    fn add_str(&mut self, s: &Vec<u8>) -> (r: Result<(), ReconstructError>)
        requires
            old(self).wf(),
        ensures
            final(self).wf(),
            final(self).nodes@ == old(self).nodes@,
            match r {
                Ok(()) => text_step(old(self).abs(), s@) == Some(final(self).abs()),
                Err(e) => text_step(old(self).abs(), s@) is None && e
                    == ReconstructError::MalformedIndentation,
            },
    {
        let e0 = line_end_exec(s, 0);
        push_range(&mut self.out, s, 0, e0);
        let total = self.out.len();
        proof {
            assert(self.col + e0 <= total);
        }
        self.col = self.col + e0;
        proof {
            assert(self.abs() =~= (RecState {
                out: old(self).abs().out + s@.subrange(0, e0 as int),
                base: old(self).abs().base,
                line: old(self).abs().line,
                col: old(self).abs().col + e0,
                nodes: old(self).abs().nodes,
            }));
        }
        if e0 >= s.len() {
            return Ok(());
        }
        let base = match self.start_col {
            Some(b) => b,
            None => {
                return Err(ReconstructError::MalformedIndentation);
            },
        };
        let ghost stm = self.abs();
        let mut p = e0;
        while p < s.len()
            invariant
                e0 <= p <= s@.len(),
                self.wf(),
                self.nodes@ == old(self).nodes@,
                self.start_col == Some(base),
                p < s@.len() ==> self.line < self.out@.len(),
                cont_step(stm, s@, e0 as int, base as int) == cont_step(
                    self.abs(),
                    s@,
                    p as int,
                    base as int,
                ),
            decreases s@.len() - p,
        {
            let ghost st_here = self.abs();
            let e = line_end_exec(s, p);
            let content_end = if s[e - 1] == NL {
                e - 1
            } else {
                e
            };
            proof {
                assert(p <= content_end <= s@.len());
            }
            if content_end - p < base {
                return Err(ReconstructError::MalformedIndentation);
            }
            let mut k = p;
            while k < p + base
                invariant
                    p <= k <= p + base,
                    p + base <= content_end <= s@.len(),
                    forall|j: int| p <= j < k ==> s@[j] == SP,
                decreases p + base - k,
            {
                if s[k] != SP {
                    proof {
                        assert(exists|j: int| p <= j < p + base && s@[j] != SP);
                    }
                    return Err(ReconstructError::MalformedIndentation);
                }
                k = k + 1;
            }
            proof {
                assert(!(exists|j: int| p <= j < p + base && s@[j] != SP));
            }
            push_range(&mut self.out, s, p + base, e);
            let grown = self.out.len();
            proof {
                assert(self.line < grown);
            }
            self.line = self.line + 1;
            self.col = e - (p + base);
            proof {
                let ded = s@.subrange(p + base, e as int);
                assert(self.abs() =~= (RecState {
                    out: st_here.out + ded,
                    base: st_here.base,
                    line: st_here.line + 1,
                    col: ded.len() as int,
                    nodes: st_here.nodes,
                }));
                assert(cont_step(st_here, s@, p as int, base as int) == cont_step(
                    self.abs(),
                    s@,
                    e as int,
                    base as int,
                ));
                if e < s@.len() {
                    assert(s@[e - 1] == NL);
                    assert(ded.len() >= 1);
                }
            }
            p = e;
        }
        Ok(())
    }
}

/// The opening delimiter character of a group.
fn delim_open(d: Delim) -> (r: u8)
    ensures
        r == open_byte(d),
{
    match d {
        Delim::Paren => 40,
        Delim::Bracket => 91,
        Delim::Brace => 123,
        Delim::Transparent => 0,
    }
}

/// The closing delimiter character of a group.
fn delim_close(d: Delim) -> (r: u8)
    ensures
        r == close_byte(d),
{
    match d {
        Delim::Paren => 41,
        Delim::Bracket => 93,
        Delim::Brace => 125,
        Delim::Transparent => 0,
    }
}

impl Source {
    /// Emits one token: whitespace up to where it came from, then its text
    /// or its delimited children, recording its index entry in pre-order.
    #[verifier::loop_isolation(false)]
    #[verifier::rlimit(80)]
    fn emit_token(&mut self, t: &Token, extent_end: LineCol) -> (r: Result<(), ReconstructError>)
        requires
            old(self).wf(),
            token_wf(*t),
        ensures
            final(self).wf(),
            final(self).nodes@.len() >= old(self).nodes@.len(),
            match r {
                Ok(()) => token_step(old(self).abs(), *t, extent_end) == Some(final(self).abs()),
                Err(e) => token_step(old(self).abs(), *t, extent_end) is None && e
                    == ReconstructError::MalformedIndentation,
            },
        decreases *t,
    {
        match t {
            Token::Leaf(l) => {
                match self.add_whitespace(l.span.start, extent_end) {
                    Err(e) => {
                        return Err(e);
                    },
                    Ok(()) => {},
                }
                let start = self.out.len();
                let ghost st1 = self.abs();
                match self.add_str(&l.text) {
                    Err(e) => {
                        return Err(e);
                    },
                    Ok(()) => {},
                }
                let end = self.out.len();
                let ghost st2 = self.abs();
                self.nodes.push(IndexNode { start, end, orig: l.span, width: 1 });
                proof {
                    assert(abs_nodes(self.nodes@) =~= st2.nodes.push(SpecNode {
                        start: st1.out.len() as int,
                        end: st2.out.len() as int,
                        orig: l.span,
                        width: 1,
                    }));
                    assert(token_step(old(self).abs(), *t, extent_end) == Some(self.abs()));
                }
                Ok(())
            },
            Token::Group(g) => {
                match g.delim {
                    Delim::Transparent => {
                        let ghost stg = self.abs();
                        let mut i: usize = 0;
                        while i < g.children.len()
                            invariant
                                i <= g.children@.len(),
                                self.wf(),
                                self.nodes@.len() >= old(self).nodes@.len(),
                                children_step(stg, *g, 0, extent_end) == children_step(
                                    self.abs(),
                                    *g,
                                    i as int,
                                    extent_end,
                                ),
                            decreases g.children@.len() - i,
                        {
                            proof {
                                crate::token::lemma_group_child_wf(*g, i as int);
                            }
                            match self.emit_token(&g.children[i], extent_end) {
                                Err(e) => {
                                    return Err(e);
                                },
                                Ok(()) => {},
                            }
                            i = i + 1;
                        }
                        Ok(())
                    },
                    _ => {
                        let k = self.nodes.len();
                        let ghost st_in = self.abs();
                        self.nodes.push(IndexNode { start: 0, end: 0, orig: g.span, width: 0 });
                        proof {
                            assert(abs_nodes(self.nodes@) =~= st_in.nodes.push(SpecNode {
                                start: 0,
                                end: 0,
                                orig: g.span,
                                width: 0,
                            }));
                        }
                        match self.add_whitespace(g.open.start, extent_end) {
                            Err(e) => {
                                return Err(e);
                            },
                            Ok(()) => {},
                        }
                        let start = self.out.len();
                        let ghost st1 = self.abs();
                        self.out.push(delim_open(g.delim));
                        let grown = self.out.len();
                        proof {
                            assert(self.col < grown);
                        }
                        self.col = self.col + 1;
                        proof {
                            assert(self.abs() =~= (RecState {
                                out: st1.out.push(open_byte(g.delim)),
                                base: st1.base,
                                line: st1.line,
                                col: st1.col + 1,
                                nodes: st1.nodes,
                            }));
                        }
                        let ghost st2 = self.abs();
                        let mut i: usize = 0;
                        while i < g.children.len()
                            invariant
                                i <= g.children@.len(),
                                self.wf(),
                                self.nodes@.len() >= k + 1,
                                children_step(st2, *g, 0, extent_end) == children_step(
                                    self.abs(),
                                    *g,
                                    i as int,
                                    extent_end,
                                ),
                            decreases g.children@.len() - i,
                        {
                            proof {
                                crate::token::lemma_group_child_wf(*g, i as int);
                            }
                            match self.emit_token(&g.children[i], extent_end) {
                                Err(e) => {
                                    return Err(e);
                                },
                                Ok(()) => {},
                            }
                            i = i + 1;
                        }
                        let ghost st3 = self.abs();
                        match self.add_whitespace(g.close.start, extent_end) {
                            Err(e) => {
                                return Err(e);
                            },
                            Ok(()) => {},
                        }
                        let ghost st4 = self.abs();
                        self.out.push(delim_close(g.delim));
                        let grown2 = self.out.len();
                        proof {
                            assert(self.col < grown2);
                        }
                        self.col = self.col + 1;
                        proof {
                            assert(self.abs() =~= (RecState {
                                out: st4.out.push(close_byte(g.delim)),
                                base: st4.base,
                                line: st4.line,
                                col: st4.col + 1,
                                nodes: st4.nodes,
                            }));
                        }
                        let end = self.out.len();
                        let ghost st5 = self.abs();
                        let width = self.nodes.len() - k;
                        let filled = IndexNode { start, end, orig: g.span, width };
                        self.nodes[k] = filled;
                        proof {
                            assert(abs_nodes(self.nodes@) =~= st5.nodes.update(k as int, SpecNode {
                                start: st1.out.len() as int,
                                end: st5.out.len() as int,
                                orig: g.span,
                                width: st5.nodes.len() - k,
                            }));
                            assert(token_step(old(self).abs(), *t, extent_end) == Some(self.abs()));
                        }
                        Ok(())
                    },
                }
            },
        }
    }
}

/// The position index built by one reconstruction pass: index entries in
/// pre-order, the length of the reconstructed text, and the embedding
/// site's own anchor span, answered when an offset cannot be resolved.
#[derive(Debug)]
pub struct Tree {
    nodes: Vec<IndexNode>,
    fallback: Span,
    limit: usize,
}

impl Tree {
    /// The index entries, in pre-order.
    pub closed spec fn spec_nodes(self) -> Seq<SpecNode> {
        abs_nodes(self.nodes@)
    }

    /// The anchor span answered when an offset cannot be resolved.
    pub closed spec fn spec_fallback(self) -> Span {
        self.fallback
    }

    /// The length of the reconstructed text this index was built for.
    pub closed spec fn spec_limit(self) -> int {
        self.limit as int
    }

    /// The entries form completed pre-order subtrees inside the text.
    pub closed spec fn wf(self) -> bool {
        index_wf(self.spec_nodes(), self.spec_limit())
    }

    /// How many index entries the index holds.
    pub fn node_count(&self) -> (r: usize)
        ensures
            r == self.spec_nodes().len(),
    {
        self.nodes.len()
    }

    /// The anchor span of the embedding site.
    pub fn fallback_anchor(&self) -> (r: Span)
        ensures
            r == self.spec_fallback(),
    {
        self.fallback
    }

    /// The byte range entry `i` occupies in the reconstructed text.
    pub fn node_output_range(&self, i: usize) -> (r: (usize, usize))
        requires
            i < self.spec_nodes().len(),
        ensures
            r.0 == self.spec_nodes()[i as int].start,
            r.1 == self.spec_nodes()[i as int].end,
    {
        (self.nodes[i].start, self.nodes[i].end)
    }

    /// The original span entry `i` stands for.
    pub fn node_original_span(&self, i: usize) -> (r: Span)
        requires
            i < self.spec_nodes().len(),
        ensures
            r == self.spec_nodes()[i as int].orig,
    {
        self.nodes[i].orig
    }

    /// The number of entries in entry `i`'s subtree, itself included.
    pub fn node_subtree_width(&self, i: usize) -> (r: usize)
        requires
            i < self.spec_nodes().len(),
        ensures
            r == self.spec_nodes()[i as int].width,
    {
        self.nodes[i].width
    }

    /// Resolves a byte offset in the reconstructed text to the original span
    /// of the token that produced it, and also reports how many entries the
    /// scan visited: a subtree whose whole range lies before the offset is
    /// hopped over in a single step instead of being walked entry by entry.
    #[verifier::loop_isolation(false)]
    pub fn lookup_visited(&self, offset: usize) -> (r: (Span, usize))
        requires
            self.wf(),
        ensures
            r.0 == lookup_spec(
                self.spec_nodes(),
                self.spec_limit(),
                self.spec_fallback(),
                offset as int,
            ),
            self.spec_nodes().len() > 0 && offset < self.spec_limit() ==> r.1 == scan_visits(
                self.spec_nodes(),
                offset as int,
                0,
            ),
            self.spec_nodes().len() == 0 || offset >= self.spec_limit() ==> r.1 == 0,
    {
        let ghost ns = self.spec_nodes();
        if self.nodes.len() == 0 || offset >= self.limit {
            return (self.fallback, 0);
        }
        proof {
            lemma_first_start_after_props(ns, offset as int);
        }
        let ghost fa = first_start_after(ns, offset as int);
        let mut i: usize = 0;
        let mut count: usize = 0;
        while i < self.nodes.len() && offset >= self.nodes[i].start
            invariant
                i <= self.nodes@.len(),
                i as int <= fa,
                count <= i,
                count as int + scan_visits(ns, offset as int, i as int) == scan_visits(
                    ns,
                    offset as int,
                    0,
                ),
            decreases self.nodes@.len() - i,
        {
            let node_end = self.nodes[i].end;
            let w = self.nodes[i].width;
            proof {
                assert(ns[i as int] == abs_node(self.nodes@[i as int]));
                assert(1 <= ns[i as int].width && i + ns[i as int].width <= ns.len());
                if offset >= node_end {
                    assert forall|j: int| 0 <= j < i + w implies (#[trigger] ns[j]).start
                        <= offset as int by {
                        if j < i {
                            assert(ns[j].start <= offset as int);
                        } else if j > i {
                            assert(ns[j].start < ns[i as int].end);
                        }
                    }
                    lemma_first_start_after_at_least(ns, offset as int, i + w);
                    lemma_scan_visits_nonneg(ns, offset as int, i + w);
                } else {
                    lemma_scan_visits_nonneg(ns, offset as int, i + 1);
                }
            }
            if offset >= node_end {
                i = i + w;
            } else {
                i = i + 1;
            }
            count = count + 1;
        }
        proof {
            if i < self.nodes@.len() {
                assert(ns[i as int].start > offset as int);
                if (i as int) < fa {
                    assert(ns[i as int].start <= offset as int);
                }
            }
            assert(i as int == fa);
            assert(scan_visits(ns, offset as int, i as int) == 0);
        }
        let j = if i == 0 {
            0
        } else {
            i - 1
        };
        proof {
            assert(j as int == resolved_index(ns, offset as int));
        }
        (self.nodes[j].orig, count)
    }

    /// Resolves a byte offset in the reconstructed text to the original span
    /// of the token that produced it. An offset on a token answers that
    /// token's deepest entry; one in the padding after a token answers that
    /// preceding token; one before the first entry answers the first entry;
    /// one at or past the end of the text answers the fallback anchor.
    pub fn starlark_offset_to_rust_span(&self, offset: usize) -> (r: Span)
        requires
            self.wf(),
        ensures
            r == lookup_spec(
                self.spec_nodes(),
                self.spec_limit(),
                self.spec_fallback(),
                offset as int,
            ),
    {
        let (span, _visited) = self.lookup_visited(offset);
        span
    }

    /// An offset lying at or after one entry's start and before the next
    /// entry's start resolves to the earlier of the two: inter-token padding
    /// belongs to the nearest preceding token.
    pub proof fn lemma_gap_resolves_to_preceding(self, j: int, offset: int)
        requires
            self.wf(),
            0 <= j,
            j + 1 < self.spec_nodes().len(),
            self.spec_nodes()[j].start <= offset,
            offset < self.spec_nodes()[j + 1].start,
            0 <= offset < self.spec_limit(),
        ensures
            lookup_spec(self.spec_nodes(), self.spec_limit(), self.spec_fallback(), offset)
                == self.spec_nodes()[j].orig,
    {
        let ns = self.spec_nodes();
        assert forall|jj: int| 0 <= jj < j + 1 implies (#[trigger] ns[jj]).start <= offset by {
            if jj < j {
                assert(ns[jj].start <= ns[j].start);
            }
        }
        lemma_first_start_after_at_least(ns, offset, j + 1);
        lemma_first_start_after_props(ns, offset);
        let fa = first_start_after(ns, offset);
        if fa > j + 1 {
            assert(ns[j + 1].start <= offset);
        }
        assert(fa == j + 1);
    }

    /// When the first index entry roots a subtree spanning every entry but
    /// the last, an offset past that subtree's whole range resolving at or
    /// after the last entry is answered after visiting two entries only: the
    /// scan hops over the subtree instead of walking its children.
    pub proof fn lemma_subtree_skipped_in_one_step(self, offset: int)
        requires
            self.wf(),
            self.spec_nodes().len() >= 2,
            self.spec_nodes()[0].width == self.spec_nodes().len() - 1,
            offset >= self.spec_nodes()[0].end,
            self.spec_nodes()[self.spec_nodes().len() - 1].start <= offset,
        ensures
            scan_visits(self.spec_nodes(), offset, 0) == 2,
    {
        crate::model::lemma_skip_whole_subtree(self.spec_nodes(), self.spec_limit(), offset);
    }
}

/// Walks a token tree and reconstructs the text it spells, synthesising the
/// padding recorded in the tokens' original locations, while building the
/// position index that maps offsets in that text back to original spans.
/// `extent_end` bounds the embedding site: tokens whose locations lie at or
/// past it were pasted in from elsewhere and get no synthesised padding.
/// `anchor` is the embedding site's own span, kept as the lookup fallback.
/// The one failure is `MalformedIndentation`; nothing partial is returned.
#[verifier::loop_isolation(false)]
pub fn build(tokens: &Vec<Token>, extent_end: LineCol, anchor: Span) -> (r: Result<
    (Vec<u8>, Tree),
    ReconstructError,
>)
    requires
        tokens_wf(tokens@),
    ensures
        match r {
            Ok(p) => reconstruct_spec(tokens@, extent_end) matches Some(st) && p.0@ == st.out
                && p.1.spec_nodes() == st.nodes && p.1.spec_limit() == st.out.len()
                && p.1.spec_fallback() == anchor && p.1.wf(),
            Err(e) => reconstruct_spec(tokens@, extent_end) is None && e
                == ReconstructError::MalformedIndentation,
        },
{
    let mut source = Source {
        out: Vec::new(),
        start_col: None,
        line: 0,
        col: 0,
        nodes: Vec::new(),
    };
    proof {
        assert(source.abs() =~= init_state());
    }
    let mut i: usize = 0;
    while i < tokens.len()
        invariant
            i <= tokens@.len(),
            source.wf(),
            tokens_step(init_state(), tokens@, 0, extent_end) == tokens_step(
                source.abs(),
                tokens@,
                i as int,
                extent_end,
            ),
        decreases tokens@.len() - i,
    {
        proof {
            assert(token_wf(tokens@[i as int]));
        }
        match source.emit_token(&tokens[i], extent_end) {
            Err(e) => {
                return Err(e);
            },
            Ok(()) => {},
        }
        i = i + 1;
    }
    proof {
        lemma_reconstruct_wf(tokens@, extent_end);
    }
    let limit = source.out.len();
    let tree = Tree { nodes: source.nodes, fallback: anchor, limit };
    Ok((source.out, tree))
}

} // verus!
