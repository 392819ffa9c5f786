//! The mathematical model of one reconstruction pass: a ghost state and a
//! step function per emission, defined over sequences and unbounded integers.
//! The executable reconstructor is proved to follow these steps exactly.

use vstd::prelude::*;

use crate::token::{Delim, Group, Leaf, LineCol, Span, Token, is_local};

verus! {

/// The newline byte.
pub const NL: u8 = 10;

/// The space byte.
pub const SP: u8 = 32;

/// One entry of the position index: the byte range the token occupies in the
/// reconstructed text, the original span it stands for, and the number of
/// index entries in its subtree (itself included).
#[verifier::ext_equal]
pub struct SpecNode {
    pub start: int,
    pub end: int,
    pub orig: Span,
    pub width: int,
}

/// The reconstruction state: output so far, the indentation base captured
/// from the first local token, the cursor (line and column in the output),
/// and the index entries built so far, in pre-order.
#[verifier::ext_equal]
pub struct RecState {
    pub out: Seq<u8>,
    pub base: Option<int>,
    pub line: int,
    pub col: int,
    pub nodes: Seq<SpecNode>,
}

/// The state a reconstruction pass starts from.
pub open spec fn init_state() -> RecState {
    RecState { out: Seq::empty(), base: None, line: 0, col: 0, nodes: Seq::empty() }
}

/// `n` copies of the byte `b` (none when `n` is not positive).
pub open spec fn repeat_byte(b: u8, n: int) -> Seq<u8> {
    Seq::new(if n >= 0 { n as nat } else { 0 }, |i: int| b)
}

/// The opening delimiter byte of a group.
pub open spec fn open_byte(d: Delim) -> u8 {
    match d {
        Delim::Paren => 40,
        Delim::Bracket => 91,
        Delim::Brace => 123,
        Delim::Transparent => 0,
    }
}

/// The closing delimiter byte of a group.
pub open spec fn close_byte(d: Delim) -> u8 {
    match d {
        Delim::Paren => 41,
        Delim::Bracket => 93,
        Delim::Brace => 125,
        Delim::Transparent => 0,
    }
}

/// The index just after the first newline at or after `from`, or `s.len()`
/// when the rest of `s` holds no newline.
pub open spec fn line_end(s: Seq<u8>, from: int) -> int
    decreases s.len() - from when 0 <= from <= s.len()
{
    if !(0 <= from < s.len()) {
        s.len() as int
    } else if s[from] == NL {
        from + 1
    } else {
        line_end(s, from + 1)
    }
}

pub proof fn lemma_line_end_bounds(s: Seq<u8>, from: int)
    requires
        0 <= from <= s.len(),
    ensures
        from <= line_end(s, from) <= s.len(),
        from < s.len() ==> from < line_end(s, from),
    decreases s.len() - from,
{
    if 0 <= from < s.len() && s[from] != NL {
        lemma_line_end_bounds(s, from + 1);
    }
}

/// Whitespace synthesis before a token whose original location is `loc`:
/// pasted locations (outside the extent) add nothing; local ones pad with
/// newlines up to the line before the target, fix the indentation base on
/// first use, and pad with spaces up to the dedented target column. `None`
/// is the indentation fault: a local target column left of the base.
pub open spec fn ws_step(st: RecState, loc: LineCol, extent_end: LineCol) -> Option<RecState> {
    if !is_local(loc, extent_end) {
        Some(st)
    } else {
        let target_line = loc.line - 1;
        let nl = if st.line < target_line { target_line - st.line } else { 0 };
        let line1 = st.line + nl;
        let col1 = if nl > 0 { 0 } else { st.col };
        let out1 = st.out + repeat_byte(NL, nl);
        let b = match st.base {
            Some(b0) => b0,
            None => loc.col as int,
        };
        if loc.col < b {
            None
        } else {
            let target_col = loc.col - b;
            let col2 = if col1 < target_col { target_col } else { col1 };
            Some(RecState {
                out: out1 + repeat_byte(SP, col2 - col1),
                base: Some(b),
                line: line1,
                col: col2,
                nodes: st.nodes,
            })
        }
    }
}

#[via_fn]
proof fn cont_step_decreases(st: RecState, s: Seq<u8>, from: int, base: int) {
    lemma_line_end_bounds(s, from);
}

/// Emission of the continuation lines of a multi-line token text: each line
/// after the first is dedented by exactly `base` bytes. `None` is the
/// indentation fault: a continuation line whose content is shorter than
/// `base`, or whose first `base` bytes are not all spaces.
pub open spec fn cont_step(st: RecState, s: Seq<u8>, from: int, base: int) -> Option<RecState>
    decreases s.len() - from when 0 <= from <= s.len()
    via cont_step_decreases
{
    if !(0 <= from < s.len()) {
        Some(st)
    } else {
        let e = line_end(s, from);
        let content_end = if s[e - 1] == NL { e - 1 } else { e };
        if base < 0 || content_end - from < base {
            None
        } else if exists|k: int| from <= k < from + base && s[k] != SP {
            None
        } else {
            let ded = s.subrange(from + base, e);
            let st2 = RecState {
                out: st.out + ded,
                base: st.base,
                line: st.line + 1,
                col: ded.len() as int,
                nodes: st.nodes,
            };
            cont_step(st2, s, e, base)
        }
    }
}

/// Emission of one token's literal text: the first line goes out as it
/// stands and advances the column; the remaining lines are dedented by the
/// indentation base, which must already be fixed when they exist.
pub open spec fn text_step(st: RecState, s: Seq<u8>) -> Option<RecState> {
    let e = line_end(s, 0);
    let st1 = RecState {
        out: st.out + s.subrange(0, e),
        base: st.base,
        line: st.line,
        col: st.col + e,
        nodes: st.nodes,
    };
    if e >= s.len() {
        Some(st1)
    } else {
        match st.base {
            Some(b) => cont_step(st1, s, e, b),
            None => None,
        }
    }
}

/// One token's full emission: whitespace, text or delimited children, and
/// its index entry. A group reserves its entry before walking its children,
/// so the index stays in pre-order, and fills it in afterwards, when the
/// subtree width is known. A transparent group only splices its children.
pub open spec fn token_step(st: RecState, t: Token, extent_end: LineCol) -> Option<RecState>
    decreases t, 1int,
{
    match t {
        Token::Leaf(l) => match ws_step(st, l.span.start, extent_end) {
            Some(st1) => match text_step(st1, l.text@) {
                Some(st2) => Some(RecState {
                    out: st2.out,
                    base: st2.base,
                    line: st2.line,
                    col: st2.col,
                    nodes: st2.nodes.push(SpecNode {
                        start: st1.out.len() as int,
                        end: st2.out.len() as int,
                        orig: l.span,
                        width: 1,
                    }),
                }),
                None => None,
            },
            None => None,
        },
        Token::Group(g) => {
            if g.delim is Transparent {
                children_step(st, g, 0, extent_end)
            } else {
                let k = st.nodes.len() as int;
                let st0 = RecState {
                    out: st.out,
                    base: st.base,
                    line: st.line,
                    col: st.col,
                    nodes: st.nodes.push(SpecNode { start: 0, end: 0, orig: g.span, width: 0 }),
                };
                match ws_step(st0, g.open.start, extent_end) {
                    Some(st1) => {
                        let st2 = RecState {
                            out: st1.out.push(open_byte(g.delim)),
                            base: st1.base,
                            line: st1.line,
                            col: st1.col + 1,
                            nodes: st1.nodes,
                        };
                        match children_step(st2, g, 0, extent_end) {
                            Some(st3) => match ws_step(st3, g.close.start, extent_end) {
                                Some(st4) => {
                                    let st5 = RecState {
                                        out: st4.out.push(close_byte(g.delim)),
                                        base: st4.base,
                                        line: st4.line,
                                        col: st4.col + 1,
                                        nodes: st4.nodes,
                                    };
                                    Some(RecState {
                                        out: st5.out,
                                        base: st5.base,
                                        line: st5.line,
                                        col: st5.col,
                                        nodes: st5.nodes.update(k, SpecNode {
                                            start: st1.out.len() as int,
                                            end: st5.out.len() as int,
                                            orig: g.span,
                                            width: st5.nodes.len() - k,
                                        }),
                                    })
                                },
                                None => None,
                            },
                            None => None,
                        }
                    },
                    None => None,
                }
            }
        },
    }
}

/// The children of a group, emitted left to right from child `i` on.
pub open spec fn children_step(st: RecState, g: Group, i: int, extent_end: LineCol) -> Option<
    RecState,
>
    decreases g, g.children@.len() - i, 0int,
{
    if !(0 <= i < g.children@.len()) {
        Some(st)
    } else {
        match token_step(st, g.children@[i], extent_end) {
            Some(st2) => children_step(st2, g, i + 1, extent_end),
            None => None,
        }
    }
}

/// A token sequence, emitted left to right from token `i` on.
pub open spec fn tokens_step(st: RecState, ts: Seq<Token>, i: int, extent_end: LineCol) -> Option<
    RecState,
>
    decreases ts.len() - i when 0 <= i <= ts.len()
{
    if !(0 <= i < ts.len()) {
        Some(st)
    } else {
        match token_step(st, ts[i], extent_end) {
            Some(st2) => tokens_step(st2, ts, i + 1, extent_end),
            None => None,
        }
    }
}

/// What one whole reconstruction pass yields for a token sequence: the final
/// state, or `None` on an indentation fault.
pub open spec fn reconstruct_spec(ts: Seq<Token>, extent_end: LineCol) -> Option<RecState> {
    tokens_step(init_state(), ts, 0, extent_end)
}

/// `a` is an unchanged prefix of `b`.
pub open spec fn byte_prefix(a: Seq<u8>, b: Seq<u8>) -> bool {
    a.len() <= b.len() && a == b.subrange(0, a.len() as int)
}

/// `a` is an unchanged prefix of `b`.
pub open spec fn node_prefix(a: Seq<SpecNode>, b: Seq<SpecNode>) -> bool {
    a.len() <= b.len() && a == b.subrange(0, a.len() as int)
}

/// The index entries from position `a` on form completed pre-order subtrees
/// whose output ranges sit inside `[lo, hi]`: ranges are ordered, starts are
/// non-decreasing, every subtree width is positive and stays in bounds, and
/// every node inside a subtree starts before that subtree's range ends. This
/// is exactly what lets a lookup skip a whole subtree in one step.
pub open spec fn seg_wf(ns: Seq<SpecNode>, a: int, lo: int, hi: int) -> bool {
    &&& forall|i: int|
        a <= i < ns.len() ==> lo <= (#[trigger] ns[i]).start && ns[i].start <= ns[i].end
            && ns[i].end <= hi
    &&& forall|i: int, j: int|
        a <= i < j < ns.len() ==> (#[trigger] ns[i]).start <= (#[trigger] ns[j]).start
    &&& forall|i: int|
        a <= i < ns.len() ==> 1 <= (#[trigger] ns[i]).width && i + ns[i].width <= ns.len()
    &&& forall|i: int, j: int|
        a <= i < ns.len() && i < j < i + (#[trigger] ns[i]).width ==> (#[trigger] ns[j]).start
            < ns[i].end
}

/// A whole position index is well formed when its entries form completed
/// subtrees whose ranges lie inside the reconstructed text.
pub open spec fn index_wf(ns: Seq<SpecNode>, limit: int) -> bool {
    seg_wf(ns, 0, 0, limit)
}

/// Whitespace synthesis leaves the index entries alone, only appends to the
/// output, and never forgets an already fixed indentation base.
pub proof fn lemma_ws_step_frame(st: RecState, loc: LineCol, extent_end: LineCol)
    ensures
        ws_step(st, loc, extent_end) matches Some(st2) ==> st2.nodes == st.nodes && byte_prefix(
            st.out,
            st2.out,
        ) && (st.base is Some ==> st2.base == st.base),
{
    match ws_step(st, loc, extent_end) {
        Some(st2) => {
            assert(st.out =~= st2.out.subrange(0, st.out.len() as int));
        },
        None => {},
    }
}

/// Continuation-line emission leaves the index entries and the base alone
/// and only appends to the output.
pub proof fn lemma_cont_step_frame(st: RecState, s: Seq<u8>, from: int, base: int)
    requires
        0 <= from <= s.len(),
    ensures
        cont_step(st, s, from, base) matches Some(st2) ==> st2.nodes == st.nodes && byte_prefix(
            st.out,
            st2.out,
        ) && st2.base == st.base,
    decreases s.len() - from,
{
    if !(0 <= from < s.len()) {
        assert(st.out =~= st.out.subrange(0, st.out.len() as int));
    } else {
        lemma_line_end_bounds(s, from);
        let e = line_end(s, from);
        let content_end = if s[e - 1] == NL {
            e - 1
        } else {
            e
        };
        if base < 0 || content_end - from < base {
        } else if exists|k: int| from <= k < from + base && s[k] != SP {
        } else {
            let ded = s.subrange(from + base, e);
            let st1 = RecState {
                out: st.out + ded,
                base: st.base,
                line: st.line + 1,
                col: ded.len() as int,
                nodes: st.nodes,
            };
            lemma_cont_step_frame(st1, s, e, base);
            match cont_step(st1, s, e, base) {
                Some(st2) => {
                    assert(st.out =~= st1.out.subrange(0, st.out.len() as int));
                    assert(st.out =~= st2.out.subrange(0, st.out.len() as int));
                },
                None => {},
            }
        }
    }
}

/// Text emission leaves the index entries and the base alone and only
/// appends to the output.
pub proof fn lemma_text_step_frame(st: RecState, s: Seq<u8>)
    ensures
        text_step(st, s) matches Some(st2) ==> st2.nodes == st.nodes && byte_prefix(
            st.out,
            st2.out,
        ) && st2.base == st.base,
{
    let e = line_end(s, 0);
    lemma_line_end_bounds(s, 0);
    let st1 = RecState {
        out: st.out + s.subrange(0, e),
        base: st.base,
        line: st.line,
        col: st.col + e,
        nodes: st.nodes,
    };
    assert(st.out =~= st1.out.subrange(0, st.out.len() as int));
    if e < s.len() {
        match st.base {
            Some(b) => {
                lemma_cont_step_frame(st1, s, e, b);
                match cont_step(st1, s, e, b) {
                    Some(st2) => {
                        assert(st.out =~= st2.out.subrange(0, st.out.len() as int));
                    },
                    None => {},
                }
            },
            None => {},
        }
    }
}

/// One token's emission appends completed, well-formed index subtrees whose
/// output ranges sit inside the bytes it appended.
#[verifier::rlimit(60)]
pub proof fn lemma_token_step_wf(st: RecState, t: Token, extent_end: LineCol)
    ensures
        token_step(st, t, extent_end) matches Some(st2) ==> node_prefix(st.nodes, st2.nodes)
            && byte_prefix(st.out, st2.out) && (st.base is Some ==> st2.base == st.base) && seg_wf(
            st2.nodes,
            st.nodes.len() as int,
            st.out.len() as int,
            st2.out.len() as int,
        ),
    decreases t, 1int,
{
    match t {
        Token::Leaf(l) => {
            match ws_step(st, l.span.start, extent_end) {
                Some(st1) => {
                    lemma_ws_step_frame(st, l.span.start, extent_end);
                    match text_step(st1, l.text@) {
                        Some(stx) => {
                            lemma_text_step_frame(st1, l.text@);
                            match token_step(st, t, extent_end) {
                                Some(st2) => {
                                    assert(st.nodes =~= st2.nodes.subrange(
                                        0,
                                        st.nodes.len() as int,
                                    ));
                                    assert(st.out =~= st2.out.subrange(0, st.out.len() as int));
                                    assert(st2.nodes[st.nodes.len() as int] == SpecNode {
                                        start: st1.out.len() as int,
                                        end: stx.out.len() as int,
                                        orig: l.span,
                                        width: 1,
                                    });
                                    assert(st2.nodes.len() == st.nodes.len() + 1);
                                    assert(seg_wf(
                                        st2.nodes,
                                        st.nodes.len() as int,
                                        st.out.len() as int,
                                        st2.out.len() as int,
                                    ));
                                },
                                None => {},
                            }
                        },
                        None => {},
                    }
                },
                None => {},
            }
        },
        Token::Group(g) => {
            if g.delim is Transparent {
                lemma_children_step_wf(st, g, 0, extent_end);
            } else {
                let k = st.nodes.len() as int;
                let st0 = RecState {
                    out: st.out,
                    base: st.base,
                    line: st.line,
                    col: st.col,
                    nodes: st.nodes.push(SpecNode { start: 0, end: 0, orig: g.span, width: 0 }),
                };
                match ws_step(st0, g.open.start, extent_end) {
                    None => {},
                    Some(st1) => {
                        lemma_ws_step_frame(st0, g.open.start, extent_end);
                        let st2 = RecState {
                            out: st1.out.push(open_byte(g.delim)),
                            base: st1.base,
                            line: st1.line,
                            col: st1.col + 1,
                            nodes: st1.nodes,
                        };
                        assert(byte_prefix(st1.out, st2.out)) by {
                            assert(st1.out =~= st2.out.subrange(0, st1.out.len() as int));
                        }
                        match children_step(st2, g, 0, extent_end) {
                            None => {},
                            Some(st3) => {
                                lemma_children_step_wf(st2, g, 0, extent_end);
                                match ws_step(st3, g.close.start, extent_end) {
                                    None => {},
                                    Some(st4) => {
                                        lemma_ws_step_frame(st3, g.close.start, extent_end);
                                        let st5 = RecState {
                                            out: st4.out.push(close_byte(g.delim)),
                                            base: st4.base,
                                            line: st4.line,
                                            col: st4.col + 1,
                                            nodes: st4.nodes,
                                        };
                                        assert(byte_prefix(st4.out, st5.out)) by {
                                            assert(st4.out =~= st5.out.subrange(0, st4.out.len() as int));
                                        }
                                        let filled = SpecNode {
                                            start: st1.out.len() as int,
                                            end: st5.out.len() as int,
                                            orig: g.span,
                                            width: st5.nodes.len() - k,
                                        };
                                        let ns2 = st5.nodes.update(k, filled);
                                        assert(st3.nodes =~= st5.nodes);
                                        assert forall|j: int| 0 <= j < k + 1 implies st3.nodes[j]
                                            == st0.nodes[j] by {
                                            assert(st2.nodes == st3.nodes.subrange(
                                                0,
                                                st2.nodes.len() as int,
                                            ));
                                            assert(st3.nodes.subrange(0, st2.nodes.len() as int)[j]
                                                == st3.nodes[j]);
                                        }
                                        assert(st.nodes =~= ns2.subrange(0, st.nodes.len() as int));
                                        assert(st.out =~= st5.out.subrange(0, st.out.len() as int));
                                        assert(seg_wf(ns2, k, st.out.len() as int, st5.out.len() as int)) by {
                                            let lo = st.out.len() as int;
                                            let hi = st5.out.len() as int;
                                            assert(seg_wf(
                                                st3.nodes,
                                                k + 1,
                                                st2.out.len() as int,
                                                st3.out.len() as int,
                                            ));
                                            assert forall|j: int| k + 1 <= j < ns2.len() implies ns2[j]
                                                == st3.nodes[j] by {
                                                assert(st3.nodes =~= st4.nodes);
                                            }
                                            assert forall|i: int|
                                                k <= i < ns2.len() implies lo <= (#[trigger] ns2[i]).start
                                                && ns2[i].start <= ns2[i].end && ns2[i].end <= hi by {
                                                if i > k {
                                                    assert(ns2[i] == st3.nodes[i]);
                                                }
                                            }
                                            assert forall|i: int, j: int|
                                                k <= i < j < ns2.len() implies (#[trigger] ns2[i]).start <= (
                                            #[trigger] ns2[j]).start by {
                                                if i > k {
                                                    assert(ns2[i] == st3.nodes[i]);
                                                }
                                                if j > k {
                                                    assert(ns2[j] == st3.nodes[j]);
                                                }
                                            }
                                            assert forall|i: int|
                                                k <= i < ns2.len() implies 1 <= (#[trigger] ns2[i]).width && i
                                                + ns2[i].width <= ns2.len() by {
                                                if i > k {
                                                    assert(ns2[i] == st3.nodes[i]);
                                                }
                                            }
                                            assert forall|i: int, j: int|
                                                k <= i < ns2.len() && i < j < i + (#[trigger] ns2[i]).width
                                                implies (#[trigger] ns2[j]).start < ns2[i].end by {
                                                if i > k {
                                                    assert(ns2[i] == st3.nodes[i]);
                                                    assert(ns2[j] == st3.nodes[j]);
                                                } else {
                                                    assert(ns2[j] == st3.nodes[j]);
                                                    assert(ns2[j].start <= ns2[j].end);
                                                }
                                            }
                                        }
                                    },
                                }
                            },
                        }
                    },
                }
            }
        },
    }
}

/// The children of a group, emitted from child `i` on, append completed,
/// well-formed index subtrees.
pub proof fn lemma_children_step_wf(st: RecState, g: Group, i: int, extent_end: LineCol)
    ensures
        children_step(st, g, i, extent_end) matches Some(st2) ==> node_prefix(st.nodes, st2.nodes)
            && byte_prefix(st.out, st2.out) && (st.base is Some ==> st2.base == st.base) && seg_wf(
            st2.nodes,
            st.nodes.len() as int,
            st.out.len() as int,
            st2.out.len() as int,
        ),
    decreases g, g.children@.len() - i, 0int,
{
    if !(0 <= i < g.children@.len()) {
        assert(st.nodes =~= st.nodes.subrange(0, st.nodes.len() as int));
        assert(st.out =~= st.out.subrange(0, st.out.len() as int));
    } else {
        match token_step(st, g.children@[i], extent_end) {
            None => {},
            Some(stm) => {
                lemma_token_step_wf(st, g.children@[i], extent_end);
                lemma_children_step_wf(stm, g, i + 1, extent_end);
                match children_step(stm, g, i + 1, extent_end) {
                    None => {},
                    Some(st2) => {
                        lemma_seg_wf_compose(
                            st.nodes,
                            stm.nodes,
                            st2.nodes,
                            st.out.len() as int,
                            stm.out.len() as int,
                            st2.out.len() as int,
                        );
                        assert(st.nodes =~= st2.nodes.subrange(0, st.nodes.len() as int));
                        assert(st.out =~= st2.out.subrange(0, st.out.len() as int));
                    },
                }
            },
        }
    }
}

/// Two adjacent completed segments compose into one completed segment.
pub proof fn lemma_seg_wf_compose(
    ns0: Seq<SpecNode>,
    ns1: Seq<SpecNode>,
    ns2: Seq<SpecNode>,
    lo: int,
    mid: int,
    hi: int,
)
    requires
        node_prefix(ns0, ns1),
        node_prefix(ns1, ns2),
        seg_wf(ns1, ns0.len() as int, lo, mid),
        seg_wf(ns2, ns1.len() as int, mid, hi),
        lo <= mid <= hi,
    ensures
        seg_wf(ns2, ns0.len() as int, lo, hi),
{
    let a = ns0.len() as int;
    let b = ns1.len() as int;
    assert forall|j: int| a <= j < b implies ns2[j] == ns1[j] by {
        assert(ns1 == ns2.subrange(0, b));
        assert(ns2.subrange(0, b)[j] == ns2[j]);
    }
    assert forall|i: int|
        a <= i < ns2.len() implies lo <= (#[trigger] ns2[i]).start && ns2[i].start <= ns2[i].end
        && ns2[i].end <= hi by {
        if i < b {
            assert(ns2[i] == ns1[i]);
        }
    }
    assert forall|i: int, j: int|
        a <= i < j < ns2.len() implies (#[trigger] ns2[i]).start <= (#[trigger] ns2[j]).start by {
        if i < b {
            assert(ns2[i] == ns1[i]);
        }
        if j < b {
            assert(ns2[j] == ns1[j]);
        }
        if i < b && j >= b {
            assert(ns2[i].start <= ns2[i].end <= mid <= ns2[j].start);
        }
    }
    assert forall|i: int|
        a <= i < ns2.len() implies 1 <= (#[trigger] ns2[i]).width && i + ns2[i].width
        <= ns2.len() by {
        if i < b {
            assert(ns2[i] == ns1[i]);
        }
    }
    assert forall|i: int, j: int|
        a <= i < ns2.len() && i < j < i + (#[trigger] ns2[i]).width implies (#[trigger] ns2[j]).start
        < ns2[i].end by {
        if i < b {
            assert(ns2[i] == ns1[i]);
            assert(i + ns1[i].width <= b);
            assert(ns2[j] == ns1[j]);
        }
    }
}

/// A full pass from token `i` on appends completed, well-formed subtrees.
pub proof fn lemma_tokens_step_wf(st: RecState, ts: Seq<Token>, i: int, extent_end: LineCol)
    requires
        0 <= i <= ts.len(),
    ensures
        tokens_step(st, ts, i, extent_end) matches Some(st2) ==> node_prefix(st.nodes, st2.nodes)
            && byte_prefix(st.out, st2.out) && (st.base is Some ==> st2.base == st.base) && seg_wf(
            st2.nodes,
            st.nodes.len() as int,
            st.out.len() as int,
            st2.out.len() as int,
        ),
    decreases ts.len() - i,
{
    if !(0 <= i < ts.len()) {
        assert(st.nodes =~= st.nodes.subrange(0, st.nodes.len() as int));
        assert(st.out =~= st.out.subrange(0, st.out.len() as int));
    } else {
        match token_step(st, ts[i], extent_end) {
            None => {},
            Some(stm) => {
                lemma_token_step_wf(st, ts[i], extent_end);
                lemma_tokens_step_wf(stm, ts, i + 1, extent_end);
                match tokens_step(stm, ts, i + 1, extent_end) {
                    None => {},
                    Some(st2) => {
                        lemma_seg_wf_compose(
                            st.nodes,
                            stm.nodes,
                            st2.nodes,
                            st.out.len() as int,
                            stm.out.len() as int,
                            st2.out.len() as int,
                        );
                        assert(st.nodes =~= st2.nodes.subrange(0, st.nodes.len() as int));
                        assert(st.out =~= st2.out.subrange(0, st.out.len() as int));
                    },
                }
            },
        }
    }
}

/// A whole reconstruction pass builds a well-formed index over the text it
/// produced.
pub proof fn lemma_reconstruct_wf(ts: Seq<Token>, extent_end: LineCol)
    ensures
        reconstruct_spec(ts, extent_end) matches Some(st) ==> index_wf(
            st.nodes,
            st.out.len() as int,
        ),
{
    lemma_tokens_step_wf(init_state(), ts, 0, extent_end);
}

/// The number of leading index entries whose output range starts at or
/// before `offset`; entries are stored with non-decreasing starts, so this
/// is also the position of the first entry starting past `offset`.
pub open spec fn first_start_after(ns: Seq<SpecNode>, offset: int) -> int
    decreases ns.len(),
{
    if ns.len() == 0 {
        0
    } else if ns[0].start > offset {
        0
    } else {
        1 + first_start_after(ns.drop_first(), offset)
    }
}

pub proof fn lemma_first_start_after_props(ns: Seq<SpecNode>, offset: int)
    ensures
        0 <= first_start_after(ns, offset) <= ns.len(),
        first_start_after(ns, offset) < ns.len() ==> ns[first_start_after(ns, offset)].start
            > offset,
        forall|j: int| 0 <= j < first_start_after(ns, offset) ==> (#[trigger] ns[j]).start
            <= offset,
    decreases ns.len(),
{
    if ns.len() == 0 || ns[0].start > offset {
    } else {
        lemma_first_start_after_props(ns.drop_first(), offset);
        assert forall|j: int| 0 <= j < first_start_after(ns, offset) implies (#[trigger] ns[j]).start
            <= offset by {
            if j > 0 {
                assert(ns.drop_first()[j - 1] == ns[j]);
            }
        }
        if first_start_after(ns, offset) < ns.len() {
            assert(ns.drop_first()[first_start_after(ns.drop_first(), offset)] == ns[
                first_start_after(ns, offset)]);
        }
    }
}

pub proof fn lemma_first_start_after_at_least(ns: Seq<SpecNode>, offset: int, k: int)
    requires
        0 <= k <= ns.len(),
        forall|j: int| 0 <= j < k ==> (#[trigger] ns[j]).start <= offset,
    ensures
        first_start_after(ns, offset) >= k,
    decreases ns.len(),
{
    if k == 0 || ns.len() == 0 {
        lemma_first_start_after_props(ns, offset);
    } else {
        assert(ns[0].start <= offset);
        assert forall|j: int| 0 <= j < k - 1 implies (#[trigger] ns.drop_first()[j]).start
            <= offset by {
            assert(ns.drop_first()[j] == ns[j + 1]);
        }
        lemma_first_start_after_at_least(ns.drop_first(), offset, k - 1);
        assert(first_start_after(ns, offset) == 1 + first_start_after(ns.drop_first(), offset));
    }
}

/// The index entry an offset resolves to: the last entry starting at or
/// before it, or the very first entry when the offset precedes them all.
pub open spec fn resolved_index(ns: Seq<SpecNode>, offset: int) -> int {
    let fa = first_start_after(ns, offset);
    if fa == 0 {
        0
    } else {
        fa - 1
    }
}

/// What a lookup over the index answers: the fallback span when the index is
/// empty or the offset is outside the reconstructed text, else the original
/// span of the entry the offset resolves to.
pub open spec fn lookup_spec(ns: Seq<SpecNode>, limit: int, fallback: Span, offset: int) -> Span {
    if ns.len() == 0 || offset < 0 || offset >= limit {
        fallback
    } else {
        ns[resolved_index(ns, offset)].orig
    }
}

/// How many index entries the scanning lookup visits from position `i` on:
/// it stops at the first entry starting past the offset, and hops over a
/// whole subtree whenever the offset lies past that subtree's range.
pub open spec fn scan_visits(ns: Seq<SpecNode>, offset: int, i: int) -> int
    decreases ns.len() - i when 0 <= i <= ns.len()
{
    if !(0 <= i < ns.len()) || ns[i].start > offset {
        0
    } else {
        let step = if offset >= ns[i].end && ns[i].width >= 1 {
            ns[i].width
        } else {
            1
        };
        let i2 = if i + step > ns.len() {
            ns.len() as int
        } else {
            i + step
        };
        1 + scan_visits(ns, offset, i2)
    }
}

pub proof fn lemma_scan_visits_nonneg(ns: Seq<SpecNode>, offset: int, i: int)
    requires
        0 <= i <= ns.len(),
    ensures
        scan_visits(ns, offset, i) >= 0,
    decreases ns.len() - i,
{
    if !(0 <= i < ns.len()) || ns[i].start > offset {
    } else {
        let step = if offset >= ns[i].end && ns[i].width >= 1 {
            ns[i].width
        } else {
            1
        };
        let i2 = if i + step > ns.len() {
            ns.len() as int
        } else {
            i + step
        };
        lemma_scan_visits_nonneg(ns, offset, i2);
    }
}

/// In a text with no newline byte, the first line runs to the end.
pub proof fn lemma_line_end_no_nl(s: Seq<u8>, from: int)
    requires
        0 <= from <= s.len(),
        forall|j: int| from <= j < s.len() ==> s[j] != NL,
    ensures
        line_end(s, from) == s.len(),
    decreases s.len() - from,
{
    if from < s.len() {
        lemma_line_end_no_nl(s, from + 1);
    }
}

/// A pasted leaf (its original location lies outside the embedding extent)
/// gets no synthesised padding: its text is appended as it stands, and it is
/// still given an index entry of its own, distinct from every earlier one.
pub proof fn lemma_pasted_leaf_no_padding(st: RecState, l: Leaf, extent_end: LineCol)
    requires
        !is_local(l.span.start, extent_end),
        forall|j: int| 0 <= j < l.text@.len() ==> l.text@[j] != NL,
    ensures
        token_step(st, Token::Leaf(l), extent_end) == Some(RecState {
            out: st.out + l.text@,
            base: st.base,
            line: st.line,
            col: st.col + l.text@.len(),
            nodes: st.nodes.push(SpecNode {
                start: st.out.len() as int,
                end: st.out.len() as int + l.text@.len() as int,
                orig: l.span,
                width: 1,
            }),
        }),
{
    lemma_line_end_no_nl(l.text@, 0);
    assert(l.text@.subrange(0, l.text@.len() as int) =~= l.text@);
    assert(ws_step(st, l.span.start, extent_end) == Some(st));
    match token_step(st, Token::Leaf(l), extent_end) {
        Some(st2) => {
            assert(st2 =~= (RecState {
                out: st.out + l.text@,
                base: st.base,
                line: st.line,
                col: st.col + l.text@.len(),
                nodes: st.nodes.push(SpecNode {
                    start: st.out.len() as int,
                    end: st.out.len() as int + l.text@.len() as int,
                    orig: l.span,
                    width: 1,
                }),
            }));
        },
        None => {},
    }
}

/// When the first index entry roots a subtree that spans every entry but the
/// last, and the offset lies past that whole subtree but at or after the
/// last entry's start, the scan visits exactly two entries: it hops over the
/// subtree in one step and lands on the final sibling, never comparing
/// against anything inside the subtree.
pub proof fn lemma_skip_whole_subtree(ns: Seq<SpecNode>, limit: int, offset: int)
    requires
        seg_wf(ns, 0, 0, limit),
        ns.len() >= 2,
        ns[0].width == ns.len() - 1,
        offset >= ns[0].end,
        ns[ns.len() - 1].start <= offset,
    ensures
        scan_visits(ns, offset, 0) == 2,
{
    let last = ns.len() - 1;
    assert(ns[0].start <= ns[0].end);
    assert(1 <= ns[last].width && last + ns[last].width <= ns.len());
    assert(scan_visits(ns, offset, ns.len() as int) == 0);
    assert(scan_visits(ns, offset, last) == 1);
    assert(scan_visits(ns, offset, 0) == 2);
}

} // verus!
