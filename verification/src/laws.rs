//! The layout law: a pass over purely local, single-line tokens reproduces
//! the tokens' original relative layout exactly, shifted to a zero-based
//! origin. Each index entry's output position, read back as a line and
//! column of the reconstructed text, equals the original location of the
//! token it stands for, minus one line and minus the indentation base.

use vstd::prelude::*;

use crate::model::{
    NL, RecState, SP, SpecNode, byte_prefix, children_step, close_byte, init_state,
    lemma_line_end_no_nl, node_prefix, open_byte, reconstruct_spec, repeat_byte, text_step,
    token_step, tokens_step, ws_step,
};
use crate::token::{Group, LineCol, Token, is_local};

verus! {

/// How many newline bytes `s` holds.
pub open spec fn nl_count(s: Seq<u8>) -> int
    decreases s.len(),
{
    if s.len() == 0 {
        0
    } else {
        nl_count(s.drop_last()) + if s.last() == NL {
            1int
        } else {
            0int
        }
    }
}

/// The index just after the last newline of `s`, or zero without one: where
/// the final line of `s` begins.
pub open spec fn line_start(s: Seq<u8>) -> int
    decreases s.len(),
{
    if s.len() == 0 {
        0
    } else if s.last() == NL {
        s.len() as int
    } else {
        line_start(s.drop_last())
    }
}

/// The zero-based line a byte position of `s` falls on.
pub open spec fn line_at(s: Seq<u8>, p: int) -> int {
    nl_count(s.take(p))
}

/// The column (bytes since the last newline) a byte position of `s` falls on.
pub open spec fn col_at(s: Seq<u8>, p: int) -> int {
    p - line_start(s.take(p))
}

/// The cursor fields of a state track its output text.
pub open spec fn cursor_ok(st: RecState) -> bool {
    st.line == nl_count(st.out) && st.col == st.out.len() - line_start(st.out)
}

pub proof fn lemma_nl_count_append(a: Seq<u8>, b: Seq<u8>)
    ensures
        nl_count(a + b) == nl_count(a) + nl_count(b),
    decreases b.len(),
{
    if b.len() == 0 {
        assert(a + b =~= a);
    } else {
        lemma_nl_count_append(a, b.drop_last());
        assert((a + b).drop_last() =~= a + b.drop_last());
        assert((a + b).last() == b.last());
    }
}

pub proof fn lemma_nl_count_no_nl(s: Seq<u8>)
    requires
        forall|j: int| 0 <= j < s.len() ==> s[j] != NL,
    ensures
        nl_count(s) == 0,
    decreases s.len(),
{
    if s.len() > 0 {
        lemma_nl_count_no_nl(s.drop_last());
    }
}

pub proof fn lemma_line_start_append_no_nl(a: Seq<u8>, b: Seq<u8>)
    requires
        forall|j: int| 0 <= j < b.len() ==> b[j] != NL,
    ensures
        line_start(a + b) == line_start(a),
    decreases b.len(),
{
    if b.len() == 0 {
        assert(a + b =~= a);
    } else {
        lemma_line_start_append_no_nl(a, b.drop_last());
        assert((a + b).drop_last() =~= a + b.drop_last());
        assert((a + b).last() == b.last());
    }
}

pub proof fn lemma_nl_count_repeat(b: u8, n: int)
    ensures
        nl_count(repeat_byte(b, n)) == if n <= 0 {
            0int
        } else if b == NL {
            n
        } else {
            0int
        },
    decreases
            if n > 0 {
                n
            } else {
                0
            },
{
    if n > 0 {
        assert(repeat_byte(b, n).drop_last() =~= repeat_byte(b, n - 1));
        lemma_nl_count_repeat(b, n - 1);
    } else {
        assert(repeat_byte(b, n) =~= Seq::<u8>::empty());
    }
}

/// Appending a single byte other than a newline moves the cursor one column
/// to the right and nothing else.
pub proof fn lemma_push_non_nl(s: Seq<u8>, b: u8)
    requires
        b != NL,
    ensures
        nl_count(s.push(b)) == nl_count(s),
        line_start(s.push(b)) == line_start(s),
{
    assert(s.push(b).drop_last() =~= s);
    assert(s.push(b).last() == b);
}

/// A position inside an unchanged prefix keeps its line and column when the
/// text grows.
pub proof fn lemma_pos_stable(a: Seq<u8>, c: Seq<u8>, p: int)
    requires
        byte_prefix(a, c),
        0 <= p <= a.len(),
    ensures
        c.take(p) == a.take(p),
{
    assert(c.take(p) =~= a.take(p)) by {
        assert(a == c.subrange(0, a.len() as int));
        assert forall|j: int| 0 <= j < p implies c.take(p)[j] == a.take(p)[j] by {
            assert(a[j] == c.subrange(0, a.len() as int)[j]);
        }
    }
}

/// Prefixes chain.
pub proof fn lemma_byte_prefix_trans(a: Seq<u8>, b: Seq<u8>, c: Seq<u8>)
    requires
        byte_prefix(a, b),
        byte_prefix(b, c),
    ensures
        byte_prefix(a, c),
{
    assert(a =~= c.subrange(0, a.len() as int)) by {
        assert forall|j: int| 0 <= j < a.len() implies a[j] == c.subrange(0, a.len() as int)[j] by {
            assert(a[j] == b.subrange(0, a.len() as int)[j]);
            assert(b[j] == c.subrange(0, b.len() as int)[j]);
        }
    }
}

/// Whitespace synthesis reaches its target exactly whenever the cursor has
/// not yet run past it: afterwards the cursor stands at the token's
/// original location, shifted to the zero-based origin.
pub proof fn lemma_ws_step_cursor(st: RecState, loc: LineCol, extent_end: LineCol, b: int)
    requires
        cursor_ok(st),
        st.base == Some(b) || (st.base is None && b == loc.col as int),
        is_local(loc, extent_end),
        loc.line >= 1,
        loc.col >= b,
        st.line <= loc.line - 1,
        st.line == loc.line - 1 ==> st.col <= loc.col - b,
    ensures
        ws_step(st, loc, extent_end) matches Some(st1) && st1.line == loc.line - 1 && st1.col
            == loc.col - b && cursor_ok(st1) && st1.base == Some(b) && st1.nodes == st.nodes
            && byte_prefix(st.out, st1.out),
{
    let target_line = loc.line - 1;
    let nl = if st.line < target_line {
        target_line - st.line
    } else {
        0
    };
    let col1 = if nl > 0 {
        0
    } else {
        st.col
    };
    let out1 = st.out + repeat_byte(NL, nl);
    lemma_nl_count_append(st.out, repeat_byte(NL, nl));
    lemma_nl_count_repeat(NL, nl);
    if nl > 0 {
        assert(out1.last() == NL);
        assert(line_start(out1) == out1.len());
    } else {
        assert(out1 =~= st.out);
    }
    let target_col = loc.col - b;
    let pad = if col1 < target_col {
        target_col - col1
    } else {
        0
    };
    assert(col1 <= target_col);
    let out2 = out1 + repeat_byte(SP, pad);
    lemma_nl_count_append(out1, repeat_byte(SP, pad));
    lemma_nl_count_repeat(SP, pad);
    lemma_line_start_append_no_nl(out1, repeat_byte(SP, pad));
    match ws_step(st, loc, extent_end) {
        Some(st1) => {
            assert(st1.out =~= out2);
            assert(st.out =~= st1.out.subrange(0, st.out.len() as int));
        },
        None => {},
    }
}

/// Emitting a single-line text advances the column by its length and leaves
/// the line alone.
pub proof fn lemma_text_step_cursor(st: RecState, s: Seq<u8>)
    requires
        cursor_ok(st),
        forall|j: int| 0 <= j < s.len() ==> s[j] != NL,
    ensures
        text_step(st, s) == Some(RecState {
            out: st.out + s,
            base: st.base,
            line: st.line,
            col: st.col + s.len(),
            nodes: st.nodes,
        }),
        cursor_ok(RecState {
            out: st.out + s,
            base: st.base,
            line: st.line,
            col: st.col + s.len(),
            nodes: st.nodes,
        }),
{
    lemma_line_end_no_nl(s, 0);
    assert(s.subrange(0, s.len() as int) =~= s);
    lemma_nl_count_append(st.out, s);
    lemma_nl_count_no_nl(s);
    lemma_line_start_append_no_nl(st.out, s);
    match text_step(st, s) {
        Some(st1) => {
            assert(st1 =~= (RecState {
                out: st.out + s,
                base: st.base,
                line: st.line,
                col: st.col + s.len(),
                nodes: st.nodes,
            }));
        },
        None => {},
    }
}

/// `(l1, c1)` does not lie past `(l2, c2)` in layout order.
pub open spec fn pos_le(l1: int, c1: int, l2: int, c2: int) -> bool {
    l1 < l2 || (l1 == l2 && c1 <= c2)
}

/// An index entry sits in the output at the original location of its token,
/// one line up and `b` columns left (the zero-based origin).
pub open spec fn node_at_origin(out: Seq<u8>, n: SpecNode, b: int) -> bool {
    &&& 0 <= n.start <= out.len()
    &&& line_at(out, n.start) == n.orig.start.line - 1
    &&& col_at(out, n.start) == n.orig.start.col - b
}

/// The layout conditions for one token laid out with the cursor at
/// `(line, col)` and indentation base `b`, and the cursor position after it:
/// every location is local and sits at or past the cursor, no leaf text
/// holds a newline, and a group's span starts at its opening delimiter.
pub open spec fn layout_token(line: int, col: int, t: Token, b: int, extent_end: LineCol) -> Option<
    (int, int),
>
    decreases t, 1int,
{
    match t {
        Token::Leaf(l) => {
            if is_local(l.span.start, extent_end) && l.span.start.line >= 1 && l.span.start.col >= b
                && pos_le(line, col, l.span.start.line - 1, l.span.start.col - b) && (forall|j: int|
                0 <= j < l.text@.len() ==> l.text@[j] != NL) {
                Some((l.span.start.line - 1, l.span.start.col - b + l.text@.len()))
            } else {
                None
            }
        },
        Token::Group(g) => {
            if g.delim is Transparent {
                layout_children(line, col, g, 0, b, extent_end)
            } else {
                if is_local(g.open.start, extent_end) && g.open.start.line >= 1 && g.open.start.col
                    >= b && pos_le(line, col, g.open.start.line - 1, g.open.start.col - b)
                    && g.span.start == g.open.start {
                    match layout_children(
                        g.open.start.line - 1,
                        g.open.start.col - b + 1,
                        g,
                        0,
                        b,
                        extent_end,
                    ) {
                        Some(cur) => {
                            if is_local(g.close.start, extent_end) && g.close.start.line >= 1
                                && g.close.start.col >= b && pos_le(
                                cur.0,
                                cur.1,
                                g.close.start.line - 1,
                                g.close.start.col - b,
                            ) {
                                Some((g.close.start.line - 1, g.close.start.col - b + 1))
                            } else {
                                None
                            }
                        },
                        None => None,
                    }
                } else {
                    None
                }
            }
        },
    }
}

/// The layout conditions for a group's children from child `i` on.
pub open spec fn layout_children(
    line: int,
    col: int,
    g: Group,
    i: int,
    b: int,
    extent_end: LineCol,
) -> Option<(int, int)>
    decreases g, g.children@.len() - i, 0int,
{
    if !(0 <= i < g.children@.len()) {
        Some((line, col))
    } else {
        match layout_token(line, col, g.children@[i], b, extent_end) {
            Some(cur) => layout_children(cur.0, cur.1, g, i + 1, b, extent_end),
            None => None,
        }
    }
}

/// The layout conditions for a token sequence from token `i` on.
pub open spec fn layout_tokens(
    line: int,
    col: int,
    ts: Seq<Token>,
    i: int,
    b: int,
    extent_end: LineCol,
) -> Option<(int, int)>
    decreases ts.len() - i when 0 <= i <= ts.len()
{
    if !(0 <= i < ts.len()) {
        Some((line, col))
    } else {
        match layout_token(line, col, ts[i], b, extent_end) {
            Some(cur) => layout_tokens(cur.0, cur.1, ts, i + 1, b, extent_end),
            None => None,
        }
    }
}

/// Laying out one token whose layout conditions hold never fails, moves the
/// cursor exactly to the predicted position, and leaves every new index
/// entry at its token's zero-based original location.
#[verifier::rlimit(100)]
pub proof fn lemma_layout_token(st: RecState, t: Token, b: int, extent_end: LineCol)
    requires
        cursor_ok(st),
        st.base == Some(b),
        layout_token(st.line, st.col, t, b, extent_end) is Some,
    ensures
        token_step(st, t, extent_end) matches Some(st2) && layout_token(
            st.line,
            st.col,
            t,
            b,
            extent_end,
        ) matches Some(cur) && {
            &&& cursor_ok(st2)
            &&& st2.base == Some(b)
            &&& st2.line == cur.0 && st2.col == cur.1
            &&& node_prefix(st.nodes, st2.nodes)
            &&& byte_prefix(st.out, st2.out)
            &&& forall|j: int|
                st.nodes.len() <= j < st2.nodes.len() ==> node_at_origin(
                    st2.out,
                    #[trigger] st2.nodes[j],
                    b,
                )
        },
    decreases t, 1int,
{
    match t {
        Token::Leaf(l) => {
            lemma_ws_step_cursor(st, l.span.start, extent_end, b);
            match ws_step(st, l.span.start, extent_end) {
                Some(st1) => {
                    lemma_text_step_cursor(st1, l.text@);
                    match token_step(st, t, extent_end) {
                        Some(st2) => {
                            assert(st.nodes =~= st2.nodes.subrange(0, st.nodes.len() as int));
                            assert(st.out =~= st2.out.subrange(0, st.out.len() as int));
                            assert(st2.out.take(st1.out.len() as int) =~= st1.out);
                            assert(line_at(st2.out, st1.out.len() as int) == st1.line);
                            assert(col_at(st2.out, st1.out.len() as int) == st1.col);
                        },
                        None => {},
                    }
                },
                None => {},
            }
        },
        Token::Group(g) => {
            if g.delim is Transparent {
                lemma_layout_children(st, g, 0, b, extent_end);
            } else {
                let st0 = RecState {
                    out: st.out,
                    base: st.base,
                    line: st.line,
                    col: st.col,
                    nodes: st.nodes.push(SpecNode { start: 0, end: 0, orig: g.span, width: 0 }),
                };
                lemma_ws_step_cursor(st0, g.open.start, extent_end, b);
                match ws_step(st0, g.open.start, extent_end) {
                    Some(st1) => {
                        let st2 = RecState {
                            out: st1.out.push(open_byte(g.delim)),
                            base: st1.base,
                            line: st1.line,
                            col: st1.col + 1,
                            nodes: st1.nodes,
                        };
                        lemma_push_non_nl(st1.out, open_byte(g.delim));
                        assert(cursor_ok(st2));
                        assert(byte_prefix(st1.out, st2.out)) by {
                            assert(st1.out =~= st2.out.subrange(0, st1.out.len() as int));
                        }
                        lemma_layout_children(st2, g, 0, b, extent_end);
                        match children_step(st2, g, 0, extent_end) {
                            Some(st3) => {
                                lemma_ws_step_cursor(st3, g.close.start, extent_end, b);
                                match ws_step(st3, g.close.start, extent_end) {
                                    Some(st4) => {
                                        let st5 = RecState {
                                            out: st4.out.push(close_byte(g.delim)),
                                            base: st4.base,
                                            line: st4.line,
                                            col: st4.col + 1,
                                            nodes: st4.nodes,
                                        };
                                        lemma_push_non_nl(st4.out, close_byte(g.delim));
                                        assert(cursor_ok(st5));
                                        assert(byte_prefix(st4.out, st5.out)) by {
                                            assert(st4.out =~= st5.out.subrange(
                                                0,
                                                st4.out.len() as int,
                                            ));
                                        }
                                        let k = st.nodes.len() as int;
                                        lemma_byte_prefix_trans(st1.out, st2.out, st3.out);
                                        lemma_byte_prefix_trans(st1.out, st3.out, st4.out);
                                        lemma_byte_prefix_trans(st1.out, st4.out, st5.out);
                                        lemma_byte_prefix_trans(st3.out, st4.out, st5.out);
                                        lemma_byte_prefix_trans(st.out, st1.out, st5.out) ;
                                        assert(st3.nodes =~= st4.nodes);
                                        assert forall|j: int| 0 <= j < k + 1 implies st3.nodes[j]
                                            == st0.nodes[j] by {
                                            assert(st2.nodes == st3.nodes.subrange(
                                                0,
                                                st2.nodes.len() as int,
                                            ));
                                            assert(st3.nodes.subrange(
                                                0,
                                                st2.nodes.len() as int,
                                            )[j] == st3.nodes[j]);
                                        }
                                        match token_step(st, t, extent_end) {
                                            Some(st2f) => {
                                                assert(st.nodes =~= st2f.nodes.subrange(0, k));
                                                assert(st.out =~= st2f.out.subrange(
                                                    0,
                                                    st.out.len() as int,
                                                ));
                                                assert(st2f.out == st5.out);
                                                lemma_pos_stable(
                                                    st1.out,
                                                    st5.out,
                                                    st1.out.len() as int,
                                                );
                                                assert(st5.out.take(st1.out.len() as int)
                                                    =~= st1.out);
                                                assert(line_at(st5.out, st1.out.len() as int)
                                                    == st1.line);
                                                assert(col_at(st5.out, st1.out.len() as int)
                                                    == st1.col);
                                                assert(node_at_origin(st2f.out, st2f.nodes[k], b));
                                                assert forall|j: int|
                                                    k < j < st2f.nodes.len() implies node_at_origin(
                                                    st2f.out,
                                                    #[trigger] st2f.nodes[j],
                                                    b,
                                                ) by {
                                                    assert(st2f.nodes[j] == st3.nodes[j]) by {
                                                        assert(st3.nodes =~= st4.nodes);
                                                    }
                                                    assert(node_at_origin(st3.out, st3.nodes[j], b));
                                                    lemma_pos_stable(
                                                        st3.out,
                                                        st5.out,
                                                        st3.nodes[j].start,
                                                    );
                                                }
                                            },
                                            None => {},
                                        }
                                    },
                                    None => {},
                                }
                            },
                            None => {},
                        }
                    },
                    None => {},
                }
            }
        },
    }
}

/// Laying out a group's children from child `i` on, under their layout
/// conditions, succeeds, tracks the cursor, and leaves every new index
/// entry at its token's zero-based original location.
pub proof fn lemma_layout_children(st: RecState, g: Group, i: int, b: int, extent_end: LineCol)
    requires
        cursor_ok(st),
        st.base == Some(b),
        layout_children(st.line, st.col, g, i, b, extent_end) is Some,
    ensures
        children_step(st, g, i, extent_end) matches Some(st2) && layout_children(
            st.line,
            st.col,
            g,
            i,
            b,
            extent_end,
        ) matches Some(cur) && {
            &&& cursor_ok(st2)
            &&& st2.base == Some(b)
            &&& st2.line == cur.0 && st2.col == cur.1
            &&& node_prefix(st.nodes, st2.nodes)
            &&& byte_prefix(st.out, st2.out)
            &&& forall|j: int|
                st.nodes.len() <= j < st2.nodes.len() ==> node_at_origin(
                    st2.out,
                    #[trigger] st2.nodes[j],
                    b,
                )
        },
    decreases g, g.children@.len() - i, 0int,
{
    if !(0 <= i < g.children@.len()) {
        assert(st.nodes =~= st.nodes.subrange(0, st.nodes.len() as int));
        assert(st.out =~= st.out.subrange(0, st.out.len() as int));
    } else {
        lemma_layout_token(st, g.children@[i], b, extent_end);
        match token_step(st, g.children@[i], extent_end) {
            Some(stm) => {
                lemma_layout_children(stm, g, i + 1, b, extent_end);
                match children_step(stm, g, i + 1, extent_end) {
                    Some(st2) => {
                        assert(st.nodes =~= st2.nodes.subrange(0, st.nodes.len() as int));
                        assert(st.out =~= st2.out.subrange(0, st.out.len() as int));
                        assert forall|j: int|
                            st.nodes.len() <= j < st2.nodes.len() implies node_at_origin(
                            st2.out,
                            #[trigger] st2.nodes[j],
                            b,
                        ) by {
                            if j < stm.nodes.len() {
                                assert(st2.nodes[j] == stm.nodes[j]) by {
                                    assert(stm.nodes == st2.nodes.subrange(
                                        0,
                                        stm.nodes.len() as int,
                                    ));
                                    assert(st2.nodes.subrange(0, stm.nodes.len() as int)[j]
                                        == st2.nodes[j]);
                                }
                                assert(node_at_origin(stm.out, stm.nodes[j], b));
                                lemma_pos_stable(stm.out, st2.out, stm.nodes[j].start);
                            }
                        }
                    },
                    None => {},
                }
            },
            None => {},
        }
    }
}

/// Laying out a token sequence from token `i` on, under its layout
/// conditions, succeeds, tracks the cursor, and leaves every new index
/// entry at its token's zero-based original location.
pub proof fn lemma_layout_tokens(st: RecState, ts: Seq<Token>, i: int, b: int, extent_end: LineCol)
    requires
        0 <= i <= ts.len(),
        cursor_ok(st),
        st.base == Some(b),
        layout_tokens(st.line, st.col, ts, i, b, extent_end) is Some,
    ensures
        tokens_step(st, ts, i, extent_end) matches Some(st2) && {
            &&& cursor_ok(st2)
            &&& st2.base == Some(b)
            &&& node_prefix(st.nodes, st2.nodes)
            &&& byte_prefix(st.out, st2.out)
            &&& forall|j: int|
                st.nodes.len() <= j < st2.nodes.len() ==> node_at_origin(
                    st2.out,
                    #[trigger] st2.nodes[j],
                    b,
                )
        },
    decreases ts.len() - i,
{
    if !(0 <= i < ts.len()) {
        assert(st.nodes =~= st.nodes.subrange(0, st.nodes.len() as int));
        assert(st.out =~= st.out.subrange(0, st.out.len() as int));
    } else {
        lemma_layout_token(st, ts[i], b, extent_end);
        match token_step(st, ts[i], extent_end) {
            Some(stm) => {
                lemma_layout_tokens(stm, ts, i + 1, b, extent_end);
                match tokens_step(stm, ts, i + 1, extent_end) {
                    Some(st2) => {
                        assert(st.nodes =~= st2.nodes.subrange(0, st.nodes.len() as int));
                        assert(st.out =~= st2.out.subrange(0, st.out.len() as int));
                        assert forall|j: int|
                            st.nodes.len() <= j < st2.nodes.len() implies node_at_origin(
                            st2.out,
                            #[trigger] st2.nodes[j],
                            b,
                        ) by {
                            if j < stm.nodes.len() {
                                assert(st2.nodes[j] == stm.nodes[j]) by {
                                    assert(stm.nodes == st2.nodes.subrange(
                                        0,
                                        stm.nodes.len() as int,
                                    ));
                                    assert(st2.nodes.subrange(0, stm.nodes.len() as int)[j]
                                        == st2.nodes[j]);
                                }
                                assert(node_at_origin(stm.out, stm.nodes[j], b));
                                lemma_pos_stable(stm.out, st2.out, stm.nodes[j].start);
                            }
                        }
                    },
                    None => {},
                }
            },
            None => {},
        }
    }
}

/// The first emission of a pass fixes the indentation base: a pass whose
/// base is still unset behaves exactly as one whose base was already fixed
/// at the first token's own column.
pub open spec fn head_fixes_base(t: Token, b: int, extent_end: LineCol) -> bool {
    match t {
        Token::Leaf(l) => l.span.start.col == b && is_local(l.span.start, extent_end),
        Token::Group(g) => !(g.delim is Transparent) && g.open.start.col == b && is_local(
            g.open.start,
            extent_end,
        ),
    }
}

pub proof fn lemma_first_token_fixes_base(st: RecState, t: Token, b: int, extent_end: LineCol)
    requires
        st.base is None,
        head_fixes_base(t, b, extent_end),
    ensures
        token_step(st, t, extent_end) == token_step(
            RecState { out: st.out, base: Some(b), line: st.line, col: st.col, nodes: st.nodes },
            t,
            extent_end,
        ),
{
    let stb = RecState { out: st.out, base: Some(b), line: st.line, col: st.col, nodes: st.nodes };
    match t {
        Token::Leaf(l) => {
            assert(ws_step(st, l.span.start, extent_end) == ws_step(
                stb,
                l.span.start,
                extent_end,
            )) by {
                match ws_step(st, l.span.start, extent_end) {
                    Some(x) => {
                        match ws_step(stb, l.span.start, extent_end) {
                            Some(y) => {
                                assert(x =~= y);
                            },
                            None => {},
                        }
                    },
                    None => {},
                }
            }
        },
        Token::Group(g) => {
            let st0 = RecState {
                out: st.out,
                base: st.base,
                line: st.line,
                col: st.col,
                nodes: st.nodes.push(SpecNode { start: 0, end: 0, orig: g.span, width: 0 }),
            };
            let st0b = RecState {
                out: stb.out,
                base: stb.base,
                line: stb.line,
                col: stb.col,
                nodes: stb.nodes.push(SpecNode { start: 0, end: 0, orig: g.span, width: 0 }),
            };
            assert(ws_step(st0, g.open.start, extent_end) == ws_step(
                st0b,
                g.open.start,
                extent_end,
            )) by {
                match ws_step(st0, g.open.start, extent_end) {
                    Some(x) => {
                        match ws_step(st0b, g.open.start, extent_end) {
                            Some(y) => {
                                assert(x =~= y);
                            },
                            None => {},
                        }
                    },
                    None => {},
                }
            }
        },
    }
}

/// The round-trip whitespace law: for a token tree of single-line leaves
/// whose locations are all local and laid out consistently, reconstruction
/// succeeds and every index entry's position in the reconstructed text,
/// read back as a line and column, equals the original location of its
/// token shifted to the zero-based origin: one line up, and left by the
/// indentation base `b`, the column of the first token.
pub proof fn lemma_round_trip_whitespace(ts: Seq<Token>, extent_end: LineCol, b: int)
    requires
        ts.len() > 0,
        head_fixes_base(ts[0], b, extent_end),
        layout_tokens(0, 0, ts, 0, b, extent_end) is Some,
    ensures
        reconstruct_spec(ts, extent_end) matches Some(st) && forall|j: int|
            0 <= j < st.nodes.len() ==> node_at_origin(st.out, #[trigger] st.nodes[j], b),
{
    let st0 = init_state();
    let stb = RecState { out: st0.out, base: Some(b), line: 0, col: 0, nodes: st0.nodes };
    lemma_first_token_fixes_base(st0, ts[0], b, extent_end);
    assert(tokens_step(st0, ts, 0, extent_end) == tokens_step(stb, ts, 0, extent_end)) by {
        assert(token_step(st0, ts[0], extent_end) == token_step(stb, ts[0], extent_end));
    }
    assert(cursor_ok(stb));
    lemma_layout_tokens(stb, ts, 0, b, extent_end);
}

} // verus!
