use startime::content_map::{build, ReconstructError};
use startime::token::{Delim, Group, Leaf, LineCol, Span, Token};

fn lc(line: usize, col: usize) -> LineCol {
    LineCol { line, col }
}

fn span(l1: usize, c1: usize, l2: usize, c2: usize) -> Span {
    Span { start: lc(l1, c1), end: lc(l2, c2) }
}

fn leaf(text: &str, s: Span) -> Token {
    Token::Leaf(Leaf { text: text.as_bytes().to_vec(), span: s })
}

fn far_extent() -> LineCol {
    lc(1000, 0)
}

fn anchor() -> Span {
    span(1, 0, 1, 0)
}

#[test]
fn end_to_end_group() {
    let tokens = vec![Token::Group(Group {
        delim: Delim::Brace,
        open: span(1, 0, 1, 1),
        close: span(1, 4, 1, 5),
        span: span(1, 0, 1, 5),
        children: vec![leaf("a", span(1, 1, 1, 2)), leaf("b", span(1, 3, 1, 4))],
    })];
    let (text, tree) = build(&tokens, far_extent(), anchor()).unwrap();
    assert_eq!(text, b"{a b}".to_vec());
    assert_eq!(tree.node_count(), 3);
    assert_eq!(tree.starlark_offset_to_rust_span(3), span(1, 3, 1, 4));
    assert_eq!(tree.starlark_offset_to_rust_span(0), span(1, 0, 1, 5));
    assert_eq!(tree.starlark_offset_to_rust_span(1), span(1, 1, 1, 2));
}

#[test]
fn dedent_multiline_literal() {
    let raw = "\"\"\"\n        line one\n        line two\n        \"\"\"";
    let tokens = vec![leaf(raw, span(1, 8, 4, 11))];
    let (text, _tree) = build(&tokens, far_extent(), anchor()).unwrap();
    assert_eq!(
        String::from_utf8(text).unwrap(),
        "\"\"\"\nline one\nline two\n\"\"\""
    );
}

#[test]
fn malformed_indentation_short_continuation() {
    // The leaf sits at column 2, so every continuation line must carry at
    // least two leading spaces; "y" has none.
    let tokens = vec![leaf("x\ny", span(1, 2, 2, 1))];
    let r = build(&tokens, far_extent(), anchor());
    assert_eq!(r.unwrap_err(), ReconstructError::MalformedIndentation);
}

#[test]
fn malformed_indentation_left_of_base() {
    // The first token fixes the indentation base at column 4; a later token
    // at column 2 cannot be placed.
    let tokens = vec![leaf("a", span(1, 4, 1, 5)), leaf("b", span(2, 2, 2, 3))];
    let r = build(&tokens, far_extent(), anchor());
    assert_eq!(r.unwrap_err(), ReconstructError::MalformedIndentation);
}

#[test]
fn nearest_preceding_token_wins() {
    let tokens = vec![leaf("a", span(1, 0, 1, 1)), leaf("b", span(1, 2, 1, 3))];
    let (text, tree) = build(&tokens, far_extent(), anchor()).unwrap();
    assert_eq!(text, b"a b".to_vec());
    // The space between the two leaves resolves to the preceding leaf.
    assert_eq!(tree.starlark_offset_to_rust_span(1), span(1, 0, 1, 1));
    assert_eq!(tree.starlark_offset_to_rust_span(2), span(1, 2, 1, 3));
}

#[test]
fn subtree_skip_visits_two_entries() {
    let names = ["a", "b", "c", "d", "e", "f", "g", "h", "i", "j"];
    let mut children = Vec::new();
    for (k, name) in names.iter().enumerate() {
        children.push(leaf(name, span(1, 1 + k, 1, 2 + k)));
    }
    let tokens = vec![
        Token::Group(Group {
            delim: Delim::Brace,
            open: span(1, 0, 1, 1),
            close: span(1, 11, 1, 12),
            span: span(1, 0, 1, 12),
            children,
        }),
        leaf("B", span(1, 13, 1, 14)),
    ];
    let (text, tree) = build(&tokens, far_extent(), anchor()).unwrap();
    assert_eq!(text, b"{abcdefghij} B".to_vec());
    assert_eq!(tree.node_count(), 12);
    assert_eq!(tree.node_subtree_width(0), 11);
    // Every offset inside B's range resolves to B after visiting only the
    // group entry (skipped whole) and B itself: two comparisons, never the
    // ten children.
    let (sp, visited) = tree.lookup_visited(13);
    assert_eq!(sp, span(1, 13, 1, 14));
    assert_eq!(visited, 2);
}

#[test]
fn out_of_range_falls_back_to_anchor() {
    let tokens = vec![leaf("a", span(1, 0, 1, 1)), leaf("b", span(1, 2, 1, 3))];
    let (text, tree) = build(&tokens, far_extent(), anchor()).unwrap();
    // One past the end of the reconstructed text answers the anchor span.
    assert_eq!(tree.starlark_offset_to_rust_span(text.len()), anchor());
    assert_eq!(tree.starlark_offset_to_rust_span(text.len() + 100), anchor());
}

#[test]
fn pasted_token_gets_no_padding_but_own_entry() {
    // The extent ends at line 2: the second leaf's location lies outside it,
    // so no whitespace is synthesised before it, yet it still receives an
    // index entry of its own.
    let extent = lc(2, 0);
    let tokens = vec![leaf("a", span(1, 0, 1, 1)), leaf("b", span(10, 50, 10, 51))];
    let (text, tree) = build(&tokens, extent, anchor()).unwrap();
    assert_eq!(text, b"ab".to_vec());
    assert_eq!(tree.node_count(), 2);
    assert_eq!(tree.node_output_range(0), (0, 1));
    assert_eq!(tree.node_output_range(1), (1, 2));
    assert_eq!(tree.starlark_offset_to_rust_span(1), span(10, 50, 10, 51));
}

#[test]
fn first_token_pasted_single_line() {
    let extent = lc(1, 0);
    let tokens = vec![leaf("z", span(99, 99, 99, 100))];
    let (text, tree) = build(&tokens, extent, anchor()).unwrap();
    assert_eq!(text, b"z".to_vec());
    assert_eq!(tree.node_count(), 1);
    assert_eq!(tree.starlark_offset_to_rust_span(0), span(99, 99, 99, 100));
}

#[test]
fn relative_layout_is_reproduced() {
    let tokens = vec![
        leaf("ab", span(1, 0, 1, 2)),
        leaf("cd", span(2, 3, 2, 5)),
        leaf("e", span(4, 1, 4, 2)),
    ];
    let (text, tree) = build(&tokens, far_extent(), anchor()).unwrap();
    assert_eq!(String::from_utf8(text).unwrap(), "ab\n   cd\n\n e");
    assert_eq!(tree.starlark_offset_to_rust_span(6), span(2, 3, 2, 5));
    // The padding space before "e" belongs to the preceding token.
    assert_eq!(tree.starlark_offset_to_rust_span(10), span(2, 3, 2, 5));
    assert_eq!(tree.starlark_offset_to_rust_span(11), span(4, 1, 4, 2));
}

#[test]
fn shifted_origin_drops_common_indentation() {
    // The whole block sits at column 6; the reconstructed text starts at
    // column zero and keeps only the relative offsets.
    let tokens = vec![leaf("x", span(1, 6, 1, 7)), leaf("y", span(1, 9, 1, 10))];
    let (text, _tree) = build(&tokens, far_extent(), anchor()).unwrap();
    assert_eq!(text, b"x  y".to_vec());
}

#[test]
fn empty_input_yields_empty_text() {
    let tokens: Vec<Token> = Vec::new();
    let (text, tree) = build(&tokens, far_extent(), anchor()).unwrap();
    assert_eq!(text, Vec::<u8>::new());
    assert_eq!(tree.node_count(), 0);
    assert_eq!(tree.starlark_offset_to_rust_span(0), anchor());
}

#[test]
fn transparent_group_splices_children() {
    let tokens = vec![Token::Group(Group {
        delim: Delim::Transparent,
        open: span(1, 0, 1, 0),
        close: span(1, 0, 1, 0),
        span: span(1, 0, 1, 3),
        children: vec![leaf("a", span(1, 0, 1, 1)), leaf("b", span(1, 2, 1, 3))],
    })];
    let (text, tree) = build(&tokens, far_extent(), anchor()).unwrap();
    assert_eq!(text, b"a b".to_vec());
    // No entry for the transparent group itself: only its two children.
    assert_eq!(tree.node_count(), 2);
}

#[test]
fn nested_groups_resolve_to_deepest() {
    let tokens = vec![Token::Group(Group {
        delim: Delim::Paren,
        open: span(1, 0, 1, 1),
        close: span(1, 6, 1, 7),
        span: span(1, 0, 1, 7),
        children: vec![Token::Group(Group {
            delim: Delim::Bracket,
            open: span(1, 2, 1, 3),
            close: span(1, 4, 1, 5),
            span: span(1, 2, 1, 5),
            children: vec![leaf("a", span(1, 3, 1, 4))],
        })],
    })];
    let (text, tree) = build(&tokens, far_extent(), anchor()).unwrap();
    assert_eq!(String::from_utf8(text).unwrap(), "( [a] )");
    assert_eq!(tree.node_count(), 3);
    assert_eq!(tree.node_subtree_width(0), 3);
    assert_eq!(tree.node_subtree_width(1), 2);
    assert_eq!(tree.starlark_offset_to_rust_span(0), span(1, 0, 1, 7));
    assert_eq!(tree.starlark_offset_to_rust_span(2), span(1, 2, 1, 5));
    assert_eq!(tree.starlark_offset_to_rust_span(3), span(1, 3, 1, 4));
    // The closing bracket offset resolves to the nearest preceding entry.
    assert_eq!(tree.starlark_offset_to_rust_span(4), span(1, 3, 1, 4));
}
