use typst_tokens::encoder::{flatten_tokens, traverse_highlight, SemanticToken};
use typst_tokens::tokens::{ToSemanticToken, TypstSemanticToken};
use typst_tokens::tree::{NodeKind, SyntaxNode};

fn leaf(kind: NodeKind, tag: TypstSemanticToken, text: &str) -> SyntaxNode {
    SyntaxNode { kind, tag, text: text.chars().collect(), children: Vec::new() }
}

fn inner(kind: NodeKind, tag: TypstSemanticToken, children: Vec<SyntaxNode>) -> SyntaxNode {
    SyntaxNode { kind, tag, text: Vec::new(), children }
}

fn encode(root: &SyntaxNode) -> Vec<SemanticToken> {
    let mut tokens = Vec::new();
    traverse_highlight(root, &mut tokens);
    tokens
}

fn tok(delta_line: u32, delta_start: u32, length: u32, token_type: u32) -> SemanticToken {
    SemanticToken { delta_line, delta_start, length, token_type, token_modifiers_bitset: 0 }
}

#[test]
fn heading_then_strong_on_next_line() {
    // `# Title\n*bold* word`: one Heading token for `# Title`, one Strong
    // token for `*bold*` at the start of the next line, nothing else.
    let root = inner(
        NodeKind::Other,
        TypstSemanticToken::NoCategory,
        vec![
            leaf(NodeKind::Other, TypstSemanticToken::Heading, "# Title"),
            leaf(NodeKind::Space, TypstSemanticToken::NoCategory, "\n"),
            inner(
                NodeKind::Other,
                TypstSemanticToken::Strong,
                vec![
                    leaf(NodeKind::Other, TypstSemanticToken::NoCategory, "*"),
                    leaf(NodeKind::Other, TypstSemanticToken::NoCategory, "bold"),
                    leaf(NodeKind::Other, TypstSemanticToken::NoCategory, "*"),
                ],
            ),
            leaf(NodeKind::Space, TypstSemanticToken::NoCategory, " "),
            leaf(NodeKind::Other, TypstSemanticToken::NoCategory, "word"),
        ],
    );
    let tokens = encode(&root);
    assert_eq!(tokens.len(), 2);
    assert_eq!(tokens[0], tok(0, 0, 7, 9));
    assert_eq!(tokens[1], tok(1, 0, 6, 3));
}

#[test]
fn wrapper_emits_one_token() {
    // An emphasis wrapper with three structural children is one token
    // spanning the whole node, never three.
    let root = inner(
        NodeKind::Other,
        TypstSemanticToken::Strong,
        vec![
            leaf(NodeKind::Other, TypstSemanticToken::Punctuation, "*"),
            leaf(NodeKind::Other, TypstSemanticToken::NoCategory, "bold"),
            leaf(NodeKind::Other, TypstSemanticToken::Punctuation, "*"),
        ],
    );
    let tokens = encode(&root);
    assert_eq!(tokens.len(), 1);
    assert_eq!(tokens[0], tok(0, 0, 6, 3));
}

#[test]
fn raw_block_one_token_per_line() {
    // A raw block of three lines yields three Raw tokens: the first with
    // the accumulated gap, the others with deltaLine=1, deltaStartChar=0.
    let root = inner(
        NodeKind::Other,
        TypstSemanticToken::NoCategory,
        vec![
            leaf(NodeKind::Raw, TypstSemanticToken::Raw, "a\nbb\nccc"),
            leaf(NodeKind::Other, TypstSemanticToken::Keyword, "k"),
        ],
    );
    let tokens = encode(&root);
    assert_eq!(tokens.len(), 4);
    assert_eq!(tokens[0], tok(0, 0, 1, 6));
    assert_eq!(tokens[1], tok(1, 0, 2, 6));
    assert_eq!(tokens[2], tok(1, 0, 3, 6));
    // The sibling after the block sits right after the last raw line.
    assert_eq!(tokens[3], tok(0, 3, 1, 14));
}

#[test]
fn unclassified_prose_yields_no_tokens() {
    let root = inner(
        NodeKind::Other,
        TypstSemanticToken::NoCategory,
        vec![
            leaf(NodeKind::Other, TypstSemanticToken::NoCategory, "Plain"),
            leaf(NodeKind::Space, TypstSemanticToken::NoCategory, " "),
            leaf(NodeKind::Other, TypstSemanticToken::NoCategory, "prose"),
            leaf(NodeKind::Parbreak, TypstSemanticToken::NoCategory, "\n\n"),
            leaf(NodeKind::Other, TypstSemanticToken::NoCategory, "here"),
        ],
    );
    assert_eq!(encode(&root).len(), 0);
}

#[test]
fn newline_space_resets_column_and_keeps_indent() {
    // A whitespace run with a newline and trailing indentation: the next
    // token's column delta is the indentation width on the new line.
    let root = inner(
        NodeKind::Other,
        TypstSemanticToken::NoCategory,
        vec![
            leaf(NodeKind::Other, TypstSemanticToken::NoCategory, "ab"),
            leaf(NodeKind::Space, TypstSemanticToken::NoCategory, "\n\n  "),
            leaf(NodeKind::Other, TypstSemanticToken::Keyword, "cd"),
        ],
    );
    let tokens = encode(&root);
    assert_eq!(tokens.len(), 1);
    assert_eq!(tokens[0], tok(2, 2, 2, 14));
}

#[test]
fn lengths_count_utf16_units() {
    // U+10348 takes two UTF-16 code units; lengths and columns follow.
    let root = inner(
        NodeKind::Other,
        TypstSemanticToken::NoCategory,
        vec![
            leaf(NodeKind::Other, TypstSemanticToken::Number, "\u{10348}\u{10348}"),
            leaf(NodeKind::Other, TypstSemanticToken::Keyword, "k"),
        ],
    );
    let tokens = encode(&root);
    assert_eq!(tokens.len(), 2);
    assert_eq!(tokens[0], tok(0, 0, 4, 16));
    assert_eq!(tokens[1], tok(0, 4, 1, 14));
}

#[test]
fn positions_never_regress() {
    // Running sums of the deltas of a mixed document are non-decreasing
    // and spans do not overlap.
    let root = inner(
        NodeKind::Other,
        TypstSemanticToken::NoCategory,
        vec![
            leaf(NodeKind::Other, TypstSemanticToken::Heading, "# T"),
            leaf(NodeKind::Space, TypstSemanticToken::NoCategory, "\n"),
            leaf(NodeKind::Raw, TypstSemanticToken::Raw, "x\ny"),
            leaf(NodeKind::Other, TypstSemanticToken::Keyword, "k"),
            leaf(NodeKind::Other, TypstSemanticToken::Operator, "+"),
        ],
    );
    let tokens = encode(&root);
    assert!(tokens.len() >= 4);
    let mut line = 0u64;
    let mut col = 0u64;
    let mut first = true;
    let mut prev_end = 0u64;
    let mut prev_line = 0u64;
    for t in &tokens {
        line += t.delta_line as u64;
        col = if t.delta_line > 0 || first { t.delta_start as u64 } else { col + t.delta_start as u64 };
        if !first {
            assert!(line > prev_line || col >= prev_end);
        }
        prev_line = line;
        prev_end = col + t.length as u64;
        first = false;
    }
}

#[test]
fn flatten_groups_of_five() {
    let root = inner(
        NodeKind::Other,
        TypstSemanticToken::NoCategory,
        vec![
            leaf(NodeKind::Other, TypstSemanticToken::Heading, "# T"),
            leaf(NodeKind::Space, TypstSemanticToken::NoCategory, "\n"),
            leaf(NodeKind::Other, TypstSemanticToken::Keyword, "set"),
        ],
    );
    let tokens = encode(&root);
    let flat = flatten_tokens(&tokens);
    assert_eq!(flat.len(), 5 * tokens.len());
    assert_eq!(flat, vec![0, 0, 3, 9, 0, 1, 0, 3, 14, 0]);
}

#[test]
fn checked_span_accepts_and_measures() {
    let node = inner(
        NodeKind::Other,
        TypstSemanticToken::Strong,
        vec![
            leaf(NodeKind::Other, TypstSemanticToken::NoCategory, "*"),
            leaf(NodeKind::Other, TypstSemanticToken::NoCategory, "hi"),
            leaf(NodeKind::Other, TypstSemanticToken::NoCategory, "*"),
        ],
    );
    assert_eq!(node.checked_span(), Some(4));
    assert_eq!(node.span_len(), 4);
}

#[test]
fn checked_span_rejects_inner_node_with_text() {
    let node = SyntaxNode {
        kind: NodeKind::Other,
        tag: TypstSemanticToken::NoCategory,
        text: "stray".chars().collect(),
        children: vec![leaf(NodeKind::Other, TypstSemanticToken::NoCategory, "x")],
    };
    assert_eq!(node.checked_span(), None);
}
