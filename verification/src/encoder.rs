use vstd::prelude::*;
use crate::text::{
    lemma_line_bounds, lemma_lines_nonempty, line_utf16_lengths, lines_of, utf16_len,
};
use crate::tokens::{ToSemanticToken, TypstSemanticToken};
use crate::tree::{NodeKind, SyntaxNode};

verus! {

/// One delta-encoded entry of the wire-level semantic token stream. All
/// positions are relative to the previous token's start (the first token is
/// relative to the document start); units are UTF-16 code units.
#[derive(Debug, Clone, Copy, PartialEq, Eq, Structural)]
pub struct SemanticToken {
    pub delta_line: u32,
    pub delta_start: u32,
    pub length: u32,
    pub token_type: u32,
    pub token_modifiers_bitset: u32,
}

/// The carry state threaded through the walk: the (line, column) gap
/// accumulated since the last emitted token.
#[derive(Debug, Clone, Copy, PartialEq, Eq, Structural)]
pub struct HighlightFeedForward {
    pub delta_line: u32,
    pub delta_start: u32,
}

/// Mathematical image of one emitted token, over unbounded integers. The
/// modifier bitset is carried so that the contracts pin all five wire
/// integers; the encoder always emits it as zero.
pub struct TokenModel {
    pub delta_line: int,
    pub delta_start: int,
    pub length: int,
    pub token_type: int,
    pub token_modifiers_bitset: int,
}

/// Mathematical image of the carry state.
pub struct GapModel {
    pub delta_line: int,
    pub delta_start: int,
}

impl View for SemanticToken {
    type V = TokenModel;

    open spec fn view(&self) -> TokenModel {
        TokenModel {
            delta_line: self.delta_line as int,
            delta_start: self.delta_start as int,
            length: self.length as int,
            token_type: self.token_type as int,
            token_modifiers_bitset: self.token_modifiers_bitset as int,
        }
    }
}

impl View for HighlightFeedForward {
    type V = GapModel;

    open spec fn view(&self) -> GapModel {
        GapModel { delta_line: self.delta_line as int, delta_start: self.delta_start as int }
    }
}

pub open spec fn token_views(s: Seq<SemanticToken>) -> Seq<TokenModel> {
    s.map_values(|t: SemanticToken| t@)
}

/// Wrapper categories: composite nodes so classified are emitted as one
/// atomic token instead of being decomposed into marker and content parts.
pub open spec fn is_wrapper(t: TypstSemanticToken) -> bool {
    t == TypstSemanticToken::Strong || t == TypstSemanticToken::Emph
}

/// A raw block whose text spans several lines; it is emitted line by line.
pub open spec fn raw_multiline(n: SyntaxNode) -> bool {
    n.kind == NodeKind::Raw && lines_of(n.text@).len() > 1
}

/// A whitespace run or paragraph break containing at least one line break;
/// it advances the pending line gap and resets the pending column gap.
pub open spec fn space_multiline(n: SyntaxNode) -> bool {
    (n.kind == NodeKind::Space || n.kind == NodeKind::Parbreak) && lines_of(n.text@).len() > 1
}

/// Tokens emitted for a node handled atomically (a leaf, or a wrapper
/// composite), given the pending gap.
pub open spec fn leaf_tokens(n: SyntaxNode, gap: GapModel) -> Seq<TokenModel> {
    let ls = lines_of(n.text@);
    if raw_multiline(n) {
        Seq::new(
            ls.len(),
            |i: int|
                TokenModel {
                    delta_line: if i == 0 {
                        gap.delta_line
                    } else {
                        1
                    },
                    delta_start: if i == 0 {
                        gap.delta_start
                    } else {
                        0
                    },
                    length: utf16_len(ls[i]) as int,
                    token_type: TypstSemanticToken::Raw.idx_spec(),
                    token_modifiers_bitset: 0,
                },
        )
    } else if n.tag == TypstSemanticToken::NoCategory {
        Seq::empty()
    } else {
        seq![
            TokenModel {
                delta_line: gap.delta_line,
                delta_start: gap.delta_start,
                length: n.span16() as int,
                token_type: n.tag.idx_spec(),
                token_modifiers_bitset: 0,
            },
        ]
    }
}

/// The pending gap after a node handled atomically.
pub open spec fn leaf_gap(n: SyntaxNode, gap: GapModel) -> GapModel {
    let ls = lines_of(n.text@);
    if raw_multiline(n) {
        GapModel { delta_line: 0, delta_start: utf16_len(ls.last()) as int }
    } else {
        let g = if n.tag == TypstSemanticToken::NoCategory {
            GapModel { delta_line: gap.delta_line, delta_start: gap.delta_start + n.span16() }
        } else {
            GapModel { delta_line: 0, delta_start: n.span16() as int }
        };
        if space_multiline(n) {
            GapModel {
                delta_line: g.delta_line + ls.len() - 1,
                delta_start: utf16_len(ls.last()) as int,
            }
        } else {
            g
        }
    }
}

/// The token stream a node contributes and the carry state it leaves
/// behind. Composite nodes recurse into their ordered children, except
/// wrapper nodes, which are emitted whole.
pub open spec fn encode_node(n: SyntaxNode, gap: GapModel) -> (Seq<TokenModel>, GapModel)
    decreases n, n.children@.len() + 1nat,
{
    if n.children@.len() > 0 && !is_wrapper(n.tag) {
        encode_from(n, 0, gap)
    } else {
        (leaf_tokens(n, gap), leaf_gap(n, gap))
    }
}

/// The combined contribution of the children of `n` from index `i` on.
pub open spec fn encode_from(n: SyntaxNode, i: int, gap: GapModel) -> (Seq<TokenModel>, GapModel)
    decreases n, n.children@.len() - i,
{
    if i < 0 || i >= n.children@.len() {
        (Seq::empty(), gap)
    } else {
        let (t0, g0) = encode_node(n.children@[i], gap);
        let (t1, g1) = encode_from(n, i + 1, g0);
        (t0 + t1, g1)
    }
}

/// The carry state a node leaves behind grows by at most the node's span,
/// in both coordinates, and never goes negative.
pub proof fn lemma_gap_growth(n: SyntaxNode, gap: GapModel)
    requires
        n.wf(),
        gap.delta_line >= 0,
        gap.delta_start >= 0,
    ensures
        ({
            let g = encode_node(n, gap).1;
            &&& 0 <= g.delta_line <= gap.delta_line + n.span16()
            &&& 0 <= g.delta_start <= gap.delta_start + n.span16()
        }),
    decreases n, n.children@.len() + 1nat,
{
    if n.children@.len() > 0 && !is_wrapper(n.tag) {
        lemma_gap_growth_from(n, 0, gap);
    } else {
        lemma_line_bounds(n.text@);
        if n.children@.len() > 0 {
            assert(n.span16() == SyntaxNode::span16_from(n, 0));
        } else {
            assert(n.span16() == utf16_len(n.text@));
        }
    }
}

pub proof fn lemma_gap_growth_from(n: SyntaxNode, i: int, gap: GapModel)
    requires
        n.wf(),
        gap.delta_line >= 0,
        gap.delta_start >= 0,
    ensures
        ({
            let g = encode_from(n, i, gap).1;
            &&& 0 <= g.delta_line <= gap.delta_line + SyntaxNode::span16_from(n, i)
            &&& 0 <= g.delta_start <= gap.delta_start + SyntaxNode::span16_from(n, i)
        }),
    decreases n, n.children@.len() - i,
{
    if 0 <= i < n.children@.len() {
        assert(n.children@[i].wf());
        lemma_gap_growth(n.children@[i], gap);
        let g0 = encode_node(n.children@[i], gap).1;
        lemma_gap_growth_from(n, i + 1, g0);
    }
}

/// The recursive walk: appends the node's tokens to `tokens` and returns
/// the carry state for the next sibling.
pub fn traverse_highlight_rec(
    node: &SyntaxNode,
    tokens: &mut Vec<SemanticToken>,
    ff: HighlightFeedForward,
) -> (out: HighlightFeedForward)
    requires
        node.wf(),
        ff.delta_line + node.span16() <= u32::MAX,
        ff.delta_start + node.span16() <= u32::MAX,
    ensures
        token_views(final(tokens)@) == token_views(old(tokens)@) + encode_node(*node, ff@).0,
        out@ == encode_node(*node, ff@).1,
    decreases *node,
{
    let n_children = node.children.len();
    let wrapper = matches!(node.tag, TypstSemanticToken::Strong | TypstSemanticToken::Emph);
    if n_children > 0 && !wrapper {
        let mut f = ff;
        let mut i: usize = 0;
        proof {
            assert(node.span16() == SyntaxNode::span16_from(*node, 0));
            assert(token_views(tokens@) + encode_from(*node, 0, f@).0 =~= token_views(tokens@)
                + encode_from(*node, 0, ff@).0);
        }
        while i < n_children
            invariant
                node.wf(),
                n_children == node.children@.len(),
                0 <= i <= n_children,
                f.delta_line + SyntaxNode::span16_from(*node, i as int) <= u32::MAX,
                f.delta_start + SyntaxNode::span16_from(*node, i as int) <= u32::MAX,
                token_views(tokens@) + encode_from(*node, i as int, f@).0 == token_views(
                    old(tokens)@,
                ) + encode_from(*node, 0, ff@).0,
                encode_from(*node, i as int, f@).1 == encode_from(*node, 0, ff@).1,
            decreases n_children - i,
        {
            proof {
                assert(node.children@[i as int].wf());
                assert(SyntaxNode::span16_from(*node, i as int) == node.children@[
                    i as int
                ].span16() + SyntaxNode::span16_from(*node, i + 1));
            }
            let ghost f_pre = f@;
            let ghost toks_pre = tokens@;
            let out = traverse_highlight_rec(&node.children[i], tokens, f);
            proof {
                lemma_gap_growth(node.children@[i as int], f_pre);
                let (t0, g0) = encode_node(node.children@[i as int], f_pre);
                assert(token_views(tokens@) =~= token_views(toks_pre) + t0);
                assert(token_views(toks_pre) + t0 + encode_from(*node, i + 1, g0).0
                    =~= token_views(toks_pre) + (t0 + encode_from(*node, i + 1, g0).0));
            }
            f = out;
            i = i + 1;
        }
        proof {
            assert(encode_from(*node, i as int, f@).0 =~= Seq::<TokenModel>::empty());
            assert(token_views(tokens@) + Seq::<TokenModel>::empty() =~= token_views(tokens@));
            assert(encode_from(*node, i as int, f@).1 == f@);
        }
        return f;
    }
    // Atomic handling: a leaf, or a wrapper composite emitted whole.
    proof {
        if n_children > 0 {
            assert(node.text@.len() == 0);
            assert(utf16_len(node.text@) == 0);
        } else {
            assert(node.span16() == utf16_len(node.text@));
        }
        lemma_line_bounds(node.text@);
    }
    let lens = line_utf16_lengths(&node.text);
    let is_raw_multi = matches!(node.kind, NodeKind::Raw) && lens.len() > 1;
    if is_raw_multi {
        let ghost ls = lines_of(node.text@);
        let raw_idx = TypstSemanticToken::Raw.to_idx();
        tokens.push(
            SemanticToken {
                delta_line: ff.delta_line,
                delta_start: ff.delta_start,
                length: lens[0],
                token_type: raw_idx,
                token_modifiers_bitset: 0,
            },
        );
        let ghost model = leaf_tokens(*node, ff@);
        proof {
            assert(token_views(tokens@) =~= token_views(old(tokens)@) + model.take(1));
        }
        let mut j: usize = 1;
        while j < lens.len()
            invariant
                node.wf(),
                lens@.len() == lines_of(node.text@).len(),
                forall|k: int|
                    0 <= k < lens@.len() ==> lens@[k] as nat == utf16_len(
                        #[trigger] lines_of(node.text@)[k],
                    ),
                raw_multiline(*node),
                model == leaf_tokens(*node, ff@),
                raw_idx as int == TypstSemanticToken::Raw.idx_spec(),
                1 <= j <= lens@.len(),
                token_views(tokens@) == token_views(old(tokens)@) + model.take(j as int),
            decreases lens@.len() - j,
        {
            tokens.push(
                SemanticToken {
                    delta_line: 1,
                    delta_start: 0,
                    length: lens[j],
                    token_type: raw_idx,
                    token_modifiers_bitset: 0,
                },
            );
            proof {
                assert(model.take(j + 1) =~= model.take(j as int).push(model[j as int]));
                assert(token_views(tokens@) =~= (token_views(old(tokens)@) + model.take(j as int)).push(
                    model[j as int],
                ));
                assert((token_views(old(tokens)@) + model.take(j as int)).push(model[j as int])
                    =~= token_views(old(tokens)@) + model.take(j + 1));
            }
            j = j + 1;
        }
        proof {
            assert(model.take(j as int) =~= model);
            lemma_lines_nonempty(node.text@);
            assert(ls.last() == ls[ls.len() - 1]);
        }
        return HighlightFeedForward { delta_line: 0, delta_start: lens[lens.len() - 1] };
    }
    let node_len = node.span_len();
    let tagged = !matches!(node.tag, TypstSemanticToken::NoCategory);
    let skip_line: u32;
    let skip_start: u32;
    if tagged {
        tokens.push(
            SemanticToken {
                delta_line: ff.delta_line,
                delta_start: ff.delta_start,
                length: node_len,
                token_type: node.tag.to_idx(),
                token_modifiers_bitset: 0,
            },
        );
        skip_line = 0;
        skip_start = node_len;
    } else {
        skip_line = ff.delta_line;
        skip_start = ff.delta_start + node_len;
    }
    proof {
        assert(token_views(tokens@) =~= token_views(old(tokens)@) + leaf_tokens(*node, ff@));
    }
    let is_space_multi = matches!(node.kind, NodeKind::Space | NodeKind::Parbreak) && lens.len()
        > 1;
    if is_space_multi {
        proof {
            assert(lens@.len() - 1 <= utf16_len(node.text@));
            lemma_lines_nonempty(node.text@);
        }
        let count = (lens.len() - 1) as u32;
        HighlightFeedForward { delta_line: skip_line + count, delta_start: lens[lens.len() - 1] }
    } else {
        HighlightFeedForward { delta_line: skip_line, delta_start: skip_start }
    }
}

/// Encodes a whole tree: every token the document contributes, starting
/// from a zero gap at the document start.
pub fn traverse_highlight(node: &SyntaxNode, tokens: &mut Vec<SemanticToken>)
    requires
        node.wf(),
    ensures
        token_views(final(tokens)@) == token_views(old(tokens)@) + encode_node(
            *node,
            GapModel { delta_line: 0, delta_start: 0 },
        ).0,
{
    let ff = HighlightFeedForward { delta_line: 0, delta_start: 0 };
    traverse_highlight_rec(node, tokens, ff);
}

/// Holds when the five entries at group `i` of `flat` spell out token `t`.
pub open spec fn group_ok(flat: Seq<u32>, t: TokenModel, i: int) -> bool {
    &&& flat[5 * i] as int == t.delta_line
    &&& flat[5 * i + 1] as int == t.delta_start
    &&& flat[5 * i + 2] as int == t.length
    &&& flat[5 * i + 3] as int == t.token_type
    &&& flat[5 * i + 4] as int == t.token_modifiers_bitset
}

/// Flattens the token list into the wire payload: five integers per token,
/// in order.
pub fn flatten_tokens(tokens: &Vec<SemanticToken>) -> (r: Vec<u32>)
    ensures
        r@.len() == 5 * tokens@.len(),
        forall|i: int| 0 <= i < tokens@.len() ==> group_ok(r@, #[trigger] token_views(tokens@)[i], i),
{
    let mut r: Vec<u32> = Vec::new();
    let mut i: usize = 0;
    while i < tokens.len()
        invariant
            0 <= i <= tokens@.len(),
            r@.len() == 5 * i,
            forall|k: int| 0 <= k < i ==> group_ok(r@, #[trigger] token_views(tokens@)[k], k),
        decreases tokens@.len() - i,
    {
        let t = tokens[i];
        r.push(t.delta_line);
        r.push(t.delta_start);
        r.push(t.length);
        r.push(t.token_type);
        r.push(t.token_modifiers_bitset);
        proof {
            assert(token_views(tokens@)[i as int] == t@);
            assert(t@.token_type == t.token_type as int);
        }
        i = i + 1;
    }
    r
}

/// The gap leaves room after a span of length `prev_len`: the next token
/// starts on a later line, or at or past that span's end.
pub open spec fn gap_ok(prev_len: int, g: GapModel) -> bool {
    g.delta_line > 0 || g.delta_start >= prev_len
}

/// Each token starts on a later line than its predecessor, or on the same
/// line at or past the predecessor's end; the first token relates the same
/// way to a preceding span of length `prev_len`.
pub open spec fn tokens_spaced(toks: Seq<TokenModel>, prev_len: int) -> bool {
    forall|i: int|
        0 <= i < toks.len() ==> (#[trigger] toks[i]).delta_line > 0 || toks[i].delta_start >= (
        if i == 0 {
            prev_len
        } else {
            toks[i - 1].length
        })
}

pub open spec fn tokens_nonneg(toks: Seq<TokenModel>) -> bool {
    forall|i: int|
        0 <= i < toks.len() ==> (#[trigger] toks[i]).delta_line >= 0 && toks[i].delta_start >= 0
            && toks[i].length >= 0
}

/// The length of the last emitted token, or of the span before the stream
/// when nothing was emitted.
pub open spec fn last_len(toks: Seq<TokenModel>, prev_len: int) -> int {
    if toks.len() > 0 {
        toks.last().length
    } else {
        prev_len
    }
}

proof fn lemma_spaced_concat(a: Seq<TokenModel>, b: Seq<TokenModel>, prev_len: int)
    requires
        tokens_spaced(a, prev_len),
        tokens_spaced(b, last_len(a, prev_len)),
        tokens_nonneg(a),
        tokens_nonneg(b),
    ensures
        tokens_spaced(a + b, prev_len),
        tokens_nonneg(a + b),
        last_len(a + b, prev_len) == last_len(b, last_len(a, prev_len)),
{
    let ab = a + b;
    assert forall|i: int|
        0 <= i < ab.len() implies (#[trigger] ab[i]).delta_line > 0 || ab[i].delta_start >= (
        if i == 0 {
            prev_len
        } else {
            ab[i - 1].length
        }) by {
        if i < a.len() {
            assert(ab[i] == a[i]);
            if i > 0 {
                assert(ab[i - 1] == a[i - 1]);
            }
        } else {
            assert(ab[i] == b[i - a.len()]);
            if i == a.len() {
                if a.len() > 0 {
                    assert(ab[i - 1] == a[a.len() - 1]);
                    assert(last_len(a, prev_len) == a.last().length);
                }
            } else {
                assert(ab[i - 1] == b[i - a.len() - 1]);
            }
        }
    }
    assert forall|i: int|
        0 <= i < ab.len() implies (#[trigger] ab[i]).delta_line >= 0 && ab[i].delta_start >= 0
            && ab[i].length >= 0 by {
        if i < a.len() {
            assert(ab[i] == a[i]);
        } else {
            assert(ab[i] == b[i - a.len()]);
        }
    }
    if b.len() > 0 {
        assert(ab.last() == b.last());
    } else {
        assert(ab =~= a);
    }
}

/// The stream a node contributes keeps the spacing discipline, and the
/// carry state it leaves keeps room after the last emitted token.
pub proof fn lemma_encode_spaced(n: SyntaxNode, gap: GapModel, prev_len: int)
    requires
        n.wf(),
        gap.delta_line >= 0,
        gap.delta_start >= 0,
        prev_len >= 0,
        gap_ok(prev_len, gap),
    ensures
        ({
            let (toks, g) = encode_node(n, gap);
            &&& tokens_spaced(toks, prev_len)
            &&& tokens_nonneg(toks)
            &&& g.delta_line >= 0
            &&& g.delta_start >= 0
            &&& gap_ok(last_len(toks, prev_len), g)
            &&& last_len(toks, prev_len) >= 0
        }),
    decreases n, n.children@.len() + 1nat,
{
    if n.children@.len() > 0 && !is_wrapper(n.tag) {
        lemma_encode_spaced_from(n, 0, gap, prev_len);
    } else {
        lemma_line_bounds(n.text@);
        let ls = lines_of(n.text@);
        let (toks, g) = encode_node(n, gap);
        if raw_multiline(n) {
            assert(toks[toks.len() - 1].length == utf16_len(ls[ls.len() - 1]) as int);
            assert(ls.last() == ls[ls.len() - 1]);
        } else if n.tag == TypstSemanticToken::NoCategory {
        } else {
            assert(toks[0].length == n.span16() as int);
        }
    }
}

pub proof fn lemma_encode_spaced_from(n: SyntaxNode, i: int, gap: GapModel, prev_len: int)
    requires
        n.wf(),
        gap.delta_line >= 0,
        gap.delta_start >= 0,
        prev_len >= 0,
        gap_ok(prev_len, gap),
    ensures
        ({
            let (toks, g) = encode_from(n, i, gap);
            &&& tokens_spaced(toks, prev_len)
            &&& tokens_nonneg(toks)
            &&& g.delta_line >= 0
            &&& g.delta_start >= 0
            &&& gap_ok(last_len(toks, prev_len), g)
            &&& last_len(toks, prev_len) >= 0
        }),
    decreases n, n.children@.len() - i,
{
    if 0 <= i < n.children@.len() {
        assert(n.children@[i].wf());
        lemma_encode_spaced(n.children@[i], gap, prev_len);
        let (t0, g0) = encode_node(n.children@[i], gap);
        lemma_encode_spaced_from(n, i + 1, g0, last_len(t0, prev_len));
        let (t1, g1) = encode_from(n, i + 1, g0);
        lemma_spaced_concat(t0, t1, prev_len);
    }
}

/// The absolute line of token `i`: the running sum of line deltas.
pub open spec fn abs_line(toks: Seq<TokenModel>, i: int) -> int
    decreases i,
{
    if i <= 0 {
        toks[0].delta_line
    } else {
        abs_line(toks, i - 1) + toks[i].delta_line
    }
}

/// The absolute start column of token `i`: its column delta, counted from
/// the start of its line when the line advanced, from the previous token's
/// start otherwise.
pub open spec fn abs_col(toks: Seq<TokenModel>, i: int) -> int
    decreases i,
{
    if i <= 0 {
        toks[0].delta_start
    } else if toks[i].delta_line > 0 {
        toks[i].delta_start
    } else {
        abs_col(toks, i - 1) + toks[i].delta_start
    }
}

/// Ordering law: over any well-formed tree, the emitted stream's implied
/// absolute positions never regress, and consecutive spans never overlap:
/// every token starts on a later line than its predecessor, or on the same
/// line at or past the predecessor's end.
pub proof fn lemma_encode_ordered(n: SyntaxNode, i: int)
    requires
        n.wf(),
        1 <= i < encode_node(n, (GapModel { delta_line: 0, delta_start: 0 })).0.len(),
    ensures
        ({
            let toks = encode_node(n, (GapModel { delta_line: 0, delta_start: 0 })).0;
            abs_line(toks, i - 1) < abs_line(toks, i) || (abs_line(toks, i - 1) == abs_line(
                toks,
                i,
            ) && abs_col(toks, i - 1) + toks[i - 1].length <= abs_col(toks, i))
        }),
{
    let gap = GapModel { delta_line: 0, delta_start: 0 };
    lemma_encode_spaced(n, gap, 0);
    let toks = encode_node(n, gap).0;
    assert(toks[i].delta_line > 0 || toks[i].delta_start >= toks[i - 1].length);
    assert(toks[i].delta_line >= 0);
}

/// Atomicity law: a wrapper node (a `Strong` or `Emph` composite) is
/// emitted as exactly one token covering its whole span, with the pending
/// gap as its deltas; its children are not visited.
pub proof fn lemma_wrapper_atomic(n: SyntaxNode, gap: GapModel)
    requires
        n.wf(),
        is_wrapper(n.tag),
        n.children@.len() > 0,
    ensures
        encode_node(n, gap).0 == seq![
            (TokenModel {
                delta_line: gap.delta_line,
                delta_start: gap.delta_start,
                length: n.span16() as int,
                token_type: n.tag.idx_spec(),
                token_modifiers_bitset: 0,
            }),
        ],
        encode_node(n, gap).1 == (GapModel { delta_line: 0, delta_start: n.span16() as int }),
{
    assert(n.text@.len() == 0);
    assert(lines_of(n.text@).len() == 1);
}

/// Raw-block law: a raw block of two or more lines contributes exactly one
/// token per line, all classified `Raw`: the first carries the accumulated
/// gap and its line's length, each later one line delta 1 and column delta
/// 0; the trailing gap is the last line's length on a zero line delta.
pub proof fn lemma_raw_multiline(n: SyntaxNode, gap: GapModel)
    requires
        n.kind == NodeKind::Raw,
        n.children@.len() == 0,
        lines_of(n.text@).len() > 1,
    ensures
        ({
            let (toks, g) = encode_node(n, gap);
            let ls = lines_of(n.text@);
            &&& toks.len() == ls.len()
            &&& toks[0] == (TokenModel {
                delta_line: gap.delta_line,
                delta_start: gap.delta_start,
                length: utf16_len(ls[0]) as int,
                token_type: TypstSemanticToken::Raw.idx_spec(),
                token_modifiers_bitset: 0,
            })
            &&& forall|i: int|
                1 <= i < toks.len() ==> #[trigger] toks[i] == (TokenModel {
                    delta_line: 1,
                    delta_start: 0,
                    length: utf16_len(ls[i]) as int,
                    token_type: TypstSemanticToken::Raw.idx_spec(),
                    token_modifiers_bitset: 0,
                })
            &&& g == (GapModel { delta_line: 0, delta_start: utf16_len(ls.last()) as int })
        }),
{
}

/// A tree none of whose nodes carries a category, with no multi-line raw
/// block among them.
pub open spec fn unclassified(n: SyntaxNode) -> bool
    decreases n, n.children@.len() + 1nat,
{
    &&& n.tag == TypstSemanticToken::NoCategory
    &&& !raw_multiline(n)
    &&& forall|i: int| 0 <= i < n.children@.len() ==> unclassified(#[trigger] n.children@[i])
}

/// Silence law: wholly unclassified content contributes no tokens at all,
/// whatever the pending gap.
pub proof fn lemma_unclassified_silent(n: SyntaxNode, gap: GapModel)
    requires
        unclassified(n),
    ensures
        encode_node(n, gap).0 == Seq::<TokenModel>::empty(),
    decreases n, n.children@.len() + 1nat,
{
    if n.children@.len() > 0 {
        lemma_unclassified_silent_from(n, 0, gap);
    }
}

proof fn lemma_unclassified_silent_from(n: SyntaxNode, i: int, gap: GapModel)
    requires
        unclassified(n),
    ensures
        encode_from(n, i, gap).0 == Seq::<TokenModel>::empty(),
    decreases n, n.children@.len() - i,
{
    if 0 <= i < n.children@.len() {
        assert(unclassified(n.children@[i]));
        lemma_unclassified_silent(n.children@[i], gap);
        let g0 = encode_node(n.children@[i], gap).1;
        lemma_unclassified_silent_from(n, i + 1, g0);
        assert(encode_node(n.children@[i], gap).0 + encode_from(n, i + 1, g0).0 =~= Seq::<
            TokenModel,
        >::empty());
    }
}

} // verus!
