use vstd::prelude::*;
use crate::text::{utf16_len, utf16_len_checked};
use crate::tokens::TypstSemanticToken;

verus! {

/// The structural categories of a syntax node that the encoder tells
/// apart: whitespace runs and paragraph breaks (their embedded line breaks
/// feed the pending gap), raw text blocks (emitted line by line), and
/// everything else.
#[derive(Debug, Clone, Copy, PartialEq, Eq, Structural)]
pub enum NodeKind {
    Space,
    Parbreak,
    Raw,
    Other,
}

/// One node of the parsed document tree, annotated with the semantic
/// category its classifier assigned (`NoCategory` when none). A leaf
/// carries the literal text it spans; an inner node carries only its
/// ordered children.
pub struct SyntaxNode {
    pub kind: NodeKind,
    pub tag: TypstSemanticToken,
    pub text: Vec<char>,
    pub children: Vec<SyntaxNode>,
}

impl SyntaxNode {
    /// UTF-16 length of the source span this node covers: its own text for
    /// a leaf, the sum of its children's spans otherwise.
    pub open spec fn span16(self) -> nat
        decreases self, self.children@.len() + 1nat,
    {
        if self.children@.len() == 0 {
            utf16_len(self.text@)
        } else {
            SyntaxNode::span16_from(self, 0)
        }
    }

    /// Combined span of the children of `n` from index `i` on.
    pub open spec fn span16_from(n: SyntaxNode, i: int) -> nat
        decreases n, n.children@.len() - i,
    {
        if i < 0 || i >= n.children@.len() {
            0
        } else {
            n.children@[i].span16() + SyntaxNode::span16_from(n, i + 1)
        }
    }

    /// Well-formedness: an inner node carries no text of its own, every
    /// node's span fits the protocol's unsigned 32-bit coordinate space,
    /// and the children are themselves well formed.
    pub open spec fn wf(self) -> bool
        decreases self, self.children@.len() + 1nat,
    {
        &&& self.children@.len() > 0 ==> self.text@.len() == 0
        &&& self.span16() <= u32::MAX as nat
        &&& forall|i: int|
            0 <= i < self.children@.len() ==> (#[trigger] self.children@[i]).wf()
    }
}

impl SyntaxNode {
    /// Checks well-formedness and computes the span in one pass: `Some`
    /// with the span exactly when the node is well formed.
    pub fn checked_span(&self) -> (r: Option<u32>)
        ensures
            match r {
                Some(s) => self.wf() && s as nat == self.span16(),
                None => !self.wf(),
            },
        decreases *self,
    {
        if self.children.len() == 0 {
            return utf16_len_checked(&self.text);
        }
        if self.text.len() > 0 {
            return Option::None;
        }
        let mut acc: u64 = 0;
        let mut i: usize = 0;
        while i < self.children.len()
            invariant
                0 <= i <= self.children@.len(),
                self.children@.len() > 0,
                acc as nat + SyntaxNode::span16_from(*self, i as int) == SyntaxNode::span16_from(
                    *self,
                    0,
                ),
                acc <= u32::MAX as u64,
                forall|j: int| 0 <= j < i ==> (#[trigger] self.children@[j]).wf(),
            decreases self.children@.len() - i,
        {
            match self.children[i].checked_span() {
                Some(s) => {
                    acc = acc + s as u64;
                    i = i + 1;
                    if acc > u32::MAX as u64 {
                        return Option::None;
                    }
                },
                Option::None => {
                    return Option::None;
                },
            }
        }
        Some(acc as u32)
    }

    /// The span of a well-formed node, as a token length on the wire.
    pub fn span_len(&self) -> (r: u32)
        requires
            self.wf(),
        ensures
            r as nat == self.span16(),
        decreases *self,
    {
        if self.children.len() == 0 {
            match utf16_len_checked(&self.text) {
                Some(n) => n,
                Option::None => {
                    proof {
                        assert(false);
                    }
                    0
                },
            }
        } else {
            let mut acc: u32 = 0;
            let mut i: usize = 0;
            while i < self.children.len()
                invariant
                    self.wf(),
                    self.children@.len() > 0,
                    0 <= i <= self.children@.len(),
                    acc as nat + SyntaxNode::span16_from(*self, i as int) == SyntaxNode::span16_from(
                        *self,
                        0,
                    ),
                decreases self.children@.len() - i,
            {
                let s = self.children[i].span_len();
                proof {
                    assert(SyntaxNode::span16_from(*self, i as int) == self.children@[
                        i as int
                    ].span16() + SyntaxNode::span16_from(*self, i + 1));
                }
                acc = acc + s;
                i = i + 1;
            }
            acc
        }
    }
}

} // verus!
