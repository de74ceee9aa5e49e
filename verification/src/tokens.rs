use vstd::prelude::*;

verus! {

/// The closed, ordered set of semantic categories used for highlighting,
/// plus the distinguished "no category" value (`NoCategory`).
///
/// The declaration order is the wire-level legend order: a token's type
/// index on the wire is exactly `idx_spec` of its category, and the legend
/// advertised at startup lists `to_name` of every category in this order.
#[derive(Debug, Clone, Copy, PartialEq, Eq, Structural)]
pub enum TypstSemanticToken {
    Comment,
    Punctuation,
    Escape,
    Strong,
    Emph,
    Link,
    Raw,
    Label,
    Ref,
    Heading,
    ListMarker,
    ListTerm,
    MathDelimiter,
    MathOperator,
    Keyword,
    Operator,
    Number,
    String,
    Function,
    Interpolated,
    Error,
    NoCategory,
}

/// A category that can be written on the wire: a stable integer index into
/// the negotiated legend, and the name advertised in that legend.
pub trait ToSemanticToken {
    spec fn idx_spec(&self) -> int;

    spec fn name_spec(&self) -> Seq<char>;

    fn to_idx(&self) -> (r: u32)
        ensures
            r as int == self.idx_spec(),
    ;

    fn to_name(&self) -> (r: &'static str)
        ensures
            r@ == self.name_spec(),
    ;
}

impl ToSemanticToken for TypstSemanticToken {
    open spec fn idx_spec(&self) -> int {
        match *self {
            TypstSemanticToken::Comment => 0,
            TypstSemanticToken::Punctuation => 1,
            TypstSemanticToken::Escape => 2,
            TypstSemanticToken::Strong => 3,
            TypstSemanticToken::Emph => 4,
            TypstSemanticToken::Link => 5,
            TypstSemanticToken::Raw => 6,
            TypstSemanticToken::Label => 7,
            TypstSemanticToken::Ref => 8,
            TypstSemanticToken::Heading => 9,
            TypstSemanticToken::ListMarker => 10,
            TypstSemanticToken::ListTerm => 11,
            TypstSemanticToken::MathDelimiter => 12,
            TypstSemanticToken::MathOperator => 13,
            TypstSemanticToken::Keyword => 14,
            TypstSemanticToken::Operator => 15,
            TypstSemanticToken::Number => 16,
            TypstSemanticToken::String => 17,
            TypstSemanticToken::Function => 18,
            TypstSemanticToken::Interpolated => 19,
            TypstSemanticToken::Error => 20,
            TypstSemanticToken::NoCategory => 21,
        }
    }

    open spec fn name_spec(&self) -> Seq<char> {
        match *self {
            TypstSemanticToken::Comment => "Comment"@,
            TypstSemanticToken::Punctuation => "Punctuation"@,
            TypstSemanticToken::Escape => "Escape"@,
            TypstSemanticToken::Strong => "Strong"@,
            TypstSemanticToken::Emph => "Emph"@,
            TypstSemanticToken::Link => "Link"@,
            TypstSemanticToken::Raw => "Raw"@,
            TypstSemanticToken::Label => "Label"@,
            TypstSemanticToken::Ref => "Ref"@,
            TypstSemanticToken::Heading => "Heading"@,
            TypstSemanticToken::ListMarker => "ListMarker"@,
            TypstSemanticToken::ListTerm => "ListTerm"@,
            TypstSemanticToken::MathDelimiter => "MathDelimiter"@,
            TypstSemanticToken::MathOperator => "MathOperator"@,
            TypstSemanticToken::Keyword => "Keyword"@,
            TypstSemanticToken::Operator => "Operator"@,
            TypstSemanticToken::Number => "Number"@,
            TypstSemanticToken::String => "String"@,
            TypstSemanticToken::Function => "Function"@,
            TypstSemanticToken::Interpolated => "Interpolated"@,
            TypstSemanticToken::Error => "Error"@,
            TypstSemanticToken::NoCategory => "None"@,
        }
    }

    fn to_idx(&self) -> (r: u32) {
        match *self {
            TypstSemanticToken::Comment => 0,
            TypstSemanticToken::Punctuation => 1,
            TypstSemanticToken::Escape => 2,
            TypstSemanticToken::Strong => 3,
            TypstSemanticToken::Emph => 4,
            TypstSemanticToken::Link => 5,
            TypstSemanticToken::Raw => 6,
            TypstSemanticToken::Label => 7,
            TypstSemanticToken::Ref => 8,
            TypstSemanticToken::Heading => 9,
            TypstSemanticToken::ListMarker => 10,
            TypstSemanticToken::ListTerm => 11,
            TypstSemanticToken::MathDelimiter => 12,
            TypstSemanticToken::MathOperator => 13,
            TypstSemanticToken::Keyword => 14,
            TypstSemanticToken::Operator => 15,
            TypstSemanticToken::Number => 16,
            TypstSemanticToken::String => 17,
            TypstSemanticToken::Function => 18,
            TypstSemanticToken::Interpolated => 19,
            TypstSemanticToken::Error => 20,
            TypstSemanticToken::NoCategory => 21,
        }
    }

    fn to_name(&self) -> (r: &'static str) {
        match *self {
            TypstSemanticToken::Comment => "Comment",
            TypstSemanticToken::Punctuation => "Punctuation",
            TypstSemanticToken::Escape => "Escape",
            TypstSemanticToken::Strong => "Strong",
            TypstSemanticToken::Emph => "Emph",
            TypstSemanticToken::Link => "Link",
            TypstSemanticToken::Raw => "Raw",
            TypstSemanticToken::Label => "Label",
            TypstSemanticToken::Ref => "Ref",
            TypstSemanticToken::Heading => "Heading",
            TypstSemanticToken::ListMarker => "ListMarker",
            TypstSemanticToken::ListTerm => "ListTerm",
            TypstSemanticToken::MathDelimiter => "MathDelimiter",
            TypstSemanticToken::MathOperator => "MathOperator",
            TypstSemanticToken::Keyword => "Keyword",
            TypstSemanticToken::Operator => "Operator",
            TypstSemanticToken::Number => "Number",
            TypstSemanticToken::String => "String",
            TypstSemanticToken::Function => "Function",
            TypstSemanticToken::Interpolated => "Interpolated",
            TypstSemanticToken::Error => "Error",
            TypstSemanticToken::NoCategory => "None",
        }
    }
}

/// The legend advertised once per session: the name of every category, in
/// index order, so that position `t.idx_spec()` holds `t.name_spec()`.
pub fn token_type_names() -> (r: Vec<&'static str>)
    ensures
        r@.len() == 22,
        forall|t: TypstSemanticToken| 0 <= t.idx_spec() < 22 && (#[trigger] r@[t.idx_spec()])@
            == t.name_spec(),
{
    let mut r: Vec<&'static str> = Vec::new();
    r.push("Comment");
    r.push("Punctuation");
    r.push("Escape");
    r.push("Strong");
    r.push("Emph");
    r.push("Link");
    r.push("Raw");
    r.push("Label");
    r.push("Ref");
    r.push("Heading");
    r.push("ListMarker");
    r.push("ListTerm");
    r.push("MathDelimiter");
    r.push("MathOperator");
    r.push("Keyword");
    r.push("Operator");
    r.push("Number");
    r.push("String");
    r.push("Function");
    r.push("Interpolated");
    r.push("Error");
    r.push("None");
    proof {
        assert forall|t: TypstSemanticToken| 0 <= t.idx_spec() < 22 && (#[trigger] r@[t.idx_spec()])@
            == t.name_spec() by {
            match t {
                TypstSemanticToken::Comment => assert(r@[0]@ == "Comment"@),
                TypstSemanticToken::Punctuation => assert(r@[1]@ == "Punctuation"@),
                TypstSemanticToken::Escape => assert(r@[2]@ == "Escape"@),
                TypstSemanticToken::Strong => assert(r@[3]@ == "Strong"@),
                TypstSemanticToken::Emph => assert(r@[4]@ == "Emph"@),
                TypstSemanticToken::Link => assert(r@[5]@ == "Link"@),
                TypstSemanticToken::Raw => assert(r@[6]@ == "Raw"@),
                TypstSemanticToken::Label => assert(r@[7]@ == "Label"@),
                TypstSemanticToken::Ref => assert(r@[8]@ == "Ref"@),
                TypstSemanticToken::Heading => assert(r@[9]@ == "Heading"@),
                TypstSemanticToken::ListMarker => assert(r@[10]@ == "ListMarker"@),
                TypstSemanticToken::ListTerm => assert(r@[11]@ == "ListTerm"@),
                TypstSemanticToken::MathDelimiter => assert(r@[12]@ == "MathDelimiter"@),
                TypstSemanticToken::MathOperator => assert(r@[13]@ == "MathOperator"@),
                TypstSemanticToken::Keyword => assert(r@[14]@ == "Keyword"@),
                TypstSemanticToken::Operator => assert(r@[15]@ == "Operator"@),
                TypstSemanticToken::Number => assert(r@[16]@ == "Number"@),
                TypstSemanticToken::String => assert(r@[17]@ == "String"@),
                TypstSemanticToken::Function => assert(r@[18]@ == "Function"@),
                TypstSemanticToken::Interpolated => assert(r@[19]@ == "Interpolated"@),
                TypstSemanticToken::Error => assert(r@[20]@ == "Error"@),
                TypstSemanticToken::NoCategory => assert(r@[21]@ == "None"@),
            }
        }
    }
    r
}

} // verus!
