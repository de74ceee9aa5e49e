use typst_tokens::tokens::{token_type_names, ToSemanticToken, TypstSemanticToken};

#[test]
fn legend_lists_every_category_in_index_order() {
    let names = token_type_names();
    assert_eq!(
        names,
        vec![
            "Comment",
            "Punctuation",
            "Escape",
            "Strong",
            "Emph",
            "Link",
            "Raw",
            "Label",
            "Ref",
            "Heading",
            "ListMarker",
            "ListTerm",
            "MathDelimiter",
            "MathOperator",
            "Keyword",
            "Operator",
            "Number",
            "String",
            "Function",
            "Interpolated",
            "Error",
            "None",
        ]
    );
}

#[test]
fn wire_indices_are_stable() {
    assert_eq!(TypstSemanticToken::Comment.to_idx(), 0);
    assert_eq!(TypstSemanticToken::Strong.to_idx(), 3);
    assert_eq!(TypstSemanticToken::Emph.to_idx(), 4);
    assert_eq!(TypstSemanticToken::Raw.to_idx(), 6);
    assert_eq!(TypstSemanticToken::Heading.to_idx(), 9);
    assert_eq!(TypstSemanticToken::Error.to_idx(), 20);
    assert_eq!(TypstSemanticToken::NoCategory.to_idx(), 21);
}

#[test]
fn names_match_the_legend_entry_at_the_index() {
    let names = token_type_names();
    let all = [
        TypstSemanticToken::Comment,
        TypstSemanticToken::Punctuation,
        TypstSemanticToken::Escape,
        TypstSemanticToken::Strong,
        TypstSemanticToken::Emph,
        TypstSemanticToken::Link,
        TypstSemanticToken::Raw,
        TypstSemanticToken::Label,
        TypstSemanticToken::Ref,
        TypstSemanticToken::Heading,
        TypstSemanticToken::ListMarker,
        TypstSemanticToken::ListTerm,
        TypstSemanticToken::MathDelimiter,
        TypstSemanticToken::MathOperator,
        TypstSemanticToken::Keyword,
        TypstSemanticToken::Operator,
        TypstSemanticToken::Number,
        TypstSemanticToken::String,
        TypstSemanticToken::Function,
        TypstSemanticToken::Interpolated,
        TypstSemanticToken::Error,
        TypstSemanticToken::NoCategory,
    ];
    for t in all {
        assert_eq!(names[t.to_idx() as usize], t.to_name());
    }
}
