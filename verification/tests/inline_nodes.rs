use mdp::inline::{parse_inline_nodes, tokenize_inline, InlineNode, InlineToken};

fn text(s: &str) -> InlineToken {
    InlineToken::Text(s.to_string())
}

fn delimiters_tokens() -> Vec<InlineToken> {
    vec![
        text("Use "),
        InlineToken::Backtick,
        text("code"),
        InlineToken::Backtick,
        text(" and "),
        InlineToken::OpenBracket,
        text("Rust"),
        InlineToken::CloseBracket,
        InlineToken::OpenParen,
        text("url"),
        InlineToken::CloseParen,
        InlineToken::End,
    ]
}

fn multibyte_tokens() -> Vec<InlineToken> {
    vec![
        text("Rustは"),
        InlineToken::Star,
        text("楽しい"),
        InlineToken::Star,
        InlineToken::End,
    ]
}

#[test]
fn inline_tokenizes_inline_syntax_delimiters() {
    assert_eq!(tokenize_inline("Use `code` and [Rust](url)"), delimiters_tokens());
}

#[test]
fn inline_tokenizes_plain_text_as_one_text_token() {
    assert_eq!(
        tokenize_inline("plain text"),
        vec![text("plain text"), InlineToken::End]
    );
}

#[test]
fn inline_tokenizes_multibyte_text_without_splitting_characters() {
    assert_eq!(tokenize_inline("Rustは*楽しい*"), multibyte_tokens());
}

#[test]
fn lib_tokenizes_inline_syntax_delimiters() {
    assert_eq!(tokenize_inline("Use `code` and [Rust](url)"), delimiters_tokens());
}

#[test]
fn lib_tokenizes_plain_text_as_one_text_token() {
    assert_eq!(
        tokenize_inline("plain text"),
        vec![text("plain text"), InlineToken::End]
    );
}

#[test]
fn lib_tokenizes_multibyte_text_without_splitting_characters() {
    assert_eq!(tokenize_inline("Rustは*楽しい*"), multibyte_tokens());
}

#[test]
fn parses_inline_nodes() {
    assert_eq!(
        parse_inline_nodes("Use `cargo` and **Rust** at [site](https://example.com)"),
        vec![
            InlineNode::Text("Use ".to_string()),
            InlineNode::Code("cargo".to_string()),
            InlineNode::Text(" and ".to_string()),
            InlineNode::Strong(vec![InlineNode::Text("Rust".to_string())]),
            InlineNode::Text(" at ".to_string()),
            InlineNode::Link {
                label: vec![InlineNode::Text("site".to_string())],
                url: "https://example.com".to_string(),
            },
        ]
    );
}
