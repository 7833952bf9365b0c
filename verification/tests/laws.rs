use mdp::block::{parse_blocks, BlockNode};
use mdp::inline::{
    inline_token_len, parse_inline_nodes, render_inline_code_from_tokens, tokenize_inline,
    InlineNode, InlineToken,
};
use mdp::parse;
use mdp::renderer::{escape_html, escape_html_attribute, render_blocks};

fn chars(s: &str) -> Vec<char> {
    s.chars().collect()
}

fn strings(items: &[&str]) -> Vec<String> {
    items.iter().map(|s| s.to_string()).collect()
}

fn token_text(token: &InlineToken) -> String {
    match token {
        InlineToken::Text(text) => text.clone(),
        InlineToken::Backtick => "`".to_string(),
        InlineToken::Star => "*".to_string(),
        InlineToken::OpenBracket => "[".to_string(),
        InlineToken::CloseBracket => "]".to_string(),
        InlineToken::OpenParen => "(".to_string(),
        InlineToken::CloseParen => ")".to_string(),
        InlineToken::End => String::new(),
    }
}

#[test]
fn escaped_text_has_no_angle_brackets() {
    let escaped = escape_html(&chars("<b>a & b</b> > <"));
    assert_eq!(escaped, "&lt;b&gt;a &amp; b&lt;/b&gt; &gt; &lt;");
    assert!(!escaped.contains('<') && !escaped.contains('>'));
}

#[test]
fn escaped_attribute_has_no_quotes() {
    let escaped = escape_html_attribute(&chars("a\"b'<c>&"));
    assert_eq!(escaped, "a&quot;b'&lt;c&gt;&amp;");
    assert!(!escaped.contains('"') && !escaped.contains('<') && !escaped.contains('>'));
}

#[test]
fn escaping_reads_back_to_the_text() {
    let text = "&amp; <&lt;> x&gt;";
    let escaped = escape_html(&chars(text));
    assert_eq!(escaped, "&amp;amp; &lt;&amp;lt;&gt; x&amp;gt;");
    let read_back = escaped
        .replace("&lt;", "<")
        .replace("&gt;", ">")
        .replace("&amp;", "&");
    assert_eq!(read_back, text);
}

#[test]
fn tokens_reassemble_to_the_text() {
    let text = "a*b*[c](d)`e` ü ) (";
    let tokens = tokenize_inline(text);
    assert_eq!(tokens.last(), Some(&InlineToken::End));
    let joined: String = tokens.iter().map(token_text).collect();
    assert_eq!(joined, text);
    for token in &tokens[..tokens.len() - 1] {
        if let InlineToken::Text(t) = token {
            assert!(!t.is_empty());
            assert!(!t.contains(['`', '*', '[', ']', '(', ')']));
        }
        assert_ne!(token, &InlineToken::End);
    }
}

#[test]
fn plain_text_is_one_node() {
    assert_eq!(
        parse_inline_nodes("no syntax ] ) here"),
        vec![InlineNode::Text("no syntax ] ) here".to_string())]
    );
    assert_eq!(parse_inline_nodes(""), vec![]);
}

#[test]
fn fenced_code_block_keeps_its_lines() {
    assert_eq!(
        parse_blocks("```\n# a\n- b\n> c\n1. d\n```\ntail"),
        vec![
            BlockNode::CodeBlock(strings(&["# a", "- b", "> c", "1. d"])),
            BlockNode::Paragraph("tail".to_string()),
        ]
    );
}

#[test]
fn unterminated_fence_runs_to_the_end() {
    assert_eq!(
        parse_blocks("```\nx\n# y"),
        vec![BlockNode::CodeBlock(strings(&["x", "# y"]))]
    );
    assert_eq!(parse_blocks("```"), vec![BlockNode::CodeBlock(vec![])]);
}

#[test]
fn plain_lines_are_separate_blocks() {
    assert_eq!(
        parse_blocks("a\n## b\nc"),
        vec![
            BlockNode::Paragraph("a".to_string()),
            BlockNode::Heading {
                level: 2,
                text: "b".to_string()
            },
            BlockNode::Paragraph("c".to_string()),
        ]
    );
}

#[test]
fn consecutive_items_form_one_list() {
    assert_eq!(
        parse_blocks("- a\n- b\n1. c\n22. d\n> e\n> f\ng"),
        vec![
            BlockNode::UnorderedList(strings(&["a", "b"])),
            BlockNode::OrderedList(strings(&["c", "d"])),
            BlockNode::BlockQuote(strings(&["e", "f"])),
            BlockNode::Paragraph("g".to_string()),
        ]
    );
}

#[test]
fn empty_document_gives_empty_html() {
    assert_eq!(parse(""), "");
    assert_eq!(parse_blocks(""), vec![]);
}

#[test]
fn plain_text_becomes_one_paragraph() {
    assert_eq!(parse("Just text, 100% plain!"), "<p>Just text, 100% plain!</p>");
}

#[test]
fn parse_renders_the_parsed_blocks() {
    let text = "# T\nUse `a*b` and **c** or *d* [e](f?g=\"h\")\n- *i*\n> **j**";
    assert_eq!(parse(text), render_blocks(&parse_blocks(text)));
    assert_eq!(
        parse(text),
        "<h1>T</h1>\n<p>Use <code>a*b</code> and <strong>c</strong> or <em>d</em> \
         <a href=\"f?g=&quot;h&quot;\">e</a></p>\n<ul><li><em>i</em></li></ul>\n\
         <blockquote><p><strong>j</strong></p></blockquote>"
    );
}

#[test]
fn nested_spans_are_parsed() {
    let text = "**a `b`** [*c*](d) *`e`*";
    assert_eq!(
        parse(text),
        "<p><strong>a <code>b</code></strong> <a href=\"d\"><em>c</em></a> <em><code>e</code></em></p>"
    );
    assert_eq!(parse(text), render_blocks(&parse_blocks(text)));
}

fn source(nodes: &[InlineNode]) -> String {
    let mut out = String::new();
    for node in nodes {
        match node {
            InlineNode::Text(t) => out.push_str(t),
            InlineNode::Code(c) => out.push_str(&format!("`{c}`")),
            InlineNode::Emphasis(ns) => out.push_str(&format!("*{}*", source(ns))),
            InlineNode::Strong(ns) => out.push_str(&format!("**{}**", source(ns))),
            InlineNode::Link { label, url } => {
                out.push_str(&format!("[{}]({url})", source(label)))
            }
        }
    }
    out
}

#[test]
fn inline_nodes_write_back_to_the_text() {
    for text in [
        "Use `cargo` and **Rust** at [site](https://example.com)",
        "**a `b`** [*c*](d) *`e`* x",
        "unclosed `code and *em and **strong and [link](",
        "***a***",
        "Rustは*楽しい*",
        "",
    ] {
        assert_eq!(source(&parse_inline_nodes(text)), text);
    }
}

#[test]
fn lengths_are_counted_in_bytes() {
    assert_eq!(inline_token_len(&InlineToken::Text("楽しい".to_string())), 9);
    assert_eq!(inline_token_len(&InlineToken::Text("abc".to_string())), 3);
    assert_eq!(inline_token_len(&InlineToken::Star), 1);
    assert_eq!(inline_token_len(&InlineToken::End), 0);
    assert_eq!(
        render_inline_code_from_tokens("`楽しい` rest"),
        Some((InlineNode::Code("楽しい".to_string()), 11))
    );
    assert_eq!(render_inline_code_from_tokens("`open"), None);
    assert_eq!(render_inline_code_from_tokens("x`a`"), None);
}
