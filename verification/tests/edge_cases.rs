use mdp::block::{parse_blocks, BlockNode};
use mdp::inline::{parse_inline_nodes, tokenize_inline, InlineNode, InlineToken};
use mdp::parse;
use mdp::renderer::render_blocks;

#[test]
fn crlf_line_endings_are_removed() {
    assert_eq!(parse("a\r\nb\r\n"), "<p>a</p>\n<p>b</p>");
}

#[test]
fn a_single_newline_is_one_empty_paragraph() {
    assert_eq!(parse("\n"), "<p></p>");
}

#[test]
fn a_bare_carriage_return_stays_in_the_line() {
    assert_eq!(parse("a\rb"), "<p>a\rb</p>");
}

#[test]
fn headings_need_a_space_and_at_most_three_hashes() {
    assert_eq!(parse("#NoSpace"), "<p>#NoSpace</p>");
    assert_eq!(parse("#### Four"), "<p>#### Four</p>");
    assert_eq!(parse("### `x`"), "<h3><code>x</code></h3>");
}

#[test]
fn ordered_items_need_digits_before_the_dot() {
    assert_eq!(
        parse("12. Twelve\n3. Three"),
        "<ol><li>Twelve</li><li>Three</li></ol>"
    );
    assert_eq!(parse("a. b"), "<p>a. b</p>");
    assert_eq!(parse(". b"), "<p>. b</p>");
    assert_eq!(parse("1.5. x"), "<p>1.5. x</p>");
}

#[test]
fn list_items_may_be_empty() {
    assert_eq!(parse("- "), "<ul><li></li></ul>");
    assert_eq!(parse("-item"), "<p>-item</p>");
}

#[test]
fn different_runs_make_different_blocks() {
    assert_eq!(
        parse("- a\n> q\n1. o"),
        "<ul><li>a</li></ul>\n<blockquote><p>q</p></blockquote>\n<ol><li>o</li></ol>"
    );
}

#[test]
fn unclosed_inline_syntax_stays_text() {
    assert_eq!(parse("Use `code"), "<p>Use `code</p>");
    assert_eq!(parse("**"), "<p>**</p>");
    assert_eq!(parse("[a](b"), "<p>[a](b</p>");
    assert_eq!(parse("[a]b"), "<p>[a]b</p>");
    assert_eq!(parse("x ] ) y"), "<p>x ] ) y</p>");
}

#[test]
fn inline_constructs_follow_each_other() {
    assert_eq!(
        parse("*a* and **b** and `c`"),
        "<p><em>a</em> and <strong>b</strong> and <code>c</code></p>"
    );
    assert_eq!(parse("***a***"), "<p><strong>*a</strong>*</p>");
}

#[test]
fn code_blocks_escape_and_keep_lines() {
    assert_eq!(parse("```\n```"), "<pre><code></code></pre>");
    assert_eq!(parse("```"), "<pre><code></code></pre>");
    assert_eq!(parse("```\na\n```\nb"), "<pre><code>a</code></pre>\n<p>b</p>");
    assert_eq!(parse("```\n<&>\n*x*\n```"), "<pre><code>&lt;&amp;&gt;\n*x*</code></pre>");
}

#[test]
fn block_quotes_render_inline_syntax() {
    assert_eq!(parse("> *a*"), "<blockquote><p><em>a</em></p></blockquote>");
}

#[test]
fn multibyte_text_is_kept_whole() {
    assert_eq!(parse("Rustは*楽しい*"), "<p>Rustは<em>楽しい</em></p>");
}

#[test]
fn heading_levels_are_written_in_decimal() {
    let blocks = vec![
        BlockNode::Heading {
            level: 0,
            text: "a".to_string(),
        },
        BlockNode::Heading {
            level: 12,
            text: "b".to_string(),
        },
        BlockNode::Heading {
            level: 255,
            text: "c".to_string(),
        },
    ];
    assert_eq!(render_blocks(&blocks), "<h0>a</h0>\n<h12>b</h12>\n<h255>c</h255>");
}

#[test]
fn tokenizer_edge_cases() {
    assert_eq!(tokenize_inline(""), vec![InlineToken::End]);
    assert_eq!(
        tokenize_inline("()"),
        vec![InlineToken::OpenParen, InlineToken::CloseParen, InlineToken::End]
    );
}

#[test]
fn inline_parser_edge_cases() {
    assert_eq!(
        parse_inline_nodes("*a*"),
        vec![InlineNode::Emphasis(vec![InlineNode::Text("a".to_string())])]
    );
    assert_eq!(
        parse_inline_nodes("x*"),
        vec![InlineNode::Text("x".to_string()), InlineNode::Text("*".to_string())]
    );
    assert_eq!(parse_inline_nodes("`"), vec![InlineNode::Text("`".to_string())]);
    assert_eq!(
        parse_inline_nodes("a[b"),
        vec![
            InlineNode::Text("a".to_string()),
            InlineNode::Text("[".to_string()),
            InlineNode::Text("b".to_string()),
        ]
    );
    assert_eq!(
        parse_inline_nodes("[](u)"),
        vec![InlineNode::Link {
            label: vec![],
            url: "u".to_string()
        }]
    );
}

#[test]
fn block_parser_keeps_text_after_prefixes() {
    assert_eq!(
        parse_blocks("> \n-  x"),
        vec![
            BlockNode::BlockQuote(vec![String::new()]),
            BlockNode::UnorderedList(vec![" x".to_string()]),
        ]
    );
}
