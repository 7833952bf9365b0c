use mdp::block::BlockNode;
use mdp::inline::InlineNode;
use mdp::renderer::{render_blocks, render_inline_nodes};

#[test]
fn renders_block_nodes_to_html() {
    let blocks = vec![
        BlockNode::Heading {
            level: 1,
            text: "Title".to_string(),
        },
        BlockNode::UnorderedList(vec!["Apples".to_string(), "Oranges".to_string()]),
    ];

    assert_eq!(
        render_blocks(&blocks),
        "<h1>Title</h1>\n<ul><li>Apples</li><li>Oranges</li></ul>"
    );
}

#[test]
fn renders_inline_nodes_to_html() {
    let nodes = vec![
        InlineNode::Text("Use ".to_string()),
        InlineNode::Code("cargo test".to_string()),
        InlineNode::Text(" and ".to_string()),
        InlineNode::Strong(vec![InlineNode::Text("learn".to_string())]),
    ];

    assert_eq!(
        render_inline_nodes(&nodes),
        "Use <code>cargo test</code> and <strong>learn</strong>"
    );
}

#[test]
fn escapes_text_and_attributes() {
    let nodes = vec![InlineNode::Link {
        label: vec![InlineNode::Text("<Rust>".to_string())],
        url: "https://example.com/?q=\"rust\"&page=1".to_string(),
    }];

    assert_eq!(
        render_inline_nodes(&nodes),
        "<a href=\"https://example.com/?q=&quot;rust&quot;&amp;page=1\">&lt;Rust&gt;</a>"
    );
}
