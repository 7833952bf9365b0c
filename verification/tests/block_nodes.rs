use mdp::block::{parse_blocks, BlockNode};

#[test]
fn block_parses_blocks_into_block_nodes() {
    assert_eq!(
        parse_blocks("# Title\n- Apples\n- Oranges\n``` \nnot a fence"),
        vec![
            BlockNode::Heading {
                level: 1,
                text: "Title".to_string()
            },
            BlockNode::UnorderedList(vec!["Apples".to_string(), "Oranges".to_string()]),
            BlockNode::Paragraph("``` ".to_string()),
            BlockNode::Paragraph("not a fence".to_string()),
        ]
    );
}

#[test]
fn lib_parses_blocks_into_block_nodes() {
    assert_eq!(
        parse_blocks("# Title\n- Apples\n- Oranges\n``` \nnot a fence"),
        vec![
            BlockNode::Heading {
                level: 1,
                text: "Title".to_string()
            },
            BlockNode::UnorderedList(vec!["Apples".to_string(), "Oranges".to_string()]),
            BlockNode::Paragraph("``` ".to_string()),
            BlockNode::Paragraph("not a fence".to_string()),
        ]
    );
}
