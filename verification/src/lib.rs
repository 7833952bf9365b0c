//! A small Markdown to HTML converter.
//!
//! `parse` turns Markdown text into HTML: the text is split into blocks
//! (headings, paragraphs, lists, block quotes and fenced code blocks), the
//! text of each block is parsed into inline nodes (code, emphasis, strong
//! emphasis and links), the nodes are rendered, and all HTML-sensitive
//! characters are escaped.
use vstd::prelude::*;

pub mod block;
pub mod inline;
pub mod renderer;
pub mod text;

use crate::block::{
    blocks_of, law_heading_line, law_ordered_item, law_plain_lines, lemma_blocks_of_empty,
    line_block, lines_of, ordered_item, parse_blocks, quote_line, unordered_item, Block,
};
use crate::inline::{is_inline_delimiter, law_plain_text_is_one_node};
use crate::renderer::{
    block_html, blocks_html, escaped, inline_html, law_heading_html, law_single_item_lists,
    lemma_text_node_html, render_blocks,
};
use crate::text::{lemma_find_none, occurs_at};

verus! {

/// The HTML of a Markdown document: its lines are split into blocks, the
/// blocks are rendered (see `block_html`), and their HTML is joined with
/// newlines.
pub open spec fn markdown_html(markdown: Seq<char>) -> Seq<char> {
    blocks_html(blocks_of(lines_of(markdown)))
}

/// An empty document gives empty HTML.
pub proof fn law_empty_document()
    ensures
        markdown_html(seq![]) == Seq::<char>::empty(),
{
    lemma_blocks_of_empty();
    assert(lines_of(seq![]) == Seq::<Seq<char>>::empty());
    assert(Seq::<Block>::empty().map_values(|b: Block| block_html(b)) == Seq::<Seq<char>>::empty());
}

/// Plain text is rendered as a single HTML paragraph: a one-line document
/// that is no fence, heading, list item or quote and has no inline syntax
/// becomes a `<p>` element holding the escaped text.
pub proof fn law_plain_text_paragraph(s: Seq<char>)
    requires
        s.len() > 0,
        forall|j: int| 0 <= j < s.len() ==> #[trigger] s[j] != '\n' && !is_inline_delimiter(s[j]),
        s != "```"@,
        unordered_item(s) is None,
        ordered_item(s) is None,
        quote_line(s) is None,
        line_block(s) == Block::Paragraph(s),
    ensures
        markdown_html(s) == "<p>"@ + escaped(s) + "</p>"@,
{
    reveal_strlit("\n");
    assert forall|j: int| !occurs_at(s, "\n"@, j) by {
        if occurs_at(s, "\n"@, j) {
            assert(s.subrange(j, j + 1)[0] == s[j]);
        }
    }
    lemma_find_none(s, "\n"@);
    assert(lines_of(s) == seq![s]);
    law_plain_lines(seq![s]);
    assert(seq![s].map_values(|l: Seq<char>| line_block(l)) == seq![Block::Paragraph(s)]);
    law_plain_text_is_one_node(s);
    lemma_text_node_html(s);
    assert(inline_html(s) == escaped(s));
    let parts = seq![Block::Paragraph(s)].map_values(|b: Block| block_html(b));
    assert(parts == seq![block_html(Block::Paragraph(s))]);
}

/// A document of one line that forms one block renders as that block.
proof fn lemma_one_block_document(s: Seq<char>, b: Block)
    requires
        s.len() > 0,
        forall|j: int| 0 <= j < s.len() ==> #[trigger] s[j] != '\n',
        blocks_of(seq![s]) == seq![b],
    ensures
        markdown_html(s) == block_html(b),
{
    reveal_strlit("\n");
    assert forall|j: int| !occurs_at(s, "\n"@, j) by {
        if occurs_at(s, "\n"@, j) {
            assert(s.subrange(j, j + 1)[0] == s[j]);
        }
    }
    lemma_find_none(s, "\n"@);
    assert(lines_of(s) == seq![s]);
    let parts = seq![b].map_values(|x: Block| block_html(x));
    assert(parts =~= seq![block_html(b)]);
}

/// A one-line document `# text`, `## text` or `### text` renders as an
/// `<h1>`, `<h2>` or `<h3>` element of the text, whatever the text holds.
pub proof fn law_heading_document(text: Seq<char>)
    requires
        forall|j: int| 0 <= j < text.len() ==> #[trigger] text[j] != '\n',
    ensures
        markdown_html("# "@ + text) == "<h1>"@ + inline_html(text) + "</h1>"@,
        markdown_html("## "@ + text) == "<h2>"@ + inline_html(text) + "</h2>"@,
        markdown_html("### "@ + text) == "<h3>"@ + inline_html(text) + "</h3>"@,
{
    reveal_strlit("# ");
    reveal_strlit("## ");
    reveal_strlit("### ");
    let none = Seq::<Seq<char>>::empty();
    law_heading_line(text, none);
    lemma_blocks_of_empty();
    law_heading_html(text);
    let l1 = "# "@ + text;
    let l2 = "## "@ + text;
    let l3 = "### "@ + text;
    assert(seq![l1] + none =~= seq![l1]);
    assert(seq![l2] + none =~= seq![l2]);
    assert(seq![l3] + none =~= seq![l3]);
    assert forall|j: int| 0 <= j < l1.len() implies #[trigger] l1[j] != '\n' by {
        if j >= 2 {
            assert(l1[j] == text[j - 2]);
        }
    }
    assert forall|j: int| 0 <= j < l2.len() implies #[trigger] l2[j] != '\n' by {
        if j >= 3 {
            assert(l2[j] == text[j - 3]);
        }
    }
    assert forall|j: int| 0 <= j < l3.len() implies #[trigger] l3[j] != '\n' by {
        if j >= 4 {
            assert(l3[j] == text[j - 4]);
        }
    }
    let b1 = Block::Heading { level: 1, text };
    let b2 = Block::Heading { level: 2, text };
    let b3 = Block::Heading { level: 3, text };
    assert(seq![b1] + Seq::<Block>::empty() =~= seq![b1]);
    assert(seq![b2] + Seq::<Block>::empty() =~= seq![b2]);
    assert(seq![b3] + Seq::<Block>::empty() =~= seq![b3]);
    lemma_one_block_document(l1, b1);
    lemma_one_block_document(l2, b2);
    lemma_one_block_document(l3, b3);
}

/// A one-line document `N. content`, where `N` is a number, renders as an
/// ordered list of one item holding everything after the first `. `,
/// whatever it holds.
pub proof fn law_ordered_item_document(number: Seq<char>, content: Seq<char>)
    requires
        number.len() > 0,
        forall|j: int| 0 <= j < number.len() ==> '0' <= #[trigger] number[j] <= '9',
        forall|j: int| 0 <= j < content.len() ==> #[trigger] content[j] != '\n',
    ensures
        markdown_html(number + ". "@ + content) == "<ol><li>"@ + inline_html(content)
            + "</li></ol>"@,
{
    reveal_strlit(". ");
    let none = Seq::<Seq<char>>::empty();
    let line = number + ". "@ + content;
    law_ordered_item(number, content, none);
    lemma_blocks_of_empty();
    law_single_item_lists(content);
    assert(seq![line] + none =~= seq![line]);
    let b = Block::OrderedList(seq![content]);
    assert(seq![b] + Seq::<Block>::empty() =~= seq![b]);
    let n = number.len() as int;
    assert forall|j: int| 0 <= j < line.len() implies #[trigger] line[j] != '\n' by {
        if j < n {
            assert(line[j] == number[j]);
        } else if j >= n + 2 {
            assert(line[j] == content[j - n - 2]);
        }
    }
    lemma_one_block_document(line, b);
}

/// Converts Markdown input into HTML output.
///
/// The input is split into blocks (see `blocks_of`), the blocks are rendered
/// (see `block_html`: inline text goes through the inline parser and the
/// renderer of inline nodes), and their HTML is joined with newlines. Empty
/// input gives empty output.
pub fn parse(markdown: &str) -> (html: String)
    ensures
        html@ == markdown_html(markdown@),
{
    if markdown.is_empty() {
        proof {
            assert(markdown@ == Seq::<char>::empty());
            law_empty_document();
        }
        return String::new();
    }
    let blocks = parse_blocks(markdown);
    render_blocks(blocks.as_slice())
}

} // verus!
