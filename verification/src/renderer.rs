//! HTML output: escaping, rendering of inline nodes, and rendering of blocks.
use vstd::prelude::*;

use crate::block::{blocks_model, strings_model, Block, BlockNode};
use crate::inline::{
    inline_nodes, law_code_span, law_link, lemma_nodes_model_push, node_model, nodes_model,
    parse_inline_chars, text_node, Inline, InlineNode,
};
use crate::text::{chars_of, push_char, push_str, starts_with};

verus! {

broadcast use vstd::seq_lib::group_seq_properties;

// ---------------------------------------------------------------------------
// Escaping
// ---------------------------------------------------------------------------

/// The HTML text escape of one character: `&`, `<` and `>` become entities.
pub open spec fn escape_char(c: char) -> Seq<char> {
    if c == '&' {
        "&amp;"@
    } else if c == '<' {
        "&lt;"@
    } else if c == '>' {
        "&gt;"@
    } else {
        seq![c]
    }
}

/// The HTML attribute escape of one character: `&`, `"`, `<` and `>` become
/// entities.
pub open spec fn escape_attribute_char(c: char) -> Seq<char> {
    if c == '&' {
        "&amp;"@
    } else if c == '"' {
        "&quot;"@
    } else if c == '<' {
        "&lt;"@
    } else if c == '>' {
        "&gt;"@
    } else {
        seq![c]
    }
}

/// `s` escaped for HTML text, character by character.
pub open spec fn escaped(s: Seq<char>) -> Seq<char>
    decreases s.len(),
{
    if s.len() == 0 {
        seq![]
    } else {
        escaped(s.drop_last()) + escape_char(s.last())
    }
}

/// `s` escaped for an HTML attribute value, character by character.
pub open spec fn attribute_escaped(s: Seq<char>) -> Seq<char>
    decreases s.len(),
{
    if s.len() == 0 {
        seq![]
    } else {
        attribute_escaped(s.drop_last()) + escape_attribute_char(s.last())
    }
}

/// Escapes `&`, `<` and `>` for use in HTML text.
pub fn escape_html(text: &[char]) -> (escaped_text: String)
    ensures
        escaped_text@ == escaped(text@),
{
    let mut out = String::new();
    let mut i: usize = 0;
    while i < text.len()
        invariant
            i <= text@.len(),
            out@ == escaped(text@.take(i as int)),
        decreases text@.len() - i,
    {
        let c = text[i];
        match c {
            '&' => push_str(&mut out, "&amp;"),
            '<' => push_str(&mut out, "&lt;"),
            '>' => push_str(&mut out, "&gt;"),
            _ => push_char(&mut out, c),
        }
        assert(text@.take(i + 1).drop_last() == text@.take(i as int));
        i = i + 1;
    }
    assert(text@.take(text@.len() as int) == text@);
    out
}

/// Escapes `&`, `"`, `<` and `>` for use in an HTML attribute value.
pub fn escape_html_attribute(text: &[char]) -> (escaped_text: String)
    ensures
        escaped_text@ == attribute_escaped(text@),
{
    let mut out = String::new();
    let mut i: usize = 0;
    while i < text.len()
        invariant
            i <= text@.len(),
            out@ == attribute_escaped(text@.take(i as int)),
        decreases text@.len() - i,
    {
        let c = text[i];
        match c {
            '&' => push_str(&mut out, "&amp;"),
            '"' => push_str(&mut out, "&quot;"),
            '<' => push_str(&mut out, "&lt;"),
            '>' => push_str(&mut out, "&gt;"),
            _ => push_char(&mut out, c),
        }
        assert(text@.take(i + 1).drop_last() == text@.take(i as int));
        i = i + 1;
    }
    assert(text@.take(text@.len() as int) == text@);
    out
}

/// The text that escaped text stands for: `&amp;`, `&lt;` and `&gt;` are read
/// back as `&`, `<` and `>`, every other character as itself.
pub open spec fn unescaped(o: Seq<char>) -> Seq<char>
    decreases o.len(),
{
    if o.len() == 0 {
        seq![]
    } else {
        proof {
            reveal_strlit("&amp;");
            reveal_strlit("&lt;");
            reveal_strlit("&gt;");
        }
        if starts_with(o, "&amp;"@) {
            seq!['&'] + unescaped(o.skip(5))
        } else if starts_with(o, "&lt;"@) {
            seq!['<'] + unescaped(o.skip(4))
        } else if starts_with(o, "&gt;"@) {
            seq!['>'] + unescaped(o.skip(4))
        } else {
            seq![o[0]] + unescaped(o.skip(1))
        }
    }
}

/// Escaping a concatenation escapes each part.
pub proof fn lemma_escaped_concat(a: Seq<char>, b: Seq<char>)
    ensures
        escaped(a + b) == escaped(a) + escaped(b),
    decreases b.len(),
{
    if b.len() == 0 {
        assert(a + b == a);
    } else {
        lemma_escaped_concat(a, b.drop_last());
        assert((a + b).drop_last() == a + b.drop_last());
    }
}

/// Escaped text holds no `<` and no `>`, so no tag can come from it.
pub proof fn law_escaped_text_has_no_angle_brackets(s: Seq<char>)
    ensures
        forall|j: int| 0 <= j < escaped(s).len() ==> #[trigger] escaped(s)[j] != '<' && escaped(s)[j] != '>',
    decreases s.len(),
{
    reveal_strlit("&amp;");
    reveal_strlit("&lt;");
    reveal_strlit("&gt;");
    if s.len() > 0 {
        law_escaped_text_has_no_angle_brackets(s.drop_last());
        let a = escaped(s.drop_last());
        let e = escape_char(s.last());
        assert forall|j: int| 0 <= j < escaped(s).len() implies #[trigger] escaped(s)[j] != '<'
            && escaped(s)[j] != '>' by {
            if j >= a.len() {
                assert(escaped(s)[j] == e[j - a.len()]);
            } else {
                assert(escaped(s)[j] == a[j]);
            }
        }
    }
}

/// An escaped attribute value holds no `"`, `<` or `>`, so it can neither end
/// the attribute nor open a tag.
pub proof fn law_attribute_escaped_has_no_quotes(s: Seq<char>)
    ensures
        forall|j: int|
            0 <= j < attribute_escaped(s).len() ==> #[trigger] attribute_escaped(s)[j] != '"'
                && attribute_escaped(s)[j] != '<' && attribute_escaped(s)[j] != '>',
    decreases s.len(),
{
    reveal_strlit("&amp;");
    reveal_strlit("&quot;");
    reveal_strlit("&lt;");
    reveal_strlit("&gt;");
    if s.len() > 0 {
        law_attribute_escaped_has_no_quotes(s.drop_last());
        let a = attribute_escaped(s.drop_last());
        let e = escape_attribute_char(s.last());
        assert forall|j: int| 0 <= j < attribute_escaped(s).len() implies #[trigger] attribute_escaped(s)[j]
            != '"' && attribute_escaped(s)[j] != '<' && attribute_escaped(s)[j] != '>' by {
            if j >= a.len() {
                assert(attribute_escaped(s)[j] == e[j - a.len()]);
            } else {
                assert(attribute_escaped(s)[j] == a[j]);
            }
        }
    }
}

/// Escaping loses nothing: reading escaped text back gives the text that
/// was escaped.
pub proof fn law_unescaped_escaped(s: Seq<char>)
    ensures
        unescaped(escaped(s)) == s,
    decreases s.len(),
{
    reveal_strlit("&amp;");
    reveal_strlit("&lt;");
    reveal_strlit("&gt;");
    if s.len() > 0 {
        let c = s[0];
        let rest = s.drop_first();
        law_unescaped_escaped(rest);
        assert(s == seq![c] + rest);
        lemma_escaped_concat(seq![c], rest);
        assert(seq![c].drop_last() == Seq::<char>::empty());
        assert(seq![c].last() == c);
        assert(escaped(Seq::<char>::empty()) == Seq::<char>::empty());
        assert(Seq::<char>::empty() + escape_char(c) == escape_char(c));
        assert(escaped(seq![c]) == escape_char(c));
        let r = escaped(rest);
        let o = escape_char(c) + r;
        assert(escaped(s) == o);
        if c == '&' {
            assert(o.take(5) == "&amp;"@);
            assert(o.skip(5) == r);
        } else if c == '<' {
            assert(!starts_with(o, "&amp;"@)) by {
                if starts_with(o, "&amp;"@) {
                    assert(o.take(5)[1] == o[1]);
                }
            }
            assert(o.take(4) == "&lt;"@);
            assert(o.skip(4) == r);
        } else if c == '>' {
            assert(!starts_with(o, "&amp;"@)) by {
                if starts_with(o, "&amp;"@) {
                    assert(o.take(5)[1] == o[1]);
                }
            }
            assert(!starts_with(o, "&lt;"@)) by {
                if starts_with(o, "&lt;"@) {
                    assert(o.take(4)[1] == o[1]);
                }
            }
            assert(o.take(4) == "&gt;"@);
            assert(o.skip(4) == r);
        } else {
            assert(o[0] == c);
            assert(!starts_with(o, "&amp;"@)) by {
                if starts_with(o, "&amp;"@) {
                    assert(o.take(5)[0] == o[0]);
                }
            }
            assert(!starts_with(o, "&lt;"@)) by {
                if starts_with(o, "&lt;"@) {
                    assert(o.take(4)[0] == o[0]);
                }
            }
            assert(!starts_with(o, "&gt;"@)) by {
                if starts_with(o, "&gt;"@) {
                    assert(o.take(4)[0] == o[0]);
                }
            }
            assert(o.skip(1) == r);
        }
    }
}

/// Text without `&`, `<` and `>` is its own HTML escape: every other
/// character is kept as it is.
pub proof fn law_escaped_plain(s: Seq<char>)
    requires
        forall|j: int| 0 <= j < s.len() ==> #[trigger] s[j] != '&' && s[j] != '<' && s[j] != '>',
    ensures
        escaped(s) == s,
    decreases s.len(),
{
    if s.len() > 0 {
        let p = s.drop_last();
        assert forall|j: int| 0 <= j < p.len() implies #[trigger] p[j] != '&' && p[j] != '<' && p[j]
            != '>' by {
            assert(p[j] == s[j]);
        }
        law_escaped_plain(p);
        assert(s.last() == s[s.len() - 1]);
        assert(s =~= p + seq![s.last()]);
    }
}

/// Attribute escaping a concatenation escapes each part.
pub proof fn lemma_attribute_escaped_concat(a: Seq<char>, b: Seq<char>)
    ensures
        attribute_escaped(a + b) == attribute_escaped(a) + attribute_escaped(b),
    decreases b.len(),
{
    if b.len() == 0 {
        assert(a + b == a);
    } else {
        lemma_attribute_escaped_concat(a, b.drop_last());
        assert((a + b).drop_last() == a + b.drop_last());
    }
}

/// A value without `&`, `"`, `<` and `>` is its own attribute escape: every
/// other character, `#`, `/`, `:` and `?` among them, is kept as it is.
pub proof fn law_attribute_escaped_plain(s: Seq<char>)
    requires
        forall|j: int|
            0 <= j < s.len() ==> #[trigger] s[j] != '&' && s[j] != '"' && s[j] != '<' && s[j] != '>',
    ensures
        attribute_escaped(s) == s,
    decreases s.len(),
{
    if s.len() > 0 {
        let p = s.drop_last();
        assert forall|j: int| 0 <= j < p.len() implies #[trigger] p[j] != '&' && p[j] != '"' && p[j]
            != '<' && p[j] != '>' by {
            assert(p[j] == s[j]);
        }
        law_attribute_escaped_plain(p);
        assert(s.last() == s[s.len() - 1]);
        assert(s =~= p + seq![s.last()]);
    }
}

/// The value that an escaped attribute value stands for: `&amp;`, `&quot;`,
/// `&lt;` and `&gt;` are read back as `&`, `"`, `<` and `>`, every other
/// character as itself.
pub open spec fn attribute_unescaped(o: Seq<char>) -> Seq<char>
    decreases o.len(),
{
    if o.len() == 0 {
        seq![]
    } else {
        proof {
            reveal_strlit("&amp;");
            reveal_strlit("&quot;");
            reveal_strlit("&lt;");
            reveal_strlit("&gt;");
        }
        if starts_with(o, "&amp;"@) {
            seq!['&'] + attribute_unescaped(o.skip(5))
        } else if starts_with(o, "&quot;"@) {
            seq!['"'] + attribute_unescaped(o.skip(6))
        } else if starts_with(o, "&lt;"@) {
            seq!['<'] + attribute_unescaped(o.skip(4))
        } else if starts_with(o, "&gt;"@) {
            seq!['>'] + attribute_unescaped(o.skip(4))
        } else {
            seq![o[0]] + attribute_unescaped(o.skip(1))
        }
    }
}

/// Attribute escaping loses nothing: reading an escaped value back gives
/// the value that was escaped.
pub proof fn law_attribute_unescaped_escaped(s: Seq<char>)
    ensures
        attribute_unescaped(attribute_escaped(s)) == s,
    decreases s.len(),
{
    reveal_strlit("&amp;");
    reveal_strlit("&quot;");
    reveal_strlit("&lt;");
    reveal_strlit("&gt;");
    if s.len() > 0 {
        let c = s[0];
        let rest = s.drop_first();
        law_attribute_unescaped_escaped(rest);
        assert(s == seq![c] + rest);
        lemma_attribute_escaped_concat(seq![c], rest);
        assert(seq![c].drop_last() == Seq::<char>::empty());
        assert(seq![c].last() == c);
        assert(attribute_escaped(Seq::<char>::empty()) == Seq::<char>::empty());
        assert(Seq::<char>::empty() + escape_attribute_char(c) == escape_attribute_char(c));
        assert(attribute_escaped(seq![c]) == escape_attribute_char(c));
        let r = attribute_escaped(rest);
        let o = escape_attribute_char(c) + r;
        assert(attribute_escaped(s) == o);
        if c == '&' {
            assert(o.take(5) == "&amp;"@);
            assert(o.skip(5) == r);
        } else if c == '"' {
            assert(!starts_with(o, "&amp;"@)) by {
                if starts_with(o, "&amp;"@) {
                    assert(o.take(5)[1] == o[1]);
                }
            }
            assert(o.take(6) == "&quot;"@);
            assert(o.skip(6) == r);
        } else if c == '<' {
            assert(!starts_with(o, "&amp;"@)) by {
                if starts_with(o, "&amp;"@) {
                    assert(o.take(5)[1] == o[1]);
                }
            }
            assert(!starts_with(o, "&quot;"@)) by {
                if starts_with(o, "&quot;"@) {
                    assert(o.take(6)[1] == o[1]);
                }
            }
            assert(o.take(4) == "&lt;"@);
            assert(o.skip(4) == r);
        } else if c == '>' {
            assert(!starts_with(o, "&amp;"@)) by {
                if starts_with(o, "&amp;"@) {
                    assert(o.take(5)[1] == o[1]);
                }
            }
            assert(!starts_with(o, "&quot;"@)) by {
                if starts_with(o, "&quot;"@) {
                    assert(o.take(6)[1] == o[1]);
                }
            }
            assert(!starts_with(o, "&lt;"@)) by {
                if starts_with(o, "&lt;"@) {
                    assert(o.take(4)[1] == o[1]);
                }
            }
            assert(o.take(4) == "&gt;"@);
            assert(o.skip(4) == r);
        } else {
            assert(o[0] == c);
            assert(!starts_with(o, "&amp;"@)) by {
                if starts_with(o, "&amp;"@) {
                    assert(o.take(5)[0] == o[0]);
                }
            }
            assert(!starts_with(o, "&quot;"@)) by {
                if starts_with(o, "&quot;"@) {
                    assert(o.take(6)[0] == o[0]);
                }
            }
            assert(!starts_with(o, "&lt;"@)) by {
                if starts_with(o, "&lt;"@) {
                    assert(o.take(4)[0] == o[0]);
                }
            }
            assert(!starts_with(o, "&gt;"@)) by {
                if starts_with(o, "&gt;"@) {
                    assert(o.take(4)[0] == o[0]);
                }
            }
            assert(o.skip(1) == r);
        }
    }
}

// ---------------------------------------------------------------------------
// Inline nodes
// ---------------------------------------------------------------------------

/// The HTML of one inline node.
pub open spec fn node_html(n: Inline) -> Seq<char>
    decreases n,
{
    match n {
        Inline::Text(t) => escaped(t),
        Inline::Code(c) => "<code>"@ + escaped(c) + "</code>"@,
        Inline::Emphasis(children) => "<em>"@ + nodes_html(children) + "</em>"@,
        Inline::Strong(children) => "<strong>"@ + nodes_html(children) + "</strong>"@,
        Inline::Link { label, url } => "<a href=\""@ + attribute_escaped(url) + "\">"@ + nodes_html(
            label,
        ) + "</a>"@,
    }
}

/// The HTML of a sequence of inline nodes: the HTML of each, in order.
pub open spec fn nodes_html(ns: Seq<Inline>) -> Seq<char>
    decreases ns,
{
    if ns.len() == 0 {
        seq![]
    } else {
        nodes_html(ns.drop_last()) + node_html(ns.last())
    }
}

/// The HTML of a single node.
pub proof fn lemma_nodes_html_single(n: Inline)
    ensures
        nodes_html(seq![n]) == node_html(n),
{
    assert(seq![n].drop_last() == Seq::<Inline>::empty());
    assert(seq![n].last() == n);
    assert(nodes_html(Seq::<Inline>::empty()) == Seq::<char>::empty());
    assert(Seq::<char>::empty() + node_html(n) == node_html(n));
}

/// The HTML of a text node is the escaped text.
pub proof fn lemma_text_node_html(s: Seq<char>)
    ensures
        nodes_html(text_node(s)) == escaped(s),
{
    if s.len() > 0 {
        lemma_nodes_html_single(Inline::Text(s));
    }
}

/// Escapes the characters of a `String` for HTML text.
fn escape_string(text: &String) -> (escaped_text: String)
    ensures
        escaped_text@ == escaped(text@),
{
    let chars = chars_of(text.as_str());
    escape_html(chars.as_slice())
}

/// Renders inline nodes to HTML.
pub fn render_inline_nodes(nodes: &[InlineNode]) -> (html: String)
    ensures
        html@ == nodes_html(nodes_model(nodes@)),
    decreases nodes@,
{
    let mut rendered = String::new();
    let mut i: usize = 0;
    while i < nodes.len()
        invariant
            i <= nodes@.len(),
            rendered@ == nodes_html(nodes_model(nodes@.take(i as int))),
        decreases nodes@.len() - i,
    {
        let node = &nodes[i];
        let ghost before = rendered@;
        proof {
            assert(decreases_to!(nodes@ => nodes@[i as int]));
        }
        match node {
            InlineNode::Text(text) => {
                let t = escape_string(text);
                push_str(&mut rendered, t.as_str());
            },
            InlineNode::Code(code) => {
                push_str(&mut rendered, "<code>");
                let t = escape_string(code);
                push_str(&mut rendered, t.as_str());
                push_str(&mut rendered, "</code>");
            },
            InlineNode::Emphasis(children) => {
                push_str(&mut rendered, "<em>");
                let t = render_inline_nodes(children.as_slice());
                push_str(&mut rendered, t.as_str());
                push_str(&mut rendered, "</em>");
            },
            InlineNode::Strong(children) => {
                push_str(&mut rendered, "<strong>");
                let t = render_inline_nodes(children.as_slice());
                push_str(&mut rendered, t.as_str());
                push_str(&mut rendered, "</strong>");
            },
            InlineNode::Link { label, url } => {
                push_str(&mut rendered, "<a href=\"");
                let url_chars = chars_of(url.as_str());
                let t = escape_html_attribute(url_chars.as_slice());
                push_str(&mut rendered, t.as_str());
                push_str(&mut rendered, "\">");
                let t = render_inline_nodes(label.as_slice());
                push_str(&mut rendered, t.as_str());
                push_str(&mut rendered, "</a>");
            },
        }
        proof {
            assert(nodes@.take(i + 1) == nodes@.take(i as int).push(nodes@[i as int]));
            lemma_nodes_model_push(nodes@.take(i as int), nodes@[i as int]);
            let m = nodes_model(nodes@.take(i + 1));
            assert(m.drop_last() == nodes_model(nodes@.take(i as int)));
            assert(m.last() == node_model(nodes@[i as int]));
            assert(rendered@ == before + node_html(node_model(nodes@[i as int])));
        }
        i = i + 1;
    }
    assert(nodes@.take(nodes@.len() as int) == nodes@);
    rendered
}


/// The HTML of inline text: the text is parsed into inline nodes, which are
/// then rendered.
pub open spec fn inline_html(s: Seq<char>) -> Seq<char> {
    nodes_html(inline_nodes(s))
}

/// Renders inline text by parsing it into inline nodes first.
pub fn render_inline(text: &[char]) -> (html: String)
    ensures
        html@ == inline_html(text@),
{
    let nodes = parse_inline_chars(text);
    render_inline_nodes(nodes.as_slice())
}

// ---------------------------------------------------------------------------
// Blocks
// ---------------------------------------------------------------------------

/// The parts joined with `sep` between each two of them.
pub open spec fn join(parts: Seq<Seq<char>>, sep: Seq<char>) -> Seq<char>
    decreases parts.len(),
{
    if parts.len() == 0 {
        seq![]
    } else if parts.len() == 1 {
        parts[0]
    } else {
        join(parts.drop_last(), sep) + sep + parts.last()
    }
}

/// The decimal digit `d`.
pub open spec fn digit(d: nat) -> char {
    (48 + d) as char
}

/// The decimal notation of `n`.
pub open spec fn decimal(n: nat) -> Seq<char>
    decreases n,
{
    if n < 10 {
        seq![digit(n)]
    } else {
        decimal(n / 10).push(digit(n % 10))
    }
}

/// The HTML of a list item.
pub open spec fn list_item_html(item: Seq<char>) -> Seq<char> {
    "<li>"@ + inline_html(item) + "</li>"@
}

/// The HTML of a block.
///
/// A paragraph is a `<p>` element and a heading an `<hN>` element; list
/// items are `<li>` elements inside `<ul>` or `<ol>`; the lines of a block
/// quote are joined with newlines inside `<blockquote><p>`; the lines of a
/// code block are joined with newlines and escaped, without inline syntax,
/// inside `<pre><code>`. All other text is rendered with `inline_html`.
pub open spec fn block_html(b: Block) -> Seq<char> {
    match b {
        Block::Paragraph(text) => "<p>"@ + inline_html(text) + "</p>"@,
        Block::Heading { level, text } => "<h"@ + decimal(level as nat) + ">"@ + inline_html(text)
            + "</h"@ + decimal(level as nat) + ">"@,
        Block::UnorderedList(items) => "<ul>"@ + join(
            items.map_values(|item: Seq<char>| list_item_html(item)),
            seq![],
        ) + "</ul>"@,
        Block::OrderedList(items) => "<ol>"@ + join(
            items.map_values(|item: Seq<char>| list_item_html(item)),
            seq![],
        ) + "</ol>"@,
        Block::BlockQuote(lines) => "<blockquote><p>"@ + join(
            lines.map_values(|line: Seq<char>| inline_html(line)),
            "\n"@,
        ) + "</p></blockquote>"@,
        Block::CodeBlock(lines) => "<pre><code>"@ + escaped(join(lines, "\n"@)) + "</code></pre>"@,
    }
}

/// The HTML of a sequence of blocks: the HTML of each, joined with newlines.
pub open spec fn blocks_html(bs: Seq<Block>) -> Seq<char> {
    join(bs.map_values(|b: Block| block_html(b)), "\n"@)
}

/// One more part joined on.
pub proof fn lemma_join_push(parts: Seq<Seq<char>>, sep: Seq<char>, p: Seq<char>)
    ensures
        join(parts.push(p), sep) == if parts.len() == 0 {
            p
        } else {
            join(parts, sep) + sep + p
        },
{
    assert(parts.push(p).drop_last() == parts);
}

/// Joining no parts gives nothing; joining parts gives the first part, then,
/// when more follow, the separator and the others joined.
pub proof fn law_join(first: Seq<char>, rest: Seq<Seq<char>>, sep: Seq<char>)
    ensures
        join(Seq::<Seq<char>>::empty(), sep) == Seq::<char>::empty(),
        join(seq![first] + rest, sep) == if rest.len() == 0 {
            first
        } else {
            first + sep + join(rest, sep)
        },
    decreases rest.len(),
{
    let ps = seq![first] + rest;
    if rest.len() == 0 {
        assert(ps =~= seq![first]);
    } else {
        assert(ps.drop_last() =~= seq![first] + rest.drop_last());
        assert(ps.last() == rest.last());
        law_join(first, rest.drop_last(), sep);
        if rest.len() == 1 {
            assert(rest.drop_last() =~= Seq::<Seq<char>>::empty());
            assert(seq![first] + rest.drop_last() =~= seq![first]);
            assert(rest[0] == rest.last());
        } else {
            assert(first + sep + join(rest.drop_last(), sep) + sep + rest.last() =~= first + sep + (
            join(rest.drop_last(), sep) + sep + rest.last()));
        }
    }
}

/// A code block renders every one of its lines, empty ones included: the
/// lines joined with newlines and escaped, inside `<pre><code>`. Its first
/// line comes first, and a newline and the other lines follow when there
/// are any.
pub proof fn law_code_block_html(first: Seq<char>, rest: Seq<Seq<char>>)
    ensures
        block_html(Block::CodeBlock(seq![first] + rest)) == "<pre><code>"@ + escaped(
            join(seq![first] + rest, "\n"@),
        ) + "</code></pre>"@,
        block_html(Block::CodeBlock(seq![first] + rest)) == "<pre><code>"@ + escaped(first) + (
        if rest.len() == 0 {
            Seq::<char>::empty()
        } else {
            "\n"@ + escaped(join(rest, "\n"@))
        }) + "</code></pre>"@,
{
    reveal_strlit("\n");
    law_join(first, rest, "\n"@);
    law_escaped_plain("\n"@);
    if rest.len() > 0 {
        lemma_escaped_concat(first, "\n"@);
        lemma_escaped_concat(first + "\n"@, join(rest, "\n"@));
    } else {
        assert(escaped(first) + Seq::<char>::empty() == escaped(first));
    }
}

/// The decimal notation of the heading levels.
proof fn lemma_small_decimals()
    ensures
        decimal(1) == seq!['1'],
        decimal(2) == seq!['2'],
        decimal(3) == seq!['3'],
{
    assert(digit(1) == '1');
    assert(digit(2) == '2');
    assert(digit(3) == '3');
}

/// Headings of levels 1, 2 and 3 render as `<h1>`, `<h2>` and `<h3>`
/// elements of their inline text.
pub proof fn law_heading_html(text: Seq<char>)
    ensures
        block_html(Block::Heading { level: 1, text }) == "<h1>"@ + inline_html(text) + "</h1>"@,
        block_html(Block::Heading { level: 2, text }) == "<h2>"@ + inline_html(text) + "</h2>"@,
        block_html(Block::Heading { level: 3, text }) == "<h3>"@ + inline_html(text) + "</h3>"@,
{
    reveal_strlit("<h");
    reveal_strlit(">");
    reveal_strlit("</h");
    reveal_strlit("<h1>");
    reveal_strlit("</h1>");
    reveal_strlit("<h2>");
    reveal_strlit("</h2>");
    reveal_strlit("<h3>");
    reveal_strlit("</h3>");
    lemma_small_decimals();
    let t = inline_html(text);
    assert("<h"@ + seq!['1'] + ">"@ + t + "</h"@ + seq!['1'] + ">"@ =~= "<h1>"@ + t + "</h1>"@);
    assert("<h"@ + seq!['2'] + ">"@ + t + "</h"@ + seq!['2'] + ">"@ =~= "<h2>"@ + t + "</h2>"@);
    assert("<h"@ + seq!['3'] + ">"@ + t + "</h"@ + seq!['3'] + ">"@ =~= "<h3>"@ + t + "</h3>"@);
}

/// A list of one item renders as one `<li>` element of the item's inline
/// text, inside `<ul>` or `<ol>`.
pub proof fn law_single_item_lists(item: Seq<char>)
    ensures
        block_html(Block::UnorderedList(seq![item])) == "<ul><li>"@ + inline_html(item)
            + "</li></ul>"@,
        block_html(Block::OrderedList(seq![item])) == "<ol><li>"@ + inline_html(item)
            + "</li></ol>"@,
{
    reveal_strlit("<ul>");
    reveal_strlit("</ul>");
    reveal_strlit("<ol>");
    reveal_strlit("</ol>");
    reveal_strlit("<li>");
    reveal_strlit("</li>");
    reveal_strlit("<ul><li>");
    reveal_strlit("</li></ul>");
    reveal_strlit("<ol><li>");
    reveal_strlit("</li></ol>");
    let parts = seq![item].map_values(|i: Seq<char>| list_item_html(i));
    assert(parts =~= seq![list_item_html(item)]);
    let t = inline_html(item);
    assert("<ul>"@ + ("<li>"@ + t + "</li>"@) + "</ul>"@ =~= "<ul><li>"@ + t + "</li></ul>"@);
    assert("<ol>"@ + ("<li>"@ + t + "</li>"@) + "</ol>"@ =~= "<ol><li>"@ + t + "</li></ol>"@);
}

/// A list renders each of its items, in order, as an `<li>` element of the
/// item's inline text, inside `<ul>` or `<ol>`.
pub proof fn law_list_html(first: Seq<char>, rest: Seq<Seq<char>>)
    ensures
        block_html(Block::UnorderedList(seq![first] + rest)) == "<ul><li>"@ + inline_html(first)
            + "</li>"@ + join(
            rest.map_values(|i: Seq<char>| "<li>"@ + inline_html(i) + "</li>"@),
            seq![],
        ) + "</ul>"@,
        block_html(Block::OrderedList(seq![first] + rest)) == "<ol><li>"@ + inline_html(first)
            + "</li>"@ + join(
            rest.map_values(|i: Seq<char>| "<li>"@ + inline_html(i) + "</li>"@),
            seq![],
        ) + "</ol>"@,
{
    reveal_strlit("<ul>");
    reveal_strlit("</ul>");
    reveal_strlit("<ol>");
    reveal_strlit("</ol>");
    reveal_strlit("<li>");
    reveal_strlit("</li>");
    reveal_strlit("<ul><li>");
    reveal_strlit("<ol><li>");
    let items = seq![first] + rest;
    let tail = rest.map_values(|i: Seq<char>| "<li>"@ + inline_html(i) + "</li>"@);
    assert(rest.map_values(|i: Seq<char>| list_item_html(i)) =~= tail);
    assert(items.map_values(|i: Seq<char>| list_item_html(i)) =~= seq![list_item_html(first)]
        + tail);
    law_join(list_item_html(first), tail, seq![]);
    let f = inline_html(first);
    let j = join(tail, seq![]);
    assert(j.len() == 0 ==> j =~= Seq::<char>::empty());
    assert("<ul>"@ + (("<li>"@ + f + "</li>"@) + seq![] + j) + "</ul>"@ =~= "<ul><li>"@ + f
        + "</li>"@ + j + "</ul>"@);
    assert("<ol>"@ + (("<li>"@ + f + "</li>"@) + seq![] + j) + "</ol>"@ =~= "<ol><li>"@ + f
        + "</li>"@ + j + "</ol>"@);
    if rest.len() == 0 {
        assert(tail =~= Seq::<Seq<char>>::empty());
        assert("<ul>"@ + ("<li>"@ + f + "</li>"@) + "</ul>"@ =~= "<ul><li>"@ + f + "</li>"@ + j
            + "</ul>"@);
        assert("<ol>"@ + ("<li>"@ + f + "</li>"@) + "</ol>"@ =~= "<ol><li>"@ + f + "</li>"@ + j
            + "</ol>"@);
    }
}

/// A block quote renders its lines' inline text joined with newlines, in
/// order, inside `<blockquote><p>`.
pub proof fn law_block_quote_html(first: Seq<char>, rest: Seq<Seq<char>>)
    ensures
        block_html(Block::BlockQuote(seq![first] + rest)) == "<blockquote><p>"@ + inline_html(first)
            + (if rest.len() == 0 {
            Seq::<char>::empty()
        } else {
            "\n"@ + join(rest.map_values(|l: Seq<char>| inline_html(l)), "\n"@)
        }) + "</p></blockquote>"@,
{
    let lines = seq![first] + rest;
    let tail = rest.map_values(|l: Seq<char>| inline_html(l));
    assert(lines.map_values(|l: Seq<char>| inline_html(l)) =~= seq![inline_html(first)] + tail);
    law_join(inline_html(first), tail, "\n"@);
    if rest.len() == 0 {
        assert(inline_html(first) + Seq::<char>::empty() =~= inline_html(first));
    } else {
        assert(inline_html(first) + "\n"@ + join(tail, "\n"@) =~= inline_html(first) + ("\n"@
            + join(tail, "\n"@)));
    }
}

/// A document's blocks render one after another, each block's HTML
/// separated from the next by a newline.
pub proof fn law_blocks_html(first: Block, rest: Seq<Block>)
    ensures
        blocks_html(Seq::<Block>::empty()) == Seq::<char>::empty(),
        blocks_html(seq![first] + rest) == block_html(first) + (if rest.len() == 0 {
            Seq::<char>::empty()
        } else {
            "\n"@ + blocks_html(rest)
        }),
{
    let tail = rest.map_values(|b: Block| block_html(b));
    assert(Seq::<Block>::empty().map_values(|b: Block| block_html(b)) =~= Seq::<Seq<char>>::empty());
    assert((seq![first] + rest).map_values(|b: Block| block_html(b)) =~= seq![block_html(first)]
        + tail);
    law_join(block_html(first), tail, "\n"@);
    if rest.len() == 0 {
        assert(block_html(first) + Seq::<char>::empty() =~= block_html(first));
    } else {
        assert(block_html(first) + "\n"@ + join(tail, "\n"@) =~= block_html(first) + ("\n"@
            + join(tail, "\n"@)));
    }
}

/// The HTML of concatenated node sequences is the concatenated HTML.
pub proof fn lemma_nodes_html_concat(a: Seq<Inline>, b: Seq<Inline>)
    ensures
        nodes_html(a + b) == nodes_html(a) + nodes_html(b),
    decreases b.len(),
{
    if b.len() == 0 {
        assert(a + b == a);
    } else {
        lemma_nodes_html_concat(a, b.drop_last());
        assert((a + b).drop_last() == a + b.drop_last());
    }
}

/// An inline code span renders as a `<code>` element of exactly its escaped
/// characters, whatever they are, followed by the HTML of what comes after.
pub proof fn law_code_span_html(code: Seq<char>, rest: Seq<char>)
    requires
        forall|j: int| 0 <= j < code.len() ==> #[trigger] code[j] != '`',
    ensures
        inline_html("`"@ + code + "`"@ + rest) == "<code>"@ + escaped(code) + "</code>"@
            + inline_html(rest),
{
    law_code_span(code, rest);
    lemma_nodes_html_concat(seq![Inline::Code(code)], inline_nodes(rest));
    lemma_nodes_html_single(Inline::Code(code));
}

/// A link `[label](url)` renders as an `<a>` element whose `href` is the
/// url escaped for an attribute and whose content is the HTML of the label,
/// followed by the HTML of what comes after.
pub proof fn law_link_html(label: Seq<char>, url: Seq<char>, rest: Seq<char>)
    requires
        forall|j: int| 0 <= j < label.len() ==> #[trigger] label[j] != ']',
        forall|j: int| 0 <= j < url.len() ==> #[trigger] url[j] != ')',
    ensures
        inline_html("["@ + label + "]("@ + url + ")"@ + rest) == "<a href=\""@ + attribute_escaped(url)
            + "\">"@ + inline_html(label) + "</a>"@ + inline_html(rest),
{
    law_link(label, url, rest);
    let n = Inline::Link { label: inline_nodes(label), url };
    lemma_nodes_html_concat(seq![n], inline_nodes(rest));
    lemma_nodes_html_single(n);
}

/// Appends the decimal notation of `n`.
fn push_decimal(out: &mut String, n: u8)
    ensures
        final(out)@ == old(out)@ + decimal(n as nat),
{
    let ghost start = out@;
    if n >= 100 {
        push_char(out, (48u8 + n / 100) as char);
    }
    if n >= 10 {
        push_char(out, (48u8 + (n / 10) % 10) as char);
    }
    push_char(out, (48u8 + n % 10) as char);
    proof {
        let m = n as nat;
        if m >= 100 {
            assert(decimal(m / 100) == seq![digit(m / 100)]);
            assert((m / 10) / 10 == m / 100);
            assert(decimal(m / 10) == decimal(m / 100).push(digit((m / 10) % 10)));
        } else if m >= 10 {
            assert(decimal(m / 10) == seq![digit(m / 10)]);
        }
    }
}

/// Renders the text of a `String` as inline text.
fn render_text(text: &String) -> (html: String)
    ensures
        html@ == inline_html(text@),
{
    let chars = chars_of(text.as_str());
    render_inline(chars.as_slice())
}

/// Renders the items of a list as `<li>` elements.
fn render_list_items(items: &Vec<String>) -> (html: String)
    ensures
        html@ == join(
            strings_model(items@).map_values(|item: Seq<char>| list_item_html(item)),
            seq![],
        ),
{
    let ghost parts = strings_model(items@).map_values(|item: Seq<char>| list_item_html(item));
    let mut out = String::new();
    let mut i: usize = 0;
    while i < items.len()
        invariant
            i <= items@.len(),
            parts.len() == items@.len(),
            forall|j: int| 0 <= j < items@.len() ==> #[trigger] parts[j] == list_item_html(items@[j]@),
            out@ == join(parts.take(i as int), seq![]),
        decreases items@.len() - i,
    {
        let ghost before = out@;
        push_str(&mut out, "<li>");
        let t = render_text(&items[i]);
        push_str(&mut out, t.as_str());
        push_str(&mut out, "</li>");
        proof {
            assert(parts.take(i + 1) == parts.take(i as int).push(parts[i as int]));
            lemma_join_push(parts.take(i as int), seq![], parts[i as int]);
            assert(before + Seq::<char>::empty() == before);
        }
        i = i + 1;
    }
    assert(parts.take(items@.len() as int) == parts);
    out
}

/// Renders lines of text joined with newlines; each line is rendered as
/// inline text when `inline` holds, and kept as it is otherwise.
fn render_lines(lines: &Vec<String>, inline: bool) -> (html: String)
    ensures
        html@ == join(
            if inline {
                strings_model(lines@).map_values(|line: Seq<char>| inline_html(line))
            } else {
                strings_model(lines@)
            },
            "\n"@,
        ),
{
    let ghost parts = if inline {
        strings_model(lines@).map_values(|line: Seq<char>| inline_html(line))
    } else {
        strings_model(lines@)
    };
    let mut out = String::new();
    let mut i: usize = 0;
    while i < lines.len()
        invariant
            i <= lines@.len(),
            parts.len() == lines@.len(),
            forall|j: int| 0 <= j < lines@.len() ==> #[trigger] parts[j] == (if inline {
                inline_html(lines@[j]@)
            } else {
                lines@[j]@
            }),
            out@ == join(parts.take(i as int), "\n"@),
        decreases lines@.len() - i,
    {
        let ghost before = out@;
        if i > 0 {
            push_str(&mut out, "\n");
        }
        if inline {
            let t = render_text(&lines[i]);
            push_str(&mut out, t.as_str());
        } else {
            push_str(&mut out, lines[i].as_str());
        }
        proof {
            assert(parts.take(i + 1) == parts.take(i as int).push(parts[i as int]));
            lemma_join_push(parts.take(i as int), "\n"@, parts[i as int]);
            if i == 0 {
                assert(before == Seq::<char>::empty());
            }
        }
        i = i + 1;
    }
    assert(parts.take(lines@.len() as int) == parts);
    out
}

/// Renders a block to HTML (see `block_html`).
pub fn render_block(block: &BlockNode) -> (html: String)
    ensures
        html@ == block_html(block@),
{
    let mut out = String::new();
    match block {
        BlockNode::Paragraph(text) => {
            push_str(&mut out, "<p>");
            let t = render_text(text);
            push_str(&mut out, t.as_str());
            push_str(&mut out, "</p>");
        },
        BlockNode::Heading { level, text } => {
            push_str(&mut out, "<h");
            push_decimal(&mut out, *level);
            push_str(&mut out, ">");
            let t = render_text(text);
            push_str(&mut out, t.as_str());
            push_str(&mut out, "</h");
            push_decimal(&mut out, *level);
            push_str(&mut out, ">");
        },
        BlockNode::UnorderedList(items) => {
            push_str(&mut out, "<ul>");
            let t = render_list_items(items);
            push_str(&mut out, t.as_str());
            push_str(&mut out, "</ul>");
        },
        BlockNode::OrderedList(items) => {
            push_str(&mut out, "<ol>");
            let t = render_list_items(items);
            push_str(&mut out, t.as_str());
            push_str(&mut out, "</ol>");
        },
        BlockNode::BlockQuote(lines) => {
            push_str(&mut out, "<blockquote><p>");
            let t = render_lines(lines, true);
            push_str(&mut out, t.as_str());
            push_str(&mut out, "</p></blockquote>");
        },
        BlockNode::CodeBlock(lines) => {
            push_str(&mut out, "<pre><code>");
            let joined = render_lines(lines, false);
            let joined_chars = chars_of(joined.as_str());
            let t = escape_html(joined_chars.as_slice());
            push_str(&mut out, t.as_str());
            push_str(&mut out, "</code></pre>");
        },
    }
    assert(out@ == block_html(block@));
    out
}

/// Renders blocks to HTML, one after another, separated by newlines.
pub fn render_blocks(blocks: &[BlockNode]) -> (html: String)
    ensures
        html@ == blocks_html(blocks_model(blocks@)),
{
    let ghost parts = blocks_model(blocks@).map_values(|b: Block| block_html(b));
    let mut out = String::new();
    let mut i: usize = 0;
    while i < blocks.len()
        invariant
            i <= blocks@.len(),
            parts.len() == blocks@.len(),
            forall|j: int| 0 <= j < blocks@.len() ==> #[trigger] parts[j] == block_html(blocks@[j]@),
            out@ == join(parts.take(i as int), "\n"@),
        decreases blocks@.len() - i,
    {
        let ghost before = out@;
        if i > 0 {
            push_str(&mut out, "\n");
        }
        let t = render_block(&blocks[i]);
        push_str(&mut out, t.as_str());
        proof {
            assert(parts.take(i + 1) == parts.take(i as int).push(parts[i as int]));
            lemma_join_push(parts.take(i as int), "\n"@, parts[i as int]);
            if i == 0 {
                assert(before == Seq::<char>::empty());
            }
        }
        i = i + 1;
    }
    assert(parts.take(blocks@.len() as int) == parts);
    out
}

} // verus!
