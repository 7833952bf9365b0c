//! Block structure: splitting Markdown into lines and lines into blocks
//! (headings, paragraphs, lists, block quotes and fenced code blocks).
use vstd::prelude::*;

use crate::text::{
    chars_of, find, find_str, has_prefix, lemma_find, lemma_find_after, lemma_find_none,
    occurs_at, starts_with, string_of,
};

verus! {

broadcast use vstd::seq_lib::group_seq_properties;

// ---------------------------------------------------------------------------
// Lines
// ---------------------------------------------------------------------------

/// A line without the carriage return of a `\r\n` ending.
pub open spec fn strip_cr(l: Seq<char>) -> Seq<char> {
    if l.len() > 0 && l.last() == '\r' {
        l.drop_last()
    } else {
        l
    }
}

/// The lines of `s` as `str::lines` yields them: split at `\n` or `\r\n`,
/// without the line endings; a final line ending adds no empty line, and a
/// `\r` that does not end a line stays in it.
pub open spec fn lines_of(s: Seq<char>) -> Seq<Seq<char>>
    decreases s.len(),
{
    if s.len() == 0 {
        seq![]
    } else {
        match find(s, "\n"@) {
            Some(i) => {
                proof {
                    reveal_strlit("\n");
                    lemma_find(s, "\n"@);
                }
                seq![strip_cr(s.take(i))] + lines_of(s.skip(i + 1))
            },
            None => seq![s],
        }
    }
}

/// The models of a sequence of character vectors.
pub open spec fn char_lines(v: Seq<Vec<char>>) -> Seq<Seq<char>> {
    v.map_values(|l: Vec<char>| l@)
}

/// Splits text into lines (see `lines_of`).
pub(crate) fn lines(text: &[char]) -> (ls: Vec<Vec<char>>)
    ensures
        char_lines(ls@) == lines_of(text@),
{
    let n = text.len();
    let mut ls: Vec<Vec<char>> = Vec::new();
    let mut pos: usize = 0;
    proof {
        reveal_strlit("\n");
        assert(text@.skip(0) == text@);
    }
    while pos < n
        invariant
            n == text@.len(),
            pos <= n,
            char_lines(ls@) + lines_of(text@.skip(pos as int)) == lines_of(text@),
            "\n"@ == seq!['\n'],
        decreases n - pos,
    {
        let rest = &text[pos..n];
        let ghost r = rest@;
        assert(r == text@.skip(pos as int));
        let ghost before = char_lines(ls@);
        match find_str(rest, "\n") {
            Some(i) => {
                proof {
                    lemma_find(r, "\n"@);
                }
                let mut end = i;
                if end > 0 && rest[end - 1] == '\r' {
                    end = end - 1;
                }
                let mut line: Vec<char> = Vec::new();
                line.extend_from_slice(&rest[0..end]);
                proof {
                    assert(line@ == strip_cr(r.take(i as int)));
                    assert(char_lines(ls@.push(line)) == before.push(line@));
                    assert(r.skip(i + 1) == text@.skip(pos + i + 1));
                }
                ls.push(line);
                pos = pos + i + 1;
            },
            None => {
                let mut line: Vec<char> = Vec::new();
                line.extend_from_slice(rest);
                proof {
                    assert(line@ == r);
                    assert(r.len() > 0);
                    assert(lines_of(r) == seq![r]);
                    assert(char_lines(ls@.push(line)) == before.push(line@));
                }
                ls.push(line);
                assert(char_lines(ls@) == lines_of(text@));
                return ls;
            },
        }
    }
    assert(text@.skip(n as int) == Seq::<char>::empty());
    assert(char_lines(ls@) + Seq::<Seq<char>>::empty() == char_lines(ls@));
    ls
}


// ---------------------------------------------------------------------------
// Blocks
// ---------------------------------------------------------------------------

/// The mathematical model of a block.
pub enum Block {
    Paragraph(Seq<char>),
    Heading { level: u8, text: Seq<char> },
    UnorderedList(Seq<Seq<char>>),
    OrderedList(Seq<Seq<char>>),
    BlockQuote(Seq<Seq<char>>),
    CodeBlock(Seq<Seq<char>>),
}

/// A block of Markdown.
#[derive(Debug, PartialEq, Eq)]
pub enum BlockNode {
    Paragraph(String),
    Heading { level: u8, text: String },
    UnorderedList(Vec<String>),
    OrderedList(Vec<String>),
    BlockQuote(Vec<String>),
    CodeBlock(Vec<String>),
}

/// The models of a sequence of strings.
pub open spec fn strings_model(v: Seq<String>) -> Seq<Seq<char>> {
    v.map_values(|s: String| s@)
}

impl View for BlockNode {
    type V = Block;

    open spec fn view(&self) -> Block {
        match self {
            BlockNode::Paragraph(text) => Block::Paragraph(text@),
            BlockNode::Heading { level, text } => Block::Heading { level: *level, text: text@ },
            BlockNode::UnorderedList(items) => Block::UnorderedList(strings_model(items@)),
            BlockNode::OrderedList(items) => Block::OrderedList(strings_model(items@)),
            BlockNode::BlockQuote(lines) => Block::BlockQuote(strings_model(lines@)),
            BlockNode::CodeBlock(lines) => Block::CodeBlock(strings_model(lines@)),
        }
    }
}

/// The models of a sequence of blocks.
pub open spec fn blocks_model(v: Seq<BlockNode>) -> Seq<Block> {
    v.map_values(|b: BlockNode| b@)
}

/// The content of an unordered list item `- item`.
pub open spec fn unordered_item(line: Seq<char>) -> Option<Seq<char>> {
    if starts_with(line, "- "@) {
        Some(line.skip(2))
    } else {
        None
    }
}

/// The content of a block quote line `> text`.
pub open spec fn quote_line(line: Seq<char>) -> Option<Seq<char>> {
    if starts_with(line, "> "@) {
        Some(line.skip(2))
    } else {
        None
    }
}

/// `s` is non-empty and made of ASCII digits.
pub open spec fn is_number(s: Seq<char>) -> bool {
    s.len() > 0 && forall|j: int| 0 <= j < s.len() ==> '0' <= #[trigger] s[j] <= '9'
}

/// The content of an ordered list item `N. item`: the line is split at its
/// first `. `, and the part before it must be a number.
pub open spec fn ordered_item(line: Seq<char>) -> Option<Seq<char>> {
    match find(line, ". "@) {
        Some(i) => if is_number(line.take(i)) {
            Some(line.skip(i + 2))
        } else {
            None
        },
        None => None,
    }
}

/// `unordered_item` as a function value.
pub open spec fn unordered() -> spec_fn(Seq<char>) -> Option<Seq<char>> {
    |l: Seq<char>| unordered_item(l)
}

/// `ordered_item` as a function value.
pub open spec fn ordered() -> spec_fn(Seq<char>) -> Option<Seq<char>> {
    |l: Seq<char>| ordered_item(l)
}

/// `quote_line` as a function value.
pub open spec fn quoted() -> spec_fn(Seq<char>) -> Option<Seq<char>> {
    |l: Seq<char>| quote_line(l)
}

/// The contents of the leading lines of `ls` that `item` accepts.
pub open spec fn item_run(ls: Seq<Seq<char>>, item: spec_fn(Seq<char>) -> Option<Seq<char>>) -> Seq<Seq<char>>
    decreases ls.len(),
{
    if ls.len() == 0 {
        seq![]
    } else {
        match item(ls[0]) {
            Some(x) => seq![x] + item_run(ls.drop_first(), item),
            None => seq![],
        }
    }
}

/// The leading lines of `ls` up to the first closing fence.
pub open spec fn code_lines(ls: Seq<Seq<char>>) -> Seq<Seq<char>>
    decreases ls.len(),
{
    if ls.len() == 0 || ls[0] == "```"@ {
        seq![]
    } else {
        seq![ls[0]] + code_lines(ls.drop_first())
    }
}

/// The block of a single line: a heading for `# `, `## ` or `### `, a
/// paragraph otherwise.
pub open spec fn line_block(line: Seq<char>) -> Block {
    if starts_with(line, "### "@) {
        Block::Heading { level: 3, text: line.skip(4) }
    } else if starts_with(line, "## "@) {
        Block::Heading { level: 2, text: line.skip(3) }
    } else if starts_with(line, "# "@) {
        Block::Heading { level: 1, text: line.skip(2) }
    } else {
        Block::Paragraph(line)
    }
}

pub proof fn lemma_item_run_len(ls: Seq<Seq<char>>, item: spec_fn(Seq<char>) -> Option<Seq<char>>)
    ensures
        item_run(ls, item).len() <= ls.len(),
        ls.len() > 0 && item(ls[0]) is Some ==> item_run(ls, item).len() >= 1,
    decreases ls.len(),
{
    if ls.len() > 0 {
        lemma_item_run_len(ls.drop_first(), item);
    }
}

pub proof fn lemma_code_lines_len(ls: Seq<Seq<char>>)
    ensures
        code_lines(ls).len() <= ls.len(),
        code_lines(ls).len() < ls.len() ==> ls[code_lines(ls).len() as int] == "```"@,
        forall|j: int| 0 <= j < code_lines(ls).len() ==> #[trigger] code_lines(ls)[j] == ls[j],
    decreases ls.len(),
{
    if ls.len() > 0 && ls[0] != "```"@ {
        lemma_code_lines_len(ls.drop_first());
        let c = code_lines(ls);
        assert forall|j: int| 0 <= j < c.len() implies #[trigger] c[j] == ls[j] by {
            if j > 0 {
                assert(c[j] == code_lines(ls.drop_first())[j - 1]);
            }
        }
    }
}

/// The blocks of a sequence of lines.
///
/// A line that is exactly a fence (three backticks) opens a code block that
/// holds the following lines up to the next fence, or up to the end when no
/// fence follows. Consecutive `- ` lines form an unordered list,
/// consecutive `N. ` lines an ordered list, and consecutive `> ` lines a
/// block quote. Any other line is a heading or a paragraph of its own.
#[verifier::opaque]
pub open spec fn blocks_of(ls: Seq<Seq<char>>) -> Seq<Block>
    decreases ls.len(),
{
    if ls.len() == 0 {
        seq![]
    } else {
        let line = ls[0];
        if line == "```"@ {
            let body = ls.drop_first();
            let code = code_lines(body);
            proof {
                lemma_code_lines_len(body);
            }
            let rest = if code.len() < body.len() {
                body.skip(code.len() + 1int)
            } else {
                body.skip(code.len() as int)
            };
            seq![Block::CodeBlock(code)] + blocks_of(rest)
        } else if unordered_item(line) is Some {
            let items = item_run(ls, unordered());
            proof {
                lemma_item_run_len(ls, unordered());
            }
            seq![Block::UnorderedList(items)] + blocks_of(ls.skip(items.len() as int))
        } else if ordered_item(line) is Some {
            let items = item_run(ls, ordered());
            proof {
                lemma_item_run_len(ls, ordered());
            }
            seq![Block::OrderedList(items)] + blocks_of(ls.skip(items.len() as int))
        } else if quote_line(line) is Some {
            let items = item_run(ls, quoted());
            proof {
                lemma_item_run_len(ls, quoted());
            }
            seq![Block::BlockQuote(items)] + blocks_of(ls.skip(items.len() as int))
        } else {
            seq![line_block(line)] + blocks_of(ls.drop_first())
        }
    }
}

/// The content of an ordered list item such as `1. item`: the text after the
/// first `. `, when the text before it is a non-empty run of ASCII digits.
pub(crate) fn ordered_list_item_content(line: &[char]) -> (item: Option<&[char]>)
    ensures
        match item {
            Some(x) => ordered_item(line@) == Some(x@),
            None => ordered_item(line@) is None,
        },
{
    proof {
        reveal_strlit(". ");
    }
    let len = line.len();
    let split = find_str(line, ". ");
    let i = match split {
        Some(i) => i,
        None => {
            return None;
        },
    };
    proof {
        lemma_find(line@, ". "@);
    }
    if i == 0 {
        return None;
    }
    let mut j: usize = 0;
    while j < i
        invariant
            len == line@.len(),
            i + 2 <= line@.len(),
            find(line@, ". "@) == Some(i as int),
            j <= i,
            forall|k: int| 0 <= k < j ==> '0' <= #[trigger] line@[k] <= '9',
        decreases i - j,
    {
        let c = line[j];
        if !('0' <= c && c <= '9') {
            assert(line@.take(i as int)[j as int] == c);
            return None;
        }
        j = j + 1;
    }
    assert(is_number(line@.take(i as int)));
    Some(&line[i + 2..line.len()])
}

/// A `String` holding the characters `line[from..]`.
fn string_from(line: &[char], from: usize) -> (s: String)
    requires
        from <= line@.len(),
    ensures
        s@ == line@.skip(from as int),
{
    string_of(&line[from..line.len()])
}

/// Parses a single line into a heading or a paragraph.
pub(crate) fn parse_line(line: &[char]) -> (block: BlockNode)
    ensures
        block@ == line_block(line@),
{
    proof {
        reveal_strlit("### ");
        reveal_strlit("## ");
        reveal_strlit("# ");
    }
    if has_prefix(line, "### ") {
        BlockNode::Heading { level: 3, text: string_from(line, 4) }
    } else if has_prefix(line, "## ") {
        BlockNode::Heading { level: 2, text: string_from(line, 3) }
    } else if has_prefix(line, "# ") {
        BlockNode::Heading { level: 1, text: string_from(line, 2) }
    } else {
        BlockNode::Paragraph(string_of(line))
    }
}

/// The line is exactly a fence of three backticks.
fn is_fence(line: &[char]) -> (b: bool)
    ensures
        b == (line@ == "```"@),
{
    proof {
        reveal_strlit("```");
    }
    let b = line.len() == 3 && line[0] == '`' && line[1] == '`' && line[2] == '`';
    if b {
        assert(line@ == "```"@);
    }
    b
}

/// The kinds of runs of lines that form one block.
pub(crate) enum ItemKind {
    Unordered,
    Ordered,
    Quote,
}

/// The spec function that reads one line of a run of the given kind.
pub(crate) open spec fn item_of(kind: ItemKind) -> spec_fn(Seq<char>) -> Option<Seq<char>> {
    match kind {
        ItemKind::Unordered => unordered(),
        ItemKind::Ordered => ordered(),
        ItemKind::Quote => quoted(),
    }
}

/// The content of a line as an item of a run of the given kind.
fn line_item<'a>(line: &'a [char], kind: &ItemKind) -> (item: Option<&'a [char]>)
    ensures
        match item {
            Some(x) => item_of(*kind)(line@) == Some(x@),
            None => item_of(*kind)(line@) is None,
        },
{
    proof {
        reveal_strlit("- ");
        reveal_strlit("> ");
    }
    match kind {
        ItemKind::Unordered => if has_prefix(line, "- ") {
            Some(&line[2..line.len()])
        } else {
            None
        },
        ItemKind::Ordered => ordered_list_item_content(line),
        ItemKind::Quote => if has_prefix(line, "> ") {
            Some(&line[2..line.len()])
        } else {
            None
        },
    }
}

/// The lines from `start` up to the next fence, and where they end.
fn collect_code(lines: &Vec<Vec<char>>, start: usize) -> (r: (Vec<String>, usize))
    requires
        start <= lines@.len(),
    ensures
        strings_model(r.0@) == code_lines(char_lines(lines@).skip(start as int)),
        r.1 == start + r.0@.len(),
        r.1 <= lines@.len(),
{
    let ghost ls = char_lines(lines@);
    let n = lines.len();
    let mut code: Vec<String> = Vec::new();
    let mut index = start;
    while index < n && !is_fence(lines[index].as_slice())
        invariant
            n == lines@.len(),
            ls == char_lines(lines@),
            start <= index <= n,
            index == start + code@.len(),
            code_lines(ls.skip(start as int)) == strings_model(code@) + code_lines(
                ls.skip(index as int),
            ),
        decreases n - index,
    {
        let ghost r = ls.skip(index as int);
        assert(r[0] == lines@[index as int]@);
        assert(r.drop_first() == ls.skip(index + 1));
        let s = string_of(lines[index].as_slice());
        assert(strings_model(code@.push(s)) == strings_model(code@).push(s@));
        code.push(s);
        index = index + 1;
    }
    proof {
        if index < n {
            assert(ls.skip(index as int)[0] == lines@[index as int]@);
        }
        assert(strings_model(code@) + Seq::<Seq<char>>::empty() == strings_model(code@));
    }
    (code, index)
}

/// The items of the run of the given kind that starts at `start`, and where
/// the run ends.
fn collect_items(lines: &Vec<Vec<char>>, start: usize, kind: &ItemKind) -> (r: (Vec<String>, usize))
    requires
        start <= lines@.len(),
    ensures
        strings_model(r.0@) == item_run(char_lines(lines@).skip(start as int), item_of(*kind)),
        r.1 == start + r.0@.len(),
        r.1 <= lines@.len(),
{
    let ghost ls = char_lines(lines@);
    let ghost f = item_of(*kind);
    let n = lines.len();
    let mut items: Vec<String> = Vec::new();
    let mut index = start;
    loop
        invariant
            n == lines@.len(),
            ls == char_lines(lines@),
            f == item_of(*kind),
            start <= index <= n,
            index == start + items@.len(),
            item_run(ls.skip(start as int), f) == strings_model(items@) + item_run(
                ls.skip(index as int),
                f,
            ),
        ensures
            start <= index <= n,
            index == start + items@.len(),
            item_run(ls.skip(start as int), f) == strings_model(items@),
        decreases n - index,
    {
        if index >= n {
            assert(ls.skip(index as int).len() == 0);
            assert(strings_model(items@) + Seq::<Seq<char>>::empty() == strings_model(items@));
            break;
        }
        let ghost r = ls.skip(index as int);
        assert(r[0] == lines@[index as int]@);
        assert(r.drop_first() == ls.skip(index + 1));
        match line_item(lines[index].as_slice(), kind) {
            Some(item) => {
                let s = string_of(item);
                assert(strings_model(items@.push(s)) == strings_model(items@).push(s@));
                items.push(s);
                index = index + 1;
            },
            None => {
                assert(strings_model(items@) + Seq::<Seq<char>>::empty() == strings_model(items@));
                break;
            },
        }
    }
    (items, index)
}

/// No lines, no blocks.
pub proof fn lemma_blocks_of_empty()
    ensures
        blocks_of(Seq::<Seq<char>>::empty()) == Seq::<Block>::empty(),
{
    reveal(blocks_of);
}

/// `blocks_of` at a fence: a code block up to the next fence or the end.
pub proof fn lemma_blocks_of_fence(ls: Seq<Seq<char>>)
    requires
        ls.len() > 0,
        ls[0] == "```"@,
    ensures
        ({
            let body = ls.drop_first();
            let code = code_lines(body);
            let rest = if code.len() < body.len() {
                body.skip(code.len() + 1int)
            } else {
                body.skip(code.len() as int)
            };
            blocks_of(ls) == seq![Block::CodeBlock(code)] + blocks_of(rest)
        }),
{
    reveal(blocks_of);
}

/// The kind of run a line starts, if any: a `- ` item, then an ordered
/// item, then a `> ` quote line.
pub(crate) open spec fn line_kind(line: Seq<char>) -> Option<ItemKind> {
    if unordered_item(line) is Some {
        Some(ItemKind::Unordered)
    } else if ordered_item(line) is Some {
        Some(ItemKind::Ordered)
    } else if quote_line(line) is Some {
        Some(ItemKind::Quote)
    } else {
        None
    }
}

/// The block that a run of the given kind forms.
pub(crate) open spec fn run_block(kind: ItemKind, items: Seq<Seq<char>>) -> Block {
    match kind {
        ItemKind::Unordered => Block::UnorderedList(items),
        ItemKind::Ordered => Block::OrderedList(items),
        ItemKind::Quote => Block::BlockQuote(items),
    }
}

/// `blocks_of` at a line that starts a run of list items or quote lines.
proof fn lemma_blocks_of_run(ls: Seq<Seq<char>>, kind: ItemKind)
    requires
        ls.len() > 0,
        ls[0] != "```"@,
        line_kind(ls[0]) == Some(kind),
    ensures
        blocks_of(ls) == seq![run_block(kind, item_run(ls, item_of(kind)))] + blocks_of(
            ls.skip(item_run(ls, item_of(kind)).len() as int),
        ),
{
    reveal(blocks_of);
}

/// `blocks_of` at a line that is a heading or a paragraph.
proof fn lemma_blocks_of_line(ls: Seq<Seq<char>>)
    requires
        ls.len() > 0,
        ls[0] != "```"@,
        line_kind(ls[0]) is None,
    ensures
        blocks_of(ls) == seq![line_block(ls[0])] + blocks_of(ls.drop_first()),
{
    reveal(blocks_of);
}

/// The kind of run a line starts, if any (see `line_kind`).
fn run_kind(line: &[char]) -> (kind: Option<ItemKind>)
    ensures
        kind == line_kind(line@),
{
    if line_item(line, &ItemKind::Unordered).is_some() {
        Some(ItemKind::Unordered)
    } else if line_item(line, &ItemKind::Ordered).is_some() {
        Some(ItemKind::Ordered)
    } else if line_item(line, &ItemKind::Quote).is_some() {
        Some(ItemKind::Quote)
    } else {
        None
    }
}

/// The leading lines up to the first fence, when `body` holds no fence and
/// `tail` is empty or starts with one.
proof fn lemma_code_lines_prefix(body: Seq<Seq<char>>, tail: Seq<Seq<char>>)
    requires
        forall|j: int| 0 <= j < body.len() ==> #[trigger] body[j] != "```"@,
        tail.len() == 0 || tail[0] == "```"@,
    ensures
        code_lines(body + tail) == body,
    decreases body.len(),
{
    if body.len() == 0 {
        assert(body + tail == tail);
    } else {
        let b = body + tail;
        assert(b[0] == body[0]);
        assert(b.drop_first() == body.drop_first() + tail);
        lemma_code_lines_prefix(body.drop_first(), tail);
        assert(body == seq![body[0]] + body.drop_first());
    }
}

/// The items of a run that covers all of `lines`.
proof fn lemma_item_run_all(
    lines: Seq<Seq<char>>,
    rest: Seq<Seq<char>>,
    item: spec_fn(Seq<char>) -> Option<Seq<char>>,
)
    requires
        forall|j: int| 0 <= j < lines.len() ==> #[trigger] item(lines[j]) is Some,
        rest.len() == 0 || item(rest[0]) is None,
    ensures
        item_run(lines + rest, item) == lines.map_values(|l: Seq<char>| item(l)->0),
    decreases lines.len(),
{
    if lines.len() == 0 {
        assert(lines + rest == rest);
    } else {
        let ls = lines + rest;
        assert(ls[0] == lines[0]);
        assert(ls.drop_first() == lines.drop_first() + rest);
        lemma_item_run_all(lines.drop_first(), rest, item);
        assert(item(lines[0]) is Some);
        assert(lines.map_values(|l: Seq<char>| item(l)->0) == seq![item(lines[0])->0]
            + lines.drop_first().map_values(|l: Seq<char>| item(l)->0));
    }
}

/// A fenced code block holds the lines between its two fences as they are:
/// no heading, list, quote or inline syntax is read inside it.
pub proof fn law_fenced_code_block(body: Seq<Seq<char>>, rest: Seq<Seq<char>>)
    requires
        forall|j: int| 0 <= j < body.len() ==> #[trigger] body[j] != "```"@,
    ensures
        blocks_of(seq!["```"@] + body + seq!["```"@] + rest) == seq![Block::CodeBlock(body)]
            + blocks_of(rest),
{
    let ls = seq!["```"@] + body + seq!["```"@] + rest;
    lemma_blocks_of_fence(ls);
    let b = ls.drop_first();
    assert(b == body + (seq!["```"@] + rest));
    lemma_code_lines_prefix(body, seq!["```"@] + rest);
    assert(b.skip(body.len() + 1int) == rest);
}

/// An unterminated fence makes the rest of the input a code block.
pub proof fn law_unterminated_fence(body: Seq<Seq<char>>)
    requires
        forall|j: int| 0 <= j < body.len() ==> #[trigger] body[j] != "```"@,
    ensures
        blocks_of(seq!["```"@] + body) == seq![Block::CodeBlock(body)],
{
    let ls = seq!["```"@] + body;
    lemma_blocks_of_fence(ls);
    assert(ls.drop_first() == body);
    lemma_code_lines_prefix(body, Seq::<Seq<char>>::empty());
    assert(body + Seq::<Seq<char>>::empty() == body);
    assert(body.skip(body.len() as int) == Seq::<Seq<char>>::empty());
    lemma_blocks_of_empty();
    assert(seq![Block::CodeBlock(body)] + Seq::<Block>::empty() == seq![Block::CodeBlock(body)]);
}

/// Lines that open no code block, list or quote are each a block of their
/// own, a heading or a paragraph: paragraphs are not grouped.
pub proof fn law_plain_lines(ls: Seq<Seq<char>>)
    requires
        forall|j: int|
            0 <= j < ls.len() ==> #[trigger] ls[j] != "```"@ && unordered_item(ls[j]) is None
                && ordered_item(ls[j]) is None && quote_line(ls[j]) is None,
    ensures
        blocks_of(ls) == ls.map_values(|l: Seq<char>| line_block(l)),
    decreases ls.len(),
{
    if ls.len() == 0 {
        lemma_blocks_of_empty();
    } else {
        assert(ls[0] != "```"@ && unordered_item(ls[0]) is None);
        lemma_blocks_of_line(ls);
        let r = ls.drop_first();
        assert forall|j: int| 0 <= j < r.len() implies #[trigger] r[j] != "```"@ && unordered_item(r[j]) is None
            && ordered_item(r[j]) is None && quote_line(r[j]) is None by {
            assert(r[j] == ls[j + 1]);
        }
        law_plain_lines(r);
        assert(ls.map_values(|l: Seq<char>| line_block(l)) == seq![line_block(ls[0])]
            + r.map_values(|l: Seq<char>| line_block(l)));
    }
}

/// Consecutive `- ` lines form one unordered list of their contents.
pub proof fn law_unordered_list(lines: Seq<Seq<char>>, rest: Seq<Seq<char>>)
    requires
        lines.len() > 0,
        forall|j: int| 0 <= j < lines.len() ==> #[trigger] unordered_item(lines[j]) is Some,
        rest.len() == 0 || unordered_item(rest[0]) is None,
    ensures
        blocks_of(lines + rest) == seq![
            Block::UnorderedList(lines.map_values(|l: Seq<char>| l.skip(2))),
        ] + blocks_of(rest),
{
    reveal_strlit("- ");
    reveal_strlit("```");
    let ls = lines + rest;
    assert(ls[0] == lines[0]);
    assert(unordered_item(lines[0]) is Some);
    assert(ls[0] != "```"@) by {
        if ls[0] == "```"@ {
            assert(ls[0].take(2)[0] == ls[0][0]);
        }
    }
    lemma_blocks_of_run(ls, ItemKind::Unordered);
    assert forall|j: int| 0 <= j < lines.len() implies #[trigger] unordered()(lines[j]) is Some by {}
    lemma_item_run_all(lines, rest, unordered());
    assert(lines.map_values(|l: Seq<char>| unordered()(l)->0) =~= lines.map_values(
        |l: Seq<char>| l.skip(2),
    ));
    assert(ls.skip(lines.len() as int) == rest);
}

/// Consecutive `N. ` lines (that are not `- ` lines) form one ordered list
/// of their contents.
pub proof fn law_ordered_list(lines: Seq<Seq<char>>, rest: Seq<Seq<char>>)
    requires
        lines.len() > 0,
        forall|j: int| 0 <= j < lines.len() ==> #[trigger] ordered_item(lines[j]) is Some,
        unordered_item(lines[0]) is None,
        rest.len() == 0 || ordered_item(rest[0]) is None,
    ensures
        blocks_of(lines + rest) == seq![
            Block::OrderedList(lines.map_values(|l: Seq<char>| ordered_item(l)->0)),
        ] + blocks_of(rest),
{
    reveal_strlit("```");
    reveal_strlit(". ");
    let ls = lines + rest;
    let first = lines[0];
    assert(ls[0] == first);
    assert(ordered_item(first) is Some);
    assert(first != "```"@) by {
        if first == "```"@ {
            assert forall|j: int| !occurs_at(first, ". "@, j) by {
                if occurs_at(first, ". "@, j) {
                    assert(first.subrange(j, j + 2)[0] == first[j]);
                }
            }
            lemma_find_none(first, ". "@);
        }
    }
    lemma_blocks_of_run(ls, ItemKind::Ordered);
    assert forall|j: int| 0 <= j < lines.len() implies #[trigger] ordered()(lines[j]) is Some by {}
    lemma_item_run_all(lines, rest, ordered());
    assert(lines.map_values(|l: Seq<char>| ordered()(l)->0) =~= lines.map_values(
        |l: Seq<char>| ordered_item(l)->0,
    ));
    assert(ls.skip(lines.len() as int) == rest);
}

/// Consecutive `> ` lines form one block quote of their contents.
pub proof fn law_block_quote(lines: Seq<Seq<char>>, rest: Seq<Seq<char>>)
    requires
        lines.len() > 0,
        forall|j: int| 0 <= j < lines.len() ==> #[trigger] quote_line(lines[j]) is Some,
        rest.len() == 0 || quote_line(rest[0]) is None,
    ensures
        blocks_of(lines + rest) == seq![Block::BlockQuote(lines.map_values(|l: Seq<char>| l.skip(2)))]
            + blocks_of(rest),
{
    reveal_strlit("- ");
    reveal_strlit("> ");
    reveal_strlit("```");
    reveal_strlit(". ");
    let ls = lines + rest;
    let first = lines[0];
    assert(ls[0] == first);
    assert(quote_line(first) is Some);
    assert(first[0] == '>') by {
        assert(first.take(2)[0] == first[0]);
    }
    assert(ls[0] != "```"@);
    assert(unordered_item(first) is None) by {
        if starts_with(first, "- "@) {
            assert(first.take(2)[0] == first[0]);
        }
    }
    assert(ordered_item(first) is None) by {
        lemma_find(first, ". "@);
        if let Some(i) = find(first, ". "@) {
            if i > 0 {
                assert(first.take(i)[0] == first[0]);
            }
        }
    }
    lemma_blocks_of_run(ls, ItemKind::Quote);
    assert forall|j: int| 0 <= j < lines.len() implies #[trigger] quoted()(lines[j]) is Some by {}
    lemma_item_run_all(lines, rest, quoted());
    assert(lines.map_values(|l: Seq<char>| quoted()(l)->0) =~= lines.map_values(
        |l: Seq<char>| l.skip(2),
    ));
    assert(ls.skip(lines.len() as int) == rest);
}

/// A line made of a number, `. ` and any content is an ordered list item
/// whose content is everything after that first `. `, whatever the content
/// holds (more `. ` among it); on its own such a line is a one-item ordered
/// list.
pub proof fn law_ordered_item(number: Seq<char>, content: Seq<char>, rest: Seq<Seq<char>>)
    requires
        number.len() > 0,
        forall|j: int| 0 <= j < number.len() ==> '0' <= #[trigger] number[j] <= '9',
        rest.len() == 0 || ordered_item(rest[0]) is None,
    ensures
        ordered_item(number + ". "@ + content) == Some(content),
        blocks_of(seq![number + ". "@ + content] + rest) == seq![
            Block::OrderedList(seq![content]),
        ] + blocks_of(rest),
{
    reveal_strlit(". ");
    reveal_strlit("- ");
    let line = number + ". "@ + content;
    let n = number.len() as int;
    lemma_find_after(number, ". "@, content);
    assert(line.take(n) == number);
    assert(line.skip(n + 2) == content);
    assert(unordered_item(line) is None) by {
        if starts_with(line, "- "@) {
            assert(line.take(2)[0] == line[0]);
        }
    }
    let lines = seq![line];
    assert forall|j: int| 0 <= j < lines.len() implies #[trigger] ordered_item(lines[j]) is Some by {}
    law_ordered_list(lines, rest);
    assert(lines.map_values(|l: Seq<char>| ordered_item(l)->0) =~= seq![content]);
}

/// The text before the first `. ` of a line decides whether the line is an
/// ordered list item: when it is a non-empty run of ASCII digits, the
/// content is everything after that `. `; otherwise the line is no item.
pub proof fn law_ordered_item_prefix(prefix: Seq<char>, content: Seq<char>)
    requires
        forall|j: int| 0 <= j < prefix.len() ==> #[trigger] prefix[j] != '.',
    ensures
        ordered_item(prefix + ". "@ + content) == if prefix.len() > 0 && forall|j: int|
            0 <= j < prefix.len() ==> '0' <= #[trigger] prefix[j] <= '9' {
            Some(content)
        } else {
            None
        },
{
    reveal_strlit(". ");
    let line = prefix + ". "@ + content;
    let n = prefix.len() as int;
    lemma_find_after(prefix, ". "@, content);
    assert(line.take(n) == prefix);
    assert(line.skip(n + 2) == content);
}

/// A line without `. ` is no ordered list item.
pub proof fn law_ordered_item_needs_separator(line: Seq<char>)
    requires
        forall|j: int| 0 <= j < line.len() - 1 ==> #[trigger] line[j] != '.' || line[j + 1] != ' ',
    ensures
        ordered_item(line) is None,
{
    reveal_strlit(". ");
    assert forall|j: int| !occurs_at(line, ". "@, j) by {
        if occurs_at(line, ". "@, j) {
            assert(line.subrange(j, j + 2)[0] == line[j]);
            assert(line.subrange(j, j + 2)[1] == line[j + 1]);
        }
    }
    lemma_find_none(line, ". "@);
}

/// `- ` starts an unordered list item and `> ` a block quote line; what
/// follows the marker is the content, whatever it holds.
pub proof fn law_item_markers(content: Seq<char>)
    ensures
        unordered_item("- "@ + content) == Some(content),
        quote_line("> "@ + content) == Some(content),
{
    reveal_strlit("- ");
    reveal_strlit("> ");
    assert(("- "@ + content).take(2) == "- "@);
    assert(("- "@ + content).skip(2) == content);
    assert(("> "@ + content).take(2) == "> "@);
    assert(("> "@ + content).skip(2) == content);
}

/// Lines end at `\n` or `\r\n` and do not keep the ending; text after the
/// last newline is the last line.
pub proof fn law_lines(line: Seq<char>, rest: Seq<char>)
    requires
        forall|j: int| 0 <= j < line.len() ==> #[trigger] line[j] != '\n',
    ensures
        line.len() == 0 || line.last() != '\r' ==> lines_of(line + "\n"@ + rest) == seq![line]
            + lines_of(rest),
        lines_of(line + "\r\n"@ + rest) == seq![line] + lines_of(rest),
        line.len() > 0 ==> lines_of(line) == seq![line],
        lines_of(Seq::<char>::empty()) == Seq::<Seq<char>>::empty(),
{
    reveal_strlit("\n");
    reveal_strlit("\r\n");
    let n = line.len() as int;
    let s1 = line + "\n"@ + rest;
    lemma_find_after(line, "\n"@, rest);
    assert(s1.take(n) == line);
    assert(s1.skip(n + 1) == rest);
    if line.len() == 0 || line.last() != '\r' {
        assert(strip_cr(line) == line);
    }
    let cr = line + seq!['\r'];
    let s2 = line + "\r\n"@ + rest;
    assert(s2 =~= cr + "\n"@ + rest);
    assert forall|j: int| 0 <= j < cr.len() implies #[trigger] cr[j] != '\n' by {
        if j < n {
            assert(cr[j] == line[j]);
        }
    }
    lemma_find_after(cr, "\n"@, rest);
    assert(s2.take(n + 1) == cr);
    assert(s2.skip(n + 2) == rest);
    assert(cr.drop_last() == line);
    assert(strip_cr(cr) == line);
    if line.len() > 0 {
        assert forall|j: int| !occurs_at(line, "\n"@, j) by {
            if occurs_at(line, "\n"@, j) {
                assert(line.subrange(j, j + 1)[0] == line[j]);
            }
        }
        lemma_find_none(line, "\n"@);
    }
}

/// A line that starts with `#` opens no code block, list or quote.
proof fn lemma_hash_line_kind(line: Seq<char>)
    requires
        line.len() > 0,
        line[0] == '#',
    ensures
        line != "```"@,
        line_kind(line) is None,
{
    reveal_strlit("```");
    reveal_strlit("- ");
    reveal_strlit("> ");
    reveal_strlit(". ");
    assert(line != "```"@) by {
        if line == "```"@ {
            assert(line[0] == '`');
        }
    }
    assert(unordered_item(line) is None) by {
        if starts_with(line, "- "@) {
            assert(line.take(2)[0] == line[0]);
        }
    }
    assert(quote_line(line) is None) by {
        if starts_with(line, "> "@) {
            assert(line.take(2)[0] == line[0]);
        }
    }
    assert(ordered_item(line) is None) by {
        lemma_find(line, ". "@);
        if let Some(i) = find(line, ". "@) {
            if i > 0 {
                assert(line.take(i)[0] == line[0]);
            }
        }
    }
}

/// A line that starts with `# `, `## ` or `### ` is a heading of level 1, 2
/// or 3 whose text is the rest of the line, whatever characters it holds,
/// and it is a block of its own.
pub proof fn law_heading_line(text: Seq<char>, rest: Seq<Seq<char>>)
    ensures
        line_block("# "@ + text) == (Block::Heading { level: 1, text }),
        line_block("## "@ + text) == (Block::Heading { level: 2, text }),
        line_block("### "@ + text) == (Block::Heading { level: 3, text }),
        blocks_of(seq!["# "@ + text] + rest) == seq![Block::Heading { level: 1, text }]
            + blocks_of(rest),
        blocks_of(seq!["## "@ + text] + rest) == seq![Block::Heading { level: 2, text }]
            + blocks_of(rest),
        blocks_of(seq!["### "@ + text] + rest) == seq![Block::Heading { level: 3, text }]
            + blocks_of(rest),
{
    reveal_strlit("# ");
    reveal_strlit("## ");
    reveal_strlit("### ");
    let l1 = "# "@ + text;
    let l2 = "## "@ + text;
    let l3 = "### "@ + text;
    assert(!starts_with(l1, "### "@)) by {
        if starts_with(l1, "### "@) {
            assert(l1.take(4)[1] == l1[1]);
        }
    }
    assert(!starts_with(l1, "## "@)) by {
        if starts_with(l1, "## "@) {
            assert(l1.take(3)[1] == l1[1]);
        }
    }
    assert(l1.take(2) == "# "@);
    assert(l1.skip(2) == text);
    assert(!starts_with(l2, "### "@)) by {
        if starts_with(l2, "### "@) {
            assert(l2.take(4)[2] == l2[2]);
        }
    }
    assert(l2.take(3) == "## "@);
    assert(l2.skip(3) == text);
    assert(l3.take(4) == "### "@);
    assert(l3.skip(4) == text);
    let ls1 = seq![l1] + rest;
    let ls2 = seq![l2] + rest;
    let ls3 = seq![l3] + rest;
    assert(ls1[0] == l1 && ls2[0] == l2 && ls3[0] == l3);
    assert(ls1.drop_first() == rest && ls2.drop_first() == rest && ls3.drop_first() == rest);
    lemma_hash_line_kind(l1);
    lemma_hash_line_kind(l2);
    lemma_hash_line_kind(l3);
    lemma_blocks_of_line(ls1);
    lemma_blocks_of_line(ls2);
    lemma_blocks_of_line(ls3);
}

/// A line that does not start with `#` is a paragraph holding the whole
/// line, whatever else it holds.
pub proof fn law_paragraph_line(line: Seq<char>)
    requires
        line.len() == 0 || line[0] != '#',
    ensures
        line_block(line) == Block::Paragraph(line),
{
    reveal_strlit("# ");
    reveal_strlit("## ");
    reveal_strlit("### ");
    assert(!starts_with(line, "### "@)) by {
        if starts_with(line, "### "@) {
            assert(line.take(4)[0] == line[0]);
        }
    }
    assert(!starts_with(line, "## "@)) by {
        if starts_with(line, "## "@) {
            assert(line.take(3)[0] == line[0]);
        }
    }
    assert(!starts_with(line, "# "@)) by {
        if starts_with(line, "# "@) {
            assert(line.take(2)[0] == line[0]);
        }
    }
}

/// Splits Markdown text into blocks (see `blocks_of`).
pub fn parse_blocks(markdown: &str) -> (blocks: Vec<BlockNode>)
    ensures
        blocks_model(blocks@) == blocks_of(lines_of(markdown@)),
{
    let chars = chars_of(markdown);
    let lines = lines(chars.as_slice());
    let ghost ls = char_lines(lines@);
    let n = lines.len();
    let mut blocks: Vec<BlockNode> = Vec::new();
    let mut index: usize = 0;
    assert(ls.skip(0) == ls);
    while index < n
        invariant
            n == lines@.len(),
            ls == char_lines(lines@),
            ls == lines_of(markdown@),
            index <= n,
            blocks_model(blocks@) + blocks_of(ls.skip(index as int)) == blocks_of(ls),
        decreases n - index,
    {
        let ghost rest = ls.skip(index as int);
        let ghost before = blocks_model(blocks@);
        assert(rest[0] == lines@[index as int]@);
        let line = lines[index].as_slice();
        let block;
        if is_fence(line) {
            proof {
                lemma_blocks_of_fence(rest);
                lemma_code_lines_len(rest.drop_first());
                assert(rest.drop_first() == ls.skip(index + 1));
            }
            let (code_lines_found, end) = collect_code(&lines, index + 1);
            index = end;
            if index < n {
                index = index + 1;
            }
            proof {
                let body = rest.drop_first();
                let code = code_lines(body);
                if code.len() < body.len() {
                    assert(body.skip(code.len() + 1int) == ls.skip(index as int));
                } else {
                    assert(body.skip(code.len() as int) == ls.skip(index as int));
                }
            }
            block = BlockNode::CodeBlock(code_lines_found);
        } else {
            match run_kind(line) {
                Some(kind) => {
                    proof {
                        lemma_blocks_of_run(rest, kind);
                    }
                    let (items, end) = collect_items(&lines, index, &kind);
                    proof {
                        assert(rest.skip(items@.len() as int) == ls.skip(end as int));
                    }
                    index = end;
                    block = match kind {
                        ItemKind::Unordered => BlockNode::UnorderedList(items),
                        ItemKind::Ordered => BlockNode::OrderedList(items),
                        ItemKind::Quote => BlockNode::BlockQuote(items),
                    };
                },
                None => {
                    proof {
                        lemma_blocks_of_line(rest);
                    }
                    block = parse_line(line);
                    assert(rest.drop_first() == ls.skip(index + 1));
                    index = index + 1;
                },
            }
        }
        proof {
            assert(blocks_model(blocks@.push(block)) == before.push(block@));
        }
        blocks.push(block);
    }
    assert(ls.skip(n as int) == Seq::<Seq<char>>::empty());
    proof {
        lemma_blocks_of_empty();
    }
    assert(blocks_model(blocks@) + Seq::<Block>::empty() == blocks_model(blocks@));
    blocks
}

} // verus!
