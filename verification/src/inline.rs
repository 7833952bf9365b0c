//! Inline syntax: the tokenizer, inline code spans, and the parser that turns
//! a line of text into `InlineNode`s (text, code, emphasis, strong emphasis
//! and links).
use vstd::prelude::*;

use crate::text::{byte_len, lemma_utf8_len_ascii, lemma_utf8_len_concat, lemma_utf8_len_empty, utf8_len,
    chars_of, find, find_str, first_match, has_prefix, lemma_find, lemma_find_after, string_of_char, lemma_find_is, starts_with, lemma_find_none, occurs_at, lemma_first_match, lemma_first_match_is, lemma_first_match_none, string_of};

verus! {

broadcast use vstd::seq_lib::group_seq_properties;

// ---------------------------------------------------------------------------
// Tokens
// ---------------------------------------------------------------------------

/// The mathematical model of an inline token.
pub enum Token {
    Text(Seq<char>),
    Backtick,
    Star,
    OpenBracket,
    CloseBracket,
    OpenParen,
    CloseParen,
    End,
}

/// A token of inline syntax: a run of plain text, one delimiter character,
/// or the end of the input.
#[derive(Debug, PartialEq, Eq)]
pub enum InlineToken {
    Text(String),
    Backtick,
    Star,
    OpenBracket,
    CloseBracket,
    OpenParen,
    CloseParen,
    End,
}

impl View for InlineToken {
    type V = Token;

    open spec fn view(&self) -> Token {
        match self {
            InlineToken::Text(s) => Token::Text(s@),
            InlineToken::Backtick => Token::Backtick,
            InlineToken::Star => Token::Star,
            InlineToken::OpenBracket => Token::OpenBracket,
            InlineToken::CloseBracket => Token::CloseBracket,
            InlineToken::OpenParen => Token::OpenParen,
            InlineToken::CloseParen => Token::CloseParen,
            InlineToken::End => Token::End,
        }
    }
}

/// The models of a sequence of tokens.
pub open spec fn token_models(ts: Seq<InlineToken>) -> Seq<Token> {
    ts.map_values(|t: InlineToken| t@)
}

/// Characters that the tokenizer turns into tokens of their own.
pub open spec fn is_token_char(c: char) -> bool {
    c == '`' || c == '*' || c == '[' || c == ']' || c == '(' || c == ')'
}

/// `is_token_char` as a predicate value.
pub open spec fn token_char() -> spec_fn(char) -> bool {
    |c: char| is_token_char(c)
}

/// The token of a delimiter character.
pub open spec fn delimiter_token(c: char) -> Token {
    if c == '`' {
        Token::Backtick
    } else if c == '*' {
        Token::Star
    } else if c == '[' {
        Token::OpenBracket
    } else if c == ']' {
        Token::CloseBracket
    } else if c == '(' {
        Token::OpenParen
    } else {
        Token::CloseParen
    }
}

/// A text token for `s`, or nothing when `s` is empty.
pub open spec fn text_token(s: Seq<char>) -> Seq<Token> {
    if s.len() == 0 {
        seq![]
    } else {
        seq![Token::Text(s)]
    }
}

/// The tokens of `s` without the final `End`: maximal runs of plain text and
/// one token for each delimiter character, in order.
pub open spec fn tokens_of(s: Seq<char>) -> Seq<Token>
    decreases s.len(),
{
    match first_match(s, token_char()) {
        None => text_token(s),
        Some(i) => {
            proof {
                lemma_first_match(s, token_char());
            }
            text_token(s.take(i)) + seq![delimiter_token(s[i])] + tokens_of(s.skip(i + 1))
        },
    }
}

/// The full token sequence of `s`, ending with `End`.
pub open spec fn tokenize_spec(s: Seq<char>) -> Seq<Token> {
    tokens_of(s).push(Token::End)
}

/// The characters a token stands for.
pub open spec fn token_text(t: Token) -> Seq<char> {
    match t {
        Token::Text(s) => s,
        Token::Backtick => seq!['`'],
        Token::Star => seq!['*'],
        Token::OpenBracket => seq!['['],
        Token::CloseBracket => seq![']'],
        Token::OpenParen => seq!['('],
        Token::CloseParen => seq![')'],
        Token::End => seq![],
    }
}

/// The characters a sequence of tokens stands for.
pub open spec fn tokens_text(ts: Seq<Token>) -> Seq<char>
    decreases ts.len(),
{
    if ts.len() == 0 {
        seq![]
    } else {
        tokens_text(ts.drop_last()) + token_text(ts.last())
    }
}

/// A token as the tokenizer produces it: a non-empty run of text without
/// delimiter characters, or a delimiter token (never `End`).
pub open spec fn well_formed_token(t: Token) -> bool {
    match t {
        Token::Text(s) => s.len() > 0 && forall|j: int| 0 <= j < s.len() ==> !is_token_char(#[trigger] s[j]),
        Token::End => false,
        _ => true,
    }
}

pub proof fn lemma_tokens_text_concat(a: Seq<Token>, b: Seq<Token>)
    ensures
        tokens_text(a + b) == tokens_text(a) + tokens_text(b),
    decreases b.len(),
{
    if b.len() == 0 {
        assert(a + b == a);
    } else {
        lemma_tokens_text_concat(a, b.drop_last());
        assert((a + b).drop_last() == a + b.drop_last());
        assert((a + b).last() == b.last());
    }
}

proof fn lemma_tokens_text_single(t: Token)
    ensures
        tokens_text(seq![t]) == token_text(t),
{
    assert(seq![t].drop_last() == Seq::<Token>::empty());
    assert(tokens_text(Seq::<Token>::empty()) == Seq::<char>::empty());
    assert(Seq::<char>::empty() + token_text(t) == token_text(t));
}

/// The tokens of `s` stand for exactly the characters of `s`, and each of
/// them is well formed.
pub proof fn lemma_tokens_of(s: Seq<char>)
    ensures
        tokens_text(tokens_of(s)) == s,
        forall|k: int| 0 <= k < tokens_of(s).len() ==> well_formed_token(#[trigger] tokens_of(s)[k]),
    decreases s.len(),
{
    lemma_first_match(s, token_char());
    match first_match(s, token_char()) {
        None => {
            if s.len() > 0 {
                lemma_tokens_text_single(Token::Text(s));
            }
        },
        Some(i) => {
            let pre = text_token(s.take(i));
            let d = seq![delimiter_token(s[i])];
            let rest = tokens_of(s.skip(i + 1));
            lemma_tokens_of(s.skip(i + 1));
            lemma_tokens_text_concat(pre + d, rest);
            lemma_tokens_text_concat(pre, d);
            lemma_tokens_text_single(delimiter_token(s[i]));
            if i > 0 {
                lemma_tokens_text_single(Token::Text(s.take(i)));
            }
            assert(token_text(delimiter_token(s[i])) == seq![s[i]]);
            assert(s == s.take(i) + seq![s[i]] + s.skip(i + 1));
            let all = pre + d + rest;
            assert forall|k: int| 0 <= k < all.len() implies well_formed_token(#[trigger] all[k]) by {
                if k < pre.len() {
                    assert(all[k] == Token::Text(s.take(i)));
                    assert forall|j: int| 0 <= j < s.take(i).len() implies !is_token_char(
                        #[trigger] s.take(i)[j],
                    ) by {
                        assert(s.take(i)[j] == s[j]);
                        assert(!token_char()(s[j]));
                    }
                } else if k < pre.len() + 1 {
                } else {
                    assert(all[k] == rest[k - pre.len() - 1]);
                }
            }
        },
    }
}

/// No backtick occurs in the text of tokens that are all well formed and
/// not backticks.
proof fn lemma_no_backtick_in_text(ts: Seq<Token>)
    requires
        forall|k: int| 0 <= k < ts.len() ==> well_formed_token(#[trigger] ts[k]),
        forall|k: int| 0 <= k < ts.len() ==> #[trigger] ts[k] != Token::Backtick,
    ensures
        forall|j: int| 0 <= j < tokens_text(ts).len() ==> #[trigger] tokens_text(ts)[j] != '`',
    decreases ts.len(),
{
    if ts.len() > 0 {
        let init = ts.drop_last();
        assert forall|k: int| 0 <= k < init.len() implies well_formed_token(#[trigger] init[k]) by {
            assert(init[k] == ts[k]);
        }
        assert forall|k: int| 0 <= k < init.len() implies #[trigger] init[k] != Token::Backtick by {
            assert(init[k] == ts[k]);
        }
        lemma_no_backtick_in_text(init);
        let t = ts.last();
        assert(well_formed_token(ts[ts.len() - 1]));
        assert(ts[ts.len() - 1] != Token::Backtick);
        assert forall|j: int| 0 <= j < tokens_text(ts).len() implies #[trigger] tokens_text(ts)[j]
            != '`' by {
            let a = tokens_text(init);
            if j >= a.len() {
                let jj = j - a.len();
                match t {
                    Token::Text(x) => {
                        assert(tokens_text(ts)[j] == x[jj]);
                        assert(!is_token_char(x[jj]));
                    },
                    _ => {},
                }
            } else {
                assert(tokens_text(ts)[j] == a[j]);
            }
        }
    }
}

/// Tokenizing loses nothing: the tokens of a text, read back in order, give
/// the text again. The last token is `End`; every other token is a
/// non-empty run of plain text or a single delimiter.
pub proof fn law_tokens_reassemble(s: Seq<char>)
    ensures
        tokens_text(tokenize_spec(s)) == s,
        tokenize_spec(s).last() == Token::End,
        forall|k: int|
            0 <= k < tokenize_spec(s).len() - 1 ==> well_formed_token(#[trigger] tokenize_spec(s)[k]),
{
    lemma_tokens_of(s);
    let ts = tokenize_spec(s);
    assert(ts.drop_last() == tokens_of(s));
    assert(tokens_text(ts) == s + Seq::<char>::empty());
    assert(s + Seq::<char>::empty() == s);
    assert forall|k: int| 0 <= k < ts.len() - 1 implies well_formed_token(#[trigger] ts[k]) by {
        assert(ts[k] == tokens_of(s)[k]);
    }
}

/// Splits inline text into tokens.
///
/// Plain text between delimiters becomes one `Text` token; each of the
/// characters `` ` `` `*` `[` `]` `(` `)` becomes a token of its own; the
/// sequence always ends with `End`.
pub fn tokenize_inline(text: &str) -> (tokens: Vec<InlineToken>)
    ensures
        token_models(tokens@) == tokenize_spec(text@),
{
    let chars = chars_of(text);
    let s = chars.as_slice();
    let mut tokens: Vec<InlineToken> = Vec::new();
    let mut text_start: usize = 0;
    let mut index: usize = 0;
    let n = s.len();
    while index < n
        invariant
            n == s@.len(),
            text_start <= index <= n,
            token_models(tokens@) + tokens_of(s@.skip(text_start as int)) == tokens_of(s@),
            forall|j: int| text_start <= j < index ==> !is_token_char(#[trigger] s@[j]),
        decreases n - index,
    {
        let c = s[index];
        let token = match c {
            '`' => InlineToken::Backtick,
            '*' => InlineToken::Star,
            '[' => InlineToken::OpenBracket,
            ']' => InlineToken::CloseBracket,
            '(' => InlineToken::OpenParen,
            ')' => InlineToken::CloseParen,
            _ => {
                index = index + 1;
                continue;
            },
        };
        let ghost rest = s@.skip(text_start as int);
        let ghost k = index - text_start;
        proof {
            assert forall|j: int| 0 <= j < k implies !token_char()(#[trigger] rest[j]) by {
                assert(rest[j] == s@[text_start + j]);
            }
            assert(rest[k] == c);
            lemma_first_match_is(rest, token_char(), k);
            assert(rest.skip(k + 1) == s@.skip(index + 1));
            assert(rest.take(k) == s@.subrange(text_start as int, index as int));
        }
        let ghost before = token_models(tokens@);
        if text_start < index {
            let piece = string_of(&s[text_start..index]);
            tokens.push(InlineToken::Text(piece));
        }
        tokens.push(token);
        proof {
            assert(token@ == delimiter_token(c));
            assert(token_models(tokens@) == before + text_token(rest.take(k)) + seq![delimiter_token(c)]);
        }
        text_start = index + 1;
        index = index + 1;
    }
    let ghost rest = s@.skip(text_start as int);
    let ghost before = token_models(tokens@);
    proof {
        assert forall|j: int| 0 <= j < rest.len() implies !token_char()(#[trigger] rest[j]) by {
            assert(rest[j] == s@[text_start + j]);
        }
        lemma_first_match_none(rest, token_char());
    }
    if text_start < n {
        let piece = string_of(&s[text_start..n]);
        tokens.push(InlineToken::Text(piece));
        assert(rest == s@.subrange(text_start as int, n as int));
    }
    assert(token_models(tokens@) == before + text_token(rest));
    tokens.push(InlineToken::End);
    assert(token_models(tokens@) == tokens_of(text@).push(Token::End));
    tokens
}


/// The characters a token stands for, as a `String`.
pub fn inline_token_text(token: &InlineToken) -> (r: String)
    ensures
        r@ == token_text(token@),
{
    match token {
        InlineToken::Text(text) => text.clone(),
        InlineToken::Backtick => string_of_char('`'),
        InlineToken::Star => string_of_char('*'),
        InlineToken::OpenBracket => string_of_char('['),
        InlineToken::CloseBracket => string_of_char(']'),
        InlineToken::OpenParen => string_of_char('('),
        InlineToken::CloseParen => string_of_char(')'),
        InlineToken::End => String::new(),
    }
}

/// The number of bytes in the UTF-8 encoding of the characters a token
/// stands for.
pub fn inline_token_len(token: &InlineToken) -> (n: usize)
    ensures
        n == utf8_len(token_text(token@)),
{
    proof {
        lemma_utf8_len_ascii('`');
        lemma_utf8_len_ascii('*');
        lemma_utf8_len_ascii('[');
        lemma_utf8_len_ascii(']');
        lemma_utf8_len_ascii('(');
        lemma_utf8_len_ascii(')');
        lemma_utf8_len_empty();
    }
    match token {
        InlineToken::Text(text) => byte_len(text.as_str()),
        InlineToken::Backtick
        | InlineToken::Star
        | InlineToken::OpenBracket
        | InlineToken::CloseBracket
        | InlineToken::OpenParen
        | InlineToken::CloseParen => 1,
        InlineToken::End => 0,
    }
}

// ---------------------------------------------------------------------------
// Inline nodes
// ---------------------------------------------------------------------------

/// The mathematical model of an inline node.
pub enum Inline {
    Text(Seq<char>),
    Code(Seq<char>),
    Emphasis(Seq<Inline>),
    Strong(Seq<Inline>),
    Link { label: Seq<Inline>, url: Seq<char> },
}

/// A parsed piece of inline Markdown.
#[derive(Debug, PartialEq, Eq)]
pub enum InlineNode {
    Text(String),
    Code(String),
    Emphasis(Vec<InlineNode>),
    Strong(Vec<InlineNode>),
    Link { label: Vec<InlineNode>, url: String },
}

/// The model of an inline node.
pub open spec fn node_model(n: InlineNode) -> Inline
    decreases n,
{
    match n {
        InlineNode::Text(s) => Inline::Text(s@),
        InlineNode::Code(s) => Inline::Code(s@),
        InlineNode::Emphasis(children) => Inline::Emphasis(nodes_model(children@)),
        InlineNode::Strong(children) => Inline::Strong(nodes_model(children@)),
        InlineNode::Link { label, url } => Inline::Link { label: nodes_model(label@), url: url@ },
    }
}

/// The models of a sequence of inline nodes.
pub open spec fn nodes_model(ns: Seq<InlineNode>) -> Seq<Inline>
    decreases ns,
{
    if ns.len() == 0 {
        seq![]
    } else {
        nodes_model(ns.drop_last()).push(node_model(ns.last()))
    }
}

impl View for InlineNode {
    type V = Inline;

    open spec fn view(&self) -> Inline {
        node_model(*self)
    }
}

pub proof fn lemma_nodes_model_push(ns: Seq<InlineNode>, n: InlineNode)
    ensures
        nodes_model(ns.push(n)) == nodes_model(ns).push(node_model(n)),
{
    assert(ns.push(n).drop_last() == ns);
}

pub proof fn lemma_nodes_model_append(a: Seq<InlineNode>, b: Seq<InlineNode>)
    ensures
        nodes_model(a + b) == nodes_model(a) + nodes_model(b),
    decreases b.len(),
{
    if b.len() == 0 {
        assert(a + b == a);
    } else {
        lemma_nodes_model_append(a, b.drop_last());
        assert((a + b).drop_last() == a + b.drop_last());
    }
}

// ---------------------------------------------------------------------------
// Inline code spans
// ---------------------------------------------------------------------------

/// An inline code span at the start of `text`: the characters between the
/// opening backtick and the next backtick, and the number of characters the
/// span covers (both backticks included).
pub open spec fn code_span(text: Seq<char>) -> Option<(Seq<char>, int)> {
    if text.len() > 0 && text[0] == '`' {
        match find(text.skip(1), "`"@) {
            Some(e) => Some((text.subrange(1, e + 1), e + 2)),
            None => None,
        }
    } else {
        None
    }
}

/// Reads an inline code span from the tokens of `text`.
///
/// Returns the code node and the number of bytes the span covers in the
/// UTF-8 encoding of `text` when `text` starts with a backtick that a later
/// backtick closes; otherwise nothing.
pub fn render_inline_code_from_tokens(text: &str) -> (r: Option<(InlineNode, usize)>)
    ensures
        match code_span(text@) {
            Some((code, n)) => r matches Some((node, m)) && node@ == Inline::Code(code) && m
                == utf8_len(text@.take(n)),
            None => r is None,
        },
{
    let tokens = tokenize_inline(text);
    let ghost toks = token_models(tokens@);
    proof {
        assert(toks[toks.len() - 1] == Token::End);
        if text@.len() > 0 && text@[0] == '`' {
            lemma_first_match_is(text@, token_char(), 0);
            assert(text@.take(0).len() == 0);
            assert(tokens_of(text@)[0] == Token::Backtick);
            assert(toks[0] == tokens@[0]@);
        }
    }
    match &tokens[0] {
        InlineToken::Backtick => {},
        _ => {
            return None;
        },
    }
    let ghost t = text@.skip(1);
    let ghost tt = tokens_of(t);
    proof {
        assert(tokens@[0]@ == Token::Backtick);
        assert(toks[0] == Token::Backtick);
        if !(text@.len() > 0 && text@[0] == '`') {
            lemma_first_match(text@, token_char());
            match first_match(text@, token_char()) {
                None => {
                    if text@.len() > 0 {
                        assert(tokens_of(text@) == seq![Token::Text(text@)]);
                    }
                },
                Some(i) => {
                    if i > 0 {
                        assert(tokens_of(text@)[0] == Token::Text(text@.take(i)));
                    } else {
                        assert(delimiter_token(text@[0]) == Token::Backtick);
                    }
                },
            }
            assert(false);
        }
        lemma_first_match_is(text@, token_char(), 0);
        assert(text@.take(0).len() == 0);
        assert(text@.skip(1) == t);
        assert(tokens_of(text@) == seq![Token::Backtick] + tt);
        assert(toks == seq![Token::Backtick] + tt + seq![Token::End]);
        lemma_tokens_of(t);
        assert(tt.take(0) == Seq::<Token>::empty());
        assert(tt.skip(0) == tt);
        reveal_strlit("`");
    }
    let mut code = String::new();
    let mut consumed: usize = 1;
    let mut k: usize = 1;
    let text_len = byte_len(text);
    proof {
        lemma_utf8_len_ascii('`');
        assert(text@ == seq!['`'] + t);
        lemma_utf8_len_concat(seq!['`'], t);
        assert(code@ == Seq::<char>::empty());
        lemma_utf8_len_empty();
    }
    while k < tokens.len()
        invariant
            text_len == utf8_len(text@),
            utf8_len(text@) == 1 + utf8_len(t),
            toks == token_models(tokens@),
            toks == seq![Token::Backtick] + tt + seq![Token::End],
            tt == tokens_of(t),
            t == text@.skip(1),
            text@.len() > 0,
            text@[0] == '`',
            tokens_text(tt) == t,
            forall|j: int| 0 <= j < tt.len() ==> well_formed_token(#[trigger] tt[j]),
            1 <= k <= toks.len(),
            k - 1 <= tt.len(),
            code@ == tokens_text(tt.take(k - 1)),
            t == code@ + tokens_text(tt.skip(k - 1)),
            forall|j: int| 0 <= j < k - 1 ==> #[trigger] tt[j] != Token::Backtick,
            consumed == 1 + utf8_len(code@),
            "`"@ == seq!['`'],
        decreases toks.len() - k,
    {
        let ghost tok = toks[k as int];
        assert(tokens@[k as int]@ == tok);
        proof {
            lemma_utf8_len_concat(code@, tokens_text(tt.skip(k - 1)));
        }
        match &tokens[k] {
            InlineToken::Backtick => {
                let ghost e = code@.len() as int;
                proof {
                    assert(k - 1 < tt.len());
                    assert(tt[k - 1] == Token::Backtick);
                    let rest = tt.skip(k - 1);
                    assert(rest == seq![Token::Backtick] + tt.skip(k as int));
                    lemma_tokens_text_concat(seq![Token::Backtick], tt.skip(k as int));
                    lemma_tokens_text_single(Token::Backtick);
                    let p = tt.take(k - 1);
                    assert forall|j: int| 0 <= j < p.len() implies well_formed_token(#[trigger] p[j]) by {
                        assert(p[j] == tt[j]);
                    }
                    assert forall|j: int| 0 <= j < p.len() implies #[trigger] p[j] != Token::Backtick by {
                        assert(p[j] == tt[j]);
                    }
                    lemma_no_backtick_in_text(p);
                    assert(t[e] == '`');
                    assert(t.subrange(e, e + 1) == seq!['`']);
                    assert(occurs_at(t, "`"@, e));
                    assert forall|j: int| 0 <= j < e implies !occurs_at(t, "`"@, j) by {
                        assert(t[j] == code@[j]);
                        if occurs_at(t, "`"@, j) {
                            assert(t.subrange(j, j + 1)[0] == t[j]);
                        }
                    }
                    lemma_find_is(t, "`"@, e);
                    assert(text@.subrange(1, e + 1) == code@);
                    let after = tokens_text(tt.skip(k as int));
                    lemma_utf8_len_ascii('`');
                    lemma_utf8_len_concat(seq!['`'], after);
                    assert(tokens_text(tt.skip(k - 1)) == seq!['`'] + after);
                    assert(utf8_len(t) == utf8_len(code@) + 1 + utf8_len(after));
                    let taken = text@.take(e + 2);
                    assert(taken == seq!['`'] + (code@ + seq!['`']));
                    lemma_utf8_len_concat(seq!['`'], code@ + seq!['`']);
                    lemma_utf8_len_concat(code@, seq!['`']);
                    assert(utf8_len(taken) == consumed + 1);
                }
                consumed = consumed + 1;
                let ghost code_chars = code@;
                let node = InlineNode::Code(code);
                assert(node@ == Inline::Code(code_chars));
                assert(code_span(text@) == Some((code_chars, e + 2)));
                return Some((node, consumed));
            },
            InlineToken::End => {
                proof {
                    assert(k == toks.len() - 1);
                    assert(tt.take(k - 1) == tt);
                    assert forall|j: int| 0 <= j < tt.len() implies #[trigger] tt[j] != Token::Backtick by {
                        assert(j < k - 1);
                    }
                    lemma_no_backtick_in_text(tt);
                    assert forall|j: int| !occurs_at(t, "`"@, j) by {
                        if occurs_at(t, "`"@, j) {
                            assert(t.subrange(j, j + 1)[0] == t[j]);
                        }
                    }
                    lemma_find_none(t, "`"@);
                }
                return None;
            },
            other => {
                let piece = inline_token_text(other);
                let ghost old_code = code@;
                proof {
                    assert(k - 1 < tt.len());
                    assert(tok == tt[k - 1]);
                    let rest = tt.skip(k - 1);
                    assert(rest == seq![tt[k - 1]] + tt.skip(k as int));
                    lemma_tokens_text_concat(seq![tt[k - 1]], tt.skip(k as int));
                    lemma_tokens_text_single(tt[k - 1]);
                    assert(tt.take(k as int).drop_last() == tt.take(k - 1));
                    assert(tt.take(k as int).last() == tt[k - 1]);
                    lemma_utf8_len_concat(token_text(tt[k - 1]), tokens_text(tt.skip(k as int)));
                    lemma_utf8_len_concat(old_code, token_text(tt[k - 1]));
                }
                let n = inline_token_len(other);
                code.append(piece.as_str());
                consumed = consumed + n;
                proof {
                    assert(code@ == old_code + token_text(tt[k - 1]));
                    assert(t == code@ + tokens_text(tt.skip(k as int)));
                }
                k = k + 1;
            },
        }
    }
    proof {
        assert(k - 1 <= tt.len());
        assert(toks[toks.len() - 1] == Token::End);
    }
    None
}


// ---------------------------------------------------------------------------
// Inline parsing
// ---------------------------------------------------------------------------

/// Characters that can open inline syntax.
pub open spec fn is_inline_delimiter(c: char) -> bool {
    c == '`' || c == '*' || c == '['
}

/// `is_inline_delimiter` as a predicate value.
pub open spec fn inline_delimiter() -> spec_fn(char) -> bool {
    |c: char| is_inline_delimiter(c)
}

/// A text node for `s`, or nothing when `s` is empty.
pub open spec fn text_node(s: Seq<char>) -> Seq<Inline> {
    if s.len() == 0 {
        seq![]
    } else {
        seq![Inline::Text(s)]
    }
}

/// The inline nodes of `r`.
///
/// Text up to the first delimiter stays text. At a backtick comes an inline
/// code span; at `**`, strong emphasis up to the next `**`; at `*`, emphasis
/// up to the next `*`; at `[`, a link `[label](url)` whose label ends at the
/// first `](` and whose url ends at the next `)`. The contents of emphasis,
/// strong emphasis and link labels are parsed again, and parsing goes on
/// after the construct. When the closing part is missing, the delimiter and
/// the rest of the text stay text.
#[verifier::opaque]
pub open spec fn inline_nodes(r: Seq<char>) -> Seq<Inline>
    decreases r.len(),
{
    match first_match(r, inline_delimiter()) {
        None => text_node(r),
        Some(i) => {
            proof {
                lemma_first_match(r, inline_delimiter());
                reveal_strlit("`");
                reveal_strlit("*");
                reveal_strlit("**");
                reveal_strlit("](");
                reveal_strlit(")");
            }
            let at = r.skip(i);
            text_node(r.take(i)) + if at[0] == '`' {
                match code_span(at) {
                    Some((code, n)) => {
                        proof {
                            lemma_find(at.skip(1), "`"@);
                        }
                        seq![Inline::Code(code)] + inline_nodes(at.skip(n))
                    },
                    None => seq![Inline::Text("`"@)] + text_node(at.skip(1)),
                }
            } else if at[0] == '*' {
                if starts_with(at, "**"@) {
                    let inner = at.skip(2);
                    match find(inner, "**"@) {
                        Some(e) => {
                            proof {
                                lemma_find(inner, "**"@);
                            }
                            seq![Inline::Strong(inline_nodes(inner.take(e)))] + inline_nodes(
                                inner.skip(e + 2),
                            )
                        },
                        None => seq![Inline::Text("**"@)] + text_node(inner),
                    }
                } else {
                    let inner = at.skip(1);
                    match find(inner, "*"@) {
                        Some(e) => {
                            proof {
                                lemma_find(inner, "*"@);
                            }
                            seq![Inline::Emphasis(inline_nodes(inner.take(e)))] + inline_nodes(
                                inner.skip(e + 1),
                            )
                        },
                        None => seq![Inline::Text("*"@)] + text_node(inner),
                    }
                }
            } else {
                let inner = at.skip(1);
                match find(inner, "]("@) {
                    Some(l) => {
                        proof {
                            lemma_find(inner, "]("@);
                        }
                        let after = inner.skip(l + 2);
                        match find(after, ")"@) {
                            Some(u) => {
                                proof {
                                    lemma_find(after, ")"@);
                                }
                                seq![
                                    Inline::Link {
                                        label: inline_nodes(inner.take(l)),
                                        url: after.take(u),
                                    },
                                ] + inline_nodes(after.skip(u + 1))
                            },
                            None => seq![Inline::Text("["@)] + text_node(inner),
                        }
                    },
                    None => seq![Inline::Text("["@)] + text_node(inner),
                }
            }
        },
    }
}

/// `inline_nodes` on text without delimiters.
pub proof fn lemma_inline_nodes_plain(r: Seq<char>)
    requires
        first_match(r, inline_delimiter()) is None,
    ensures
        inline_nodes(r) == text_node(r),
{
    reveal(inline_nodes);
}

/// The text before the first delimiter, then the nodes from the delimiter on.
pub proof fn lemma_inline_nodes_at(r: Seq<char>, i: int)
    requires
        first_match(r, inline_delimiter()) == Some(i),
    ensures
        inline_nodes(r) == text_node(r.take(i)) + inline_nodes(r.skip(i)),
{
    lemma_first_match(r, inline_delimiter());
    let at = r.skip(i);
    lemma_first_match_is(at, inline_delimiter(), 0);
    assert(at.skip(0) == at);
    assert(at.take(0).len() == 0);
    assert(text_node(at.take(0)) == Seq::<Inline>::empty());
    reveal(inline_nodes);
    assert(inline_nodes(at) == text_node(at.take(0)) + (inline_nodes(at).skip(0)));
}

/// `inline_nodes` of text starting with a backtick.
pub proof fn lemma_inline_nodes_code(at: Seq<char>)
    requires
        at.len() > 0,
        at[0] == '`',
    ensures
        inline_nodes(at) == match code_span(at) {
            Some((code, n)) => seq![Inline::Code(code)] + inline_nodes(at.skip(n)),
            None => seq![Inline::Text("`"@)] + text_node(at.skip(1)),
        },
{
    lemma_first_match_is(at, inline_delimiter(), 0);
    assert(at.skip(0) == at);
    assert(text_node(at.take(0)) == Seq::<Inline>::empty());
    reveal(inline_nodes);
}

/// `inline_nodes` of text starting with a star.
pub proof fn lemma_inline_nodes_star(at: Seq<char>)
    requires
        at.len() > 0,
        at[0] == '*',
    ensures
        inline_nodes(at) == if starts_with(at, "**"@) {
            let inner = at.skip(2);
            match find(inner, "**"@) {
                Some(e) => seq![Inline::Strong(inline_nodes(inner.take(e)))] + inline_nodes(
                    inner.skip(e + 2),
                ),
                None => seq![Inline::Text("**"@)] + text_node(inner),
            }
        } else {
            let inner = at.skip(1);
            match find(inner, "*"@) {
                Some(e) => seq![Inline::Emphasis(inline_nodes(inner.take(e)))] + inline_nodes(
                    inner.skip(e + 1),
                ),
                None => seq![Inline::Text("*"@)] + text_node(inner),
            }
        },
{
    lemma_first_match_is(at, inline_delimiter(), 0);
    assert(at.skip(0) == at);
    assert(text_node(at.take(0)) == Seq::<Inline>::empty());
    reveal(inline_nodes);
}

/// `inline_nodes` of text starting with an opening bracket.
pub proof fn lemma_inline_nodes_link(at: Seq<char>)
    requires
        at.len() > 0,
        at[0] == '[',
    ensures
        inline_nodes(at) == {
            let inner = at.skip(1);
            match find(inner, "]("@) {
                Some(l) => {
                    let after = inner.skip(l + 2);
                    match find(after, ")"@) {
                        Some(u) => seq![
                            Inline::Link { label: inline_nodes(inner.take(l)), url: after.take(u) },
                        ] + inline_nodes(after.skip(u + 1)),
                        None => seq![Inline::Text("["@)] + text_node(inner),
                    }
                },
                None => seq![Inline::Text("["@)] + text_node(inner),
            }
        },
{
    lemma_first_match_is(at, inline_delimiter(), 0);
    assert(at.skip(0) == at);
    assert(text_node(at.take(0)) == Seq::<Inline>::empty());
    reveal(inline_nodes);
}

/// Text without inline delimiters is a single text node (or nothing, when
/// it is empty).
pub proof fn law_plain_text_is_one_node(s: Seq<char>)
    requires
        forall|j: int| 0 <= j < s.len() ==> !is_inline_delimiter(#[trigger] s[j]),
    ensures
        inline_nodes(s) == text_node(s),
{
    assert forall|j: int| 0 <= j < s.len() implies !inline_delimiter()(#[trigger] s[j]) by {}
    lemma_first_match_none(s, inline_delimiter());
    lemma_inline_nodes_plain(s);
}

/// The Markdown source an inline node stands for.
pub open spec fn node_source(n: Inline) -> Seq<char>
    decreases n,
{
    match n {
        Inline::Text(s) => s,
        Inline::Code(c) => "`"@ + c + "`"@,
        Inline::Emphasis(children) => "*"@ + nodes_source(children) + "*"@,
        Inline::Strong(children) => "**"@ + nodes_source(children) + "**"@,
        Inline::Link { label, url } => "["@ + nodes_source(label) + "]("@ + url + ")"@,
    }
}

/// The Markdown source a sequence of inline nodes stands for.
pub open spec fn nodes_source(ns: Seq<Inline>) -> Seq<char>
    decreases ns,
{
    if ns.len() == 0 {
        seq![]
    } else {
        nodes_source(ns.drop_last()) + node_source(ns.last())
    }
}

proof fn lemma_nodes_source_concat(a: Seq<Inline>, b: Seq<Inline>)
    ensures
        nodes_source(a + b) == nodes_source(a) + nodes_source(b),
    decreases b.len(),
{
    if b.len() == 0 {
        assert(a + b == a);
    } else {
        lemma_nodes_source_concat(a, b.drop_last());
        assert((a + b).drop_last() == a + b.drop_last());
    }
}

proof fn lemma_nodes_source_single(n: Inline)
    ensures
        nodes_source(seq![n]) == node_source(n),
{
    assert(seq![n].drop_last() == Seq::<Inline>::empty());
    assert(seq![n].last() == n);
    assert(nodes_source(Seq::<Inline>::empty()) == Seq::<char>::empty());
    assert(Seq::<char>::empty() + node_source(n) == node_source(n));
}

proof fn lemma_text_node_source(s: Seq<char>)
    ensures
        nodes_source(text_node(s)) == s,
{
    if s.len() > 0 {
        lemma_nodes_source_single(Inline::Text(s));
    } else {
        assert(s == Seq::<char>::empty());
    }
}

/// `nodes_source` of one node followed by more nodes.
proof fn lemma_nodes_source_cons(n: Inline, rest: Seq<Inline>)
    ensures
        nodes_source(seq![n] + rest) == node_source(n) + nodes_source(rest),
{
    lemma_nodes_source_concat(seq![n], rest);
    lemma_nodes_source_single(n);
}

/// Writing back the nodes of text that starts with a backtick gives the text.
proof fn lemma_source_code(at: Seq<char>)
    requires
        at.len() > 0,
        at[0] == '`',
    ensures
        nodes_source(inline_nodes(at)) == at,
    decreases at.len(), 0int,
{
    reveal_strlit("`");
    lemma_inline_nodes_code(at);
    match code_span(at) {
        Some((code, n)) => {
            let inner = at.skip(1);
            lemma_find(inner, "`"@);
            let e = n - 2;
            assert(inner.subrange(e, e + 1) == seq!['`']);
            let rest = at.skip(n);
            law_inline_source(rest);
            lemma_nodes_source_cons(Inline::Code(code), inline_nodes(rest));
            assert(at =~= seq!['`'] + code + seq!['`'] + rest) by {
                assert(inner[e] == inner.subrange(e, e + 1)[0]);
            }
        },
        None => {
            lemma_nodes_source_cons(Inline::Text("`"@), text_node(at.skip(1)));
            lemma_text_node_source(at.skip(1));
            assert(at =~= seq!['`'] + at.skip(1));
        },
    }
}

/// Writing back the nodes of text that starts with a star gives the text.
proof fn lemma_source_star(at: Seq<char>)
    requires
        at.len() > 0,
        at[0] == '*',
    ensures
        nodes_source(inline_nodes(at)) == at,
    decreases at.len(), 0int,
{
    reveal_strlit("*");
    reveal_strlit("**");
    lemma_inline_nodes_star(at);
    if starts_with(at, "**"@) {
        let inner = at.skip(2);
        assert(at =~= seq!['*', '*'] + inner) by {
            assert(at[1] == at.take(2)[1]);
        }
        match find(inner, "**"@) {
            Some(e) => {
                lemma_find(inner, "**"@);
                let content = inner.take(e);
                let rest = inner.skip(e + 2);
                law_inline_source(content);
                law_inline_source(rest);
                let node = Inline::Strong(inline_nodes(content));
                lemma_nodes_source_cons(node, inline_nodes(rest));
                assert(inner =~= content + seq!['*', '*'] + rest) by {
                    assert(inner[e] == inner.subrange(e, e + 2)[0]);
                    assert(inner[e + 1] == inner.subrange(e, e + 2)[1]);
                }
            },
            None => {
                lemma_nodes_source_cons(Inline::Text("**"@), text_node(inner));
                lemma_text_node_source(inner);
            },
        }
    } else {
        let inner = at.skip(1);
        assert(at =~= seq!['*'] + inner);
        match find(inner, "*"@) {
            Some(e) => {
                lemma_find(inner, "*"@);
                let content = inner.take(e);
                let rest = inner.skip(e + 1);
                law_inline_source(content);
                law_inline_source(rest);
                let node = Inline::Emphasis(inline_nodes(content));
                lemma_nodes_source_cons(node, inline_nodes(rest));
                assert(inner =~= content + seq!['*'] + rest) by {
                    assert(inner[e] == inner.subrange(e, e + 1)[0]);
                }
            },
            None => {
                lemma_nodes_source_cons(Inline::Text("*"@), text_node(inner));
                lemma_text_node_source(inner);
            },
        }
    }
}

/// Writing back the nodes of text that starts with a bracket gives the text.
proof fn lemma_source_link(at: Seq<char>)
    requires
        at.len() > 0,
        at[0] == '[',
    ensures
        nodes_source(inline_nodes(at)) == at,
    decreases at.len(), 0int,
{
    reveal_strlit("[");
    reveal_strlit("](");
    reveal_strlit(")");
    lemma_inline_nodes_link(at);
    let inner = at.skip(1);
    assert(at =~= seq!['['] + inner);
    let mut closed = false;
    match find(inner, "]("@) {
        Some(l) => {
            lemma_find(inner, "]("@);
            let after = inner.skip(l + 2);
            match find(after, ")"@) {
                Some(u) => {
                    lemma_find(after, ")"@);
                    closed = true;
                    let label = inner.take(l);
                    let url = after.take(u);
                    let rest = after.skip(u + 1);
                    law_inline_source(label);
                    law_inline_source(rest);
                    let node = Inline::Link { label: inline_nodes(label), url };
                    lemma_nodes_source_cons(node, inline_nodes(rest));
                    assert(inner =~= label + seq![']', '('] + after) by {
                        assert(inner[l] == inner.subrange(l, l + 2)[0]);
                        assert(inner[l + 1] == inner.subrange(l, l + 2)[1]);
                    }
                    assert(after =~= url + seq![')'] + rest) by {
                        assert(after[u] == after.subrange(u, u + 1)[0]);
                    }
                },
                None => {},
            }
        },
        None => {},
    }
    if !closed {
        lemma_nodes_source_cons(Inline::Text("["@), text_node(inner));
        lemma_text_node_source(inner);
    }
}

/// Parsing loses nothing: writing the inline nodes of a text back out as
/// Markdown (text as it is, code between backticks, emphasis between `*`,
/// strong emphasis between `**`, links as `[label](url)`) gives the text
/// again.
pub proof fn law_inline_source(r: Seq<char>)
    ensures
        nodes_source(inline_nodes(r)) == r,
    decreases r.len(), 1int,
{
    lemma_first_match(r, inline_delimiter());
    match first_match(r, inline_delimiter()) {
        None => {
            lemma_inline_nodes_plain(r);
            lemma_text_node_source(r);
        },
        Some(i) => {
            let at = r.skip(i);
            lemma_inline_nodes_at(r, i);
            if at[0] == '`' {
                lemma_source_code(at);
            } else if at[0] == '*' {
                lemma_source_star(at);
            } else {
                lemma_source_link(at);
            }
            lemma_nodes_source_concat(text_node(r.take(i)), inline_nodes(at));
            lemma_text_node_source(r.take(i));
            assert(r =~= r.take(i) + at);
        },
    }
}

/// A backtick closed by a later backtick makes an inline code span of
/// exactly the characters between the two, whatever they are (other
/// delimiters among them stay characters of the code); parsing goes on after
/// the closing backtick.
pub proof fn law_code_span(code: Seq<char>, rest: Seq<char>)
    requires
        forall|j: int| 0 <= j < code.len() ==> #[trigger] code[j] != '`',
    ensures
        code_span("`"@ + code + "`"@ + rest) == Some((code, code.len() + 2int)),
        inline_nodes("`"@ + code + "`"@ + rest) == seq![Inline::Code(code)] + inline_nodes(rest),
{
    reveal_strlit("`");
    let t = "`"@ + code + "`"@ + rest;
    assert(t.skip(1) =~= code + "`"@ + rest);
    lemma_find_after(code, "`"@, rest);
    assert(t.subrange(1, code.len() + 1int) =~= code);
    assert(t.skip(code.len() + 2int) =~= rest);
    lemma_inline_nodes_code(t);
}

/// A backtick that no later backtick closes stays text, and so does all
/// that follows it.
pub proof fn law_unclosed_code_span(tail: Seq<char>)
    requires
        forall|j: int| 0 <= j < tail.len() ==> #[trigger] tail[j] != '`',
    ensures
        code_span("`"@ + tail) is None,
        inline_nodes("`"@ + tail) == seq![Inline::Text("`"@)] + text_node(tail),
{
    reveal_strlit("`");
    let t = "`"@ + tail;
    assert(t.skip(1) =~= tail);
    assert forall|j: int| !occurs_at(tail, "`"@, j) by {
        if occurs_at(tail, "`"@, j) {
            assert(tail.subrange(j, j + 1)[0] == tail[j]);
        }
    }
    lemma_find_none(tail, "`"@);
    lemma_inline_nodes_code(t);
}

/// Text between `**` and the next `**` is strong emphasis of its inline
/// nodes; parsing goes on after the closing `**`.
pub proof fn law_strong(inner: Seq<char>, rest: Seq<char>)
    requires
        forall|j: int| 0 <= j < inner.len() ==> #[trigger] inner[j] != '*',
    ensures
        inline_nodes("**"@ + inner + "**"@ + rest) == seq![Inline::Strong(inline_nodes(inner))]
            + inline_nodes(rest),
{
    reveal_strlit("**");
    let at = "**"@ + inner + "**"@ + rest;
    assert(at.take(2) =~= "**"@);
    assert(at.skip(2) =~= inner + "**"@ + rest);
    lemma_find_after(inner, "**"@, rest);
    let after = inner + "**"@ + rest;
    assert(after.take(inner.len() as int) =~= inner);
    assert(after.skip(inner.len() + 2int) =~= rest);
    lemma_inline_nodes_star(at);
}

/// Text between a single `*` and the next `*` is emphasis of its inline
/// nodes; parsing goes on after the closing `*`.
pub proof fn law_emphasis(inner: Seq<char>, rest: Seq<char>)
    requires
        inner.len() > 0,
        forall|j: int| 0 <= j < inner.len() ==> #[trigger] inner[j] != '*',
    ensures
        inline_nodes("*"@ + inner + "*"@ + rest) == seq![Inline::Emphasis(inline_nodes(inner))]
            + inline_nodes(rest),
{
    reveal_strlit("*");
    reveal_strlit("**");
    let at = "*"@ + inner + "*"@ + rest;
    assert(!starts_with(at, "**"@)) by {
        if starts_with(at, "**"@) {
            assert(at.take(2)[1] == at[1]);
            assert(at[1] == inner[0]);
        }
    }
    assert(at.skip(1) =~= inner + "*"@ + rest);
    lemma_find_after(inner, "*"@, rest);
    let after = inner + "*"@ + rest;
    assert(after.take(inner.len() as int) =~= inner);
    assert(after.skip(inner.len() + 1int) =~= rest);
    lemma_inline_nodes_star(at);
}

/// `[label](url)` is a link whose label is the inline nodes of `label` and
/// whose url is `url` exactly as written; parsing goes on after the `)`.
pub proof fn law_link(label: Seq<char>, url: Seq<char>, rest: Seq<char>)
    requires
        forall|j: int| 0 <= j < label.len() ==> #[trigger] label[j] != ']',
        forall|j: int| 0 <= j < url.len() ==> #[trigger] url[j] != ')',
    ensures
        inline_nodes("["@ + label + "]("@ + url + ")"@ + rest) == seq![
            Inline::Link { label: inline_nodes(label), url },
        ] + inline_nodes(rest),
{
    reveal_strlit("[");
    reveal_strlit("](");
    reveal_strlit(")");
    let at = "["@ + label + "]("@ + url + ")"@ + rest;
    let inner = at.skip(1);
    let after = url + ")"@ + rest;
    assert(inner =~= label + "]("@ + after);
    lemma_find_after(label, "]("@, after);
    assert(inner.take(label.len() as int) =~= label);
    assert(inner.skip(label.len() + 2int) =~= after);
    lemma_find_after(url, ")"@, rest);
    assert(after.take(url.len() as int) =~= url);
    assert(after.skip(url.len() + 1int) =~= rest);
    assert(at[0] == '[');
    lemma_inline_nodes_link(at);
}

/// Text up to the first delimiter is one text node, and the nodes of what
/// starts at the delimiter follow it.
pub proof fn law_text_before_delimiter(prefix: Seq<char>, rest: Seq<char>)
    requires
        forall|j: int| 0 <= j < prefix.len() ==> !is_inline_delimiter(#[trigger] prefix[j]),
        rest.len() > 0,
        is_inline_delimiter(rest[0]),
    ensures
        inline_nodes(prefix + rest) == text_node(prefix) + inline_nodes(rest),
{
    let r = prefix + rest;
    let n = prefix.len() as int;
    assert(r[n] == rest[0]);
    assert forall|j: int| 0 <= j < n implies !inline_delimiter()(#[trigger] r[j]) by {
        assert(r[j] == prefix[j]);
    }
    lemma_first_match_is(r, inline_delimiter(), n);
    lemma_inline_nodes_at(r, n);
    assert(r.take(n) =~= prefix);
    assert(r.skip(n) =~= rest);
}

/// An opening `**`, `*` or `[` that nothing closes stays text, and so does
/// all that follows it.
pub proof fn law_unclosed_delimiters(tail: Seq<char>)
    requires
        forall|j: int| 0 <= j < tail.len() ==> #[trigger] tail[j] != '*' && tail[j] != ']',
    ensures
        inline_nodes("**"@ + tail) == seq![Inline::Text("**"@)] + text_node(tail),
        inline_nodes("*"@ + tail) == seq![Inline::Text("*"@)] + text_node(tail),
        inline_nodes("["@ + tail) == seq![Inline::Text("["@)] + text_node(tail),
{
    reveal_strlit("**");
    reveal_strlit("*");
    reveal_strlit("[");
    reveal_strlit("](");
    let s2 = "**"@ + tail;
    let s1 = "*"@ + tail;
    let sb = "["@ + tail;
    assert(s2.take(2) =~= "**"@);
    assert(s2.skip(2) =~= tail);
    assert(s1.skip(1) =~= tail);
    assert(sb.skip(1) =~= tail);
    assert forall|j: int| !occurs_at(tail, "**"@, j) by {
        if occurs_at(tail, "**"@, j) {
            assert(tail.subrange(j, j + 2)[0] == tail[j]);
        }
    }
    lemma_find_none(tail, "**"@);
    assert forall|j: int| !occurs_at(tail, "*"@, j) by {
        if occurs_at(tail, "*"@, j) {
            assert(tail.subrange(j, j + 1)[0] == tail[j]);
        }
    }
    lemma_find_none(tail, "*"@);
    assert forall|j: int| !occurs_at(tail, "]("@, j) by {
        if occurs_at(tail, "]("@, j) {
            assert(tail.subrange(j, j + 2)[0] == tail[j]);
        }
    }
    lemma_find_none(tail, "]("@);
    assert(!starts_with(s1, "**"@)) by {
        if starts_with(s1, "**"@) {
            assert(s1.take(2)[1] == s1[1]);
            assert(s1[1] == tail[0]);
        }
    }
    assert(s2[0] == '*' && s1[0] == '*' && sb[0] == '[');
    lemma_inline_nodes_star(s2);
    lemma_inline_nodes_star(s1);
    lemma_inline_nodes_link(sb);
}

/// The position and character of the first inline delimiter in `text`.
pub(crate) fn find_next_inline_delimiter(text: &[char]) -> (r: Option<(usize, char)>)
    ensures
        match r {
            Some((i, c)) => first_match(text@, inline_delimiter()) == Some(i as int) && c
                == text@[i as int],
            None => first_match(text@, inline_delimiter()) is None,
        },
{
    let mut i: usize = 0;
    while i < text.len()
        invariant
            i <= text@.len(),
            forall|j: int| 0 <= j < i ==> !inline_delimiter()(#[trigger] text@[j]),
        decreases text@.len() - i,
    {
        let c = text[i];
        if c == '`' || c == '*' || c == '[' {
            proof {
                lemma_first_match_is(text@, inline_delimiter(), i as int);
            }
            return Some((i, c));
        }
        i = i + 1;
    }
    proof {
        lemma_first_match_none(text@, inline_delimiter());
    }
    None
}

/// Parses a line of text into inline nodes.
pub fn parse_inline_nodes(text: &str) -> (nodes: Vec<InlineNode>)
    ensures
        nodes_model(nodes@) == inline_nodes(text@),
{
    let chars = chars_of(text);
    parse_inline_chars(chars.as_slice())
}

/// A text node holding the given characters.
fn text_node_of(s: &[char]) -> (node: InlineNode)
    ensures
        node@ == Inline::Text(s@),
{
    InlineNode::Text(string_of(s))
}

/// What follows the nodes of a construct: the nodes of the rest of the text
/// after `next` characters, or nothing when the rest was kept as text.
pub open spec fn continue_after(at: Seq<char>, next: Option<usize>) -> Seq<Inline> {
    match next {
        Some(k) => inline_nodes(at.skip(k as int)),
        None => seq![],
    }
}

/// The contract of the parsers of one construct: its nodes, followed by what
/// comes after it, are the nodes of `at`.
pub open spec fn parses_construct(at: Seq<char>, piece: Seq<InlineNode>, next: Option<usize>) -> bool {
    &&& nodes_model(piece) + continue_after(at, next) == inline_nodes(at)
    &&& next matches Some(k) ==> 1 <= k <= at.len()
}

/// The nodes of an unclosed construct: the delimiter text, then the rest as
/// text.
fn unclosed(delimiter: String, rest: &[char]) -> (piece: Vec<InlineNode>)
    ensures
        nodes_model(piece@) == seq![Inline::Text(delimiter@)] + text_node(rest@),
        nodes_model(piece@) + continue_after(rest@, None) == nodes_model(piece@),
{
    let mut piece: Vec<InlineNode> = Vec::new();
    let first = InlineNode::Text(delimiter);
    proof {
        lemma_nodes_model_push(piece@, first);
    }
    piece.push(first);
    if rest.len() > 0 {
        let node = text_node_of(rest);
        proof {
            lemma_nodes_model_push(piece@, node);
        }
        piece.push(node);
    }
    assert(nodes_model(piece@) + Seq::<Inline>::empty() == nodes_model(piece@));
    piece
}

/// A single node as a sequence.
fn single(node: InlineNode) -> (piece: Vec<InlineNode>)
    ensures
        nodes_model(piece@) == seq![node@],
{
    let mut piece: Vec<InlineNode> = Vec::new();
    proof {
        lemma_nodes_model_push(piece@, node);
    }
    piece.push(node);
    piece
}

/// Parses the inline code span that starts `at`.
fn parse_code_at(at: &[char]) -> (r: (Vec<InlineNode>, Option<usize>))
    requires
        at@.len() > 0,
        at@[0] == '`',
    ensures
        parses_construct(at@, r.0@, r.1),
    decreases at@.len(), 0int,
{
    proof {
        lemma_inline_nodes_code(at@);
        reveal_strlit("`");
    }
    let at_len = at.len();
    let text = string_of(at);
    match render_inline_code_from_tokens(text.as_str()) {
        Some((node, _)) => {
            proof {
                lemma_find(at@.skip(1), "`"@);
            }
            let consumed = match &node {
                InlineNode::Code(code) => code.as_str().unicode_len() + 2,
                _ => 0,
            };
            let piece = single(node);
            assert(nodes_model(piece@) + continue_after(at@, Some(consumed)) == inline_nodes(at@));
            (piece, Some(consumed))
        },
        None => {
            let rest = &at[1..at.len()];
            let d = string_of_char('`');
            assert(d@ == "`"@);
            assert(rest@ == at@.skip(1));
            let piece = unclosed(d, rest);
            assert(nodes_model(piece@) == inline_nodes(at@));
            (piece, None)
        },
    }
}

/// Parses the emphasis or strong emphasis that starts `at`.
fn parse_star_at(at: &[char]) -> (r: (Vec<InlineNode>, Option<usize>))
    requires
        at@.len() > 0,
        at@[0] == '*',
    ensures
        parses_construct(at@, r.0@, r.1),
    decreases at@.len(), 0int,
{
    proof {
        lemma_inline_nodes_star(at@);
        reveal_strlit("*");
        reveal_strlit("**");
    }
    if has_prefix(at, "**") {
        let inner = &at[2..at.len()];
        assert(inner@ == at@.skip(2));
        match find_str(inner, "**") {
            Some(e) => {
                proof {
                    lemma_find(inner@, "**"@);
                    assert(inner@.subrange(0, e as int) == inner@.take(e as int));
                    assert(inner@.skip(e + 2) == at@.skip(2 + e + 2));
                }
                let children = parse_inline_chars(&inner[0..e]);
                let piece = single(InlineNode::Strong(children));
                assert(nodes_model(piece@) + continue_after(at@, Some((2 + e + 2) as usize)) == inline_nodes(at@));
                (piece, Some(2 + e + 2))
            },
            None => {
                let mut d = string_of_char('*');
                d.append("*");
                assert(d@ == "**"@);
                assert(inner@ == at@.skip(2));
                let piece = unclosed(d, inner);
                assert(nodes_model(piece@) == inline_nodes(at@));
                (piece, None)
            },
        }
    } else {
        let inner = &at[1..at.len()];
        assert(inner@ == at@.skip(1));
        match find_str(inner, "*") {
            Some(e) => {
                proof {
                    lemma_find(inner@, "*"@);
                    assert(inner@.subrange(0, e as int) == inner@.take(e as int));
                    assert(inner@.skip(e + 1) == at@.skip(1 + e + 1));
                }
                let children = parse_inline_chars(&inner[0..e]);
                let piece = single(InlineNode::Emphasis(children));
                assert(nodes_model(piece@) + continue_after(at@, Some((1 + e + 1) as usize)) == inline_nodes(at@));
                (piece, Some(1 + e + 1))
            },
            None => {
                let d = string_of_char('*');
                assert(d@ == "*"@);
                assert(inner@ == at@.skip(1));
                let piece = unclosed(d, inner);
                assert(nodes_model(piece@) == inline_nodes(at@));
                (piece, None)
            },
        }
    }
}

/// Parses the link that starts `at`.
fn parse_link_at(at: &[char]) -> (r: (Vec<InlineNode>, Option<usize>))
    requires
        at@.len() > 0,
        at@[0] == '[',
    ensures
        parses_construct(at@, r.0@, r.1),
    decreases at@.len(), 0int,
{
    proof {
        lemma_inline_nodes_link(at@);
        reveal_strlit("](");
        reveal_strlit(")");
        reveal_strlit("[");
    }
    let inner = &at[1..at.len()];
    assert(inner@ == at@.skip(1));
    if let Some(l) = find_str(inner, "](") {
        proof {
            lemma_find(inner@, "]("@);
        }
        let after = &inner[l + 2..inner.len()];
        assert(after@ == inner@.skip(l + 2));
        if let Some(u) = find_str(after, ")") {
            proof {
                lemma_find(after@, ")"@);
                assert(inner@.subrange(0, l as int) == inner@.take(l as int));
                assert(after@.subrange(0, u as int) == after@.take(u as int));
                assert(after@.skip(u + 1) == at@.skip(1 + l + 2 + u + 1));
            }
            let label = parse_inline_chars(&inner[0..l]);
            let url = string_of(&after[0..u]);
            return (single(InlineNode::Link { label, url }), Some(1 + l + 2 + u + 1));
        }
    }
    let d = string_of_char('[');
    assert(d@ == seq!['[']);
    assert("["@ == seq!['[']);
    assert(inner@ == at@.skip(1));
    let piece = unclosed(d, inner);
    assert(nodes_model(piece@) == seq![Inline::Text("["@)] + text_node(at@.skip(1)));
    assert(match find(inner@, "]("@) {
        Some(l) => find(inner@.skip(l + 2), ")"@) is None,
        None => true,
    });
    assert(nodes_model(piece@) == inline_nodes(at@));
    (piece, None)
}

/// `parse_inline_nodes` on a sequence of characters.
pub(crate) fn parse_inline_chars(text: &[char]) -> (nodes: Vec<InlineNode>)
    ensures
        nodes_model(nodes@) == inline_nodes(text@),
    decreases text@.len(), 1int,
{
    let n = text.len();
    let mut nodes: Vec<InlineNode> = Vec::new();
    let mut pos: usize = 0;
    assert(text@.skip(0) == text@);
    loop
        invariant
            n == text@.len(),
            pos <= n,
            nodes_model(nodes@) + inline_nodes(text@.skip(pos as int)) == inline_nodes(text@),
        decreases n - pos,
    {
        let rem = &text[pos..n];
        let ghost r = rem@;
        assert(r == text@.skip(pos as int));
        let ghost prior = nodes_model(nodes@);
        match find_next_inline_delimiter(rem) {
            None => {
                proof {
                    lemma_inline_nodes_plain(r);
                }
                if pos < n {
                    let node = text_node_of(rem);
                    proof {
                        lemma_nodes_model_push(nodes@, node);
                    }
                    nodes.push(node);
                }
                assert(nodes_model(nodes@) == prior + text_node(r));
                return nodes;
            },
            Some((start, d)) => {
                proof {
                    lemma_first_match(r, inline_delimiter());
                    lemma_inline_nodes_at(r, start as int);
                }
                if start > 0 {
                    let node = text_node_of(&rem[0..start]);
                    proof {
                        lemma_nodes_model_push(nodes@, node);
                    }
                    nodes.push(node);
                }
                let ghost with_before = nodes_model(nodes@);
                assert(with_before == prior + text_node(r.take(start as int)));
                let at = &rem[start..rem.len()];
                assert(at@ == r.skip(start as int));
                let (mut piece, next) = if d == '`' {
                    parse_code_at(at)
                } else if d == '*' {
                    parse_star_at(at)
                } else {
                    parse_link_at(at)
                };
                let ghost piece_model = nodes_model(piece@);
                proof {
                    lemma_nodes_model_append(nodes@, piece@);
                }
                nodes.append(&mut piece);
                assert(nodes_model(nodes@) == with_before + piece_model);
                match next {
                    Some(k) => {
                        assert(at@.skip(k as int) == text@.skip(pos + start + k));
                        pos = pos + start + k;
                    },
                    None => {
                        return nodes;
                    },
                }
            },
        }
    }
}

} // verus!
