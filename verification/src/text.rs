//! Character-sequence helpers shared by the block parser, the inline parser
//! and the HTML renderers: searching for patterns, testing prefixes, and
//! moving between `&str`/`String` values and vectors of characters.
use vstd::prelude::*;
use vstd::utf8::encode_utf8;

verus! {

broadcast use vstd::string::group_string_axioms;

/// `s` begins with `prefix`.
pub open spec fn starts_with(s: Seq<char>, prefix: Seq<char>) -> bool {
    prefix.len() <= s.len() && s.take(prefix.len() as int) == prefix
}

/// `pat` occurs in `s` starting at position `i`.
pub open spec fn occurs_at(s: Seq<char>, pat: Seq<char>, i: int) -> bool {
    0 <= i && i + pat.len() <= s.len() && s.subrange(i, i + pat.len()) == pat
}

/// The first position at or after `i` where `pat` occurs in `s`.
pub open spec fn find_from(s: Seq<char>, pat: Seq<char>, i: int) -> Option<int>
    decreases s.len() - i,
{
    if i < 0 || i >= s.len() || i + pat.len() > s.len() {
        None
    } else if occurs_at(s, pat, i) {
        Some(i)
    } else {
        find_from(s, pat, i + 1)
    }
}

/// The first position where the (non-empty) pattern `pat` occurs in `s`,
/// as `str::find` reports it, counted in characters.
pub open spec fn find(s: Seq<char>, pat: Seq<char>) -> Option<int> {
    find_from(s, pat, 0)
}

/// What `find_from` returns: the first occurrence at or after `i`.
pub proof fn lemma_find_from(s: Seq<char>, pat: Seq<char>, i: int)
    requires
        0 <= i,
        pat.len() > 0,
    ensures
        match find_from(s, pat, i) {
            Some(k) => i <= k && occurs_at(s, pat, k) && forall|j: int|
                i <= j < k ==> !occurs_at(s, pat, j),
            None => forall|j: int| i <= j ==> !occurs_at(s, pat, j),
        },
    decreases s.len() - i,
{
    if i < 0 || i >= s.len() || i + pat.len() > s.len() {
    } else if occurs_at(s, pat, i) {
    } else {
        lemma_find_from(s, pat, i + 1);
        assert forall|j: int| i <= j < i + 1 implies !occurs_at(s, pat, j) by {}
    }
}

/// `find` returns the first occurrence of the pattern, or nothing when the
/// pattern does not occur.
pub proof fn lemma_find(s: Seq<char>, pat: Seq<char>)
    requires
        pat.len() > 0,
    ensures
        match find(s, pat) {
            Some(k) => occurs_at(s, pat, k) && forall|j: int| 0 <= j < k ==> !occurs_at(s, pat, j),
            None => forall|j: int| !occurs_at(s, pat, j),
        },
{
    lemma_find_from(s, pat, 0);
}

/// The first occurrence determines `find`.
pub proof fn lemma_find_is(s: Seq<char>, pat: Seq<char>, k: int)
    requires
        pat.len() > 0,
        occurs_at(s, pat, k),
        forall|j: int| 0 <= j < k ==> !occurs_at(s, pat, j),
    ensures
        find(s, pat) == Some(k),
{
    lemma_find(s, pat);
    match find(s, pat) {
        Some(k2) => {
            if k2 < k {
            } else if k < k2 {
            }
        },
        None => {},
    }
}

/// A pattern that occurs nowhere is not found.
pub proof fn lemma_find_none(s: Seq<char>, pat: Seq<char>)
    requires
        pat.len() > 0,
        forall|j: int| !occurs_at(s, pat, j),
    ensures
        find(s, pat) is None,
{
    lemma_find(s, pat);
}

/// A pattern whose first character does not occur in `a` is first found
/// right after `a`.
pub proof fn lemma_find_after(a: Seq<char>, pat: Seq<char>, b: Seq<char>)
    requires
        pat.len() > 0,
        forall|j: int| 0 <= j < a.len() ==> #[trigger] a[j] != pat[0],
    ensures
        find(a + pat + b, pat) == Some(a.len() as int),
{
    let s = a + pat + b;
    let n = a.len() as int;
    assert(s.subrange(n, n + pat.len()) == pat);
    assert forall|j: int| 0 <= j < n implies !occurs_at(s, pat, j) by {
        if occurs_at(s, pat, j) {
            assert(s.subrange(j, j + pat.len())[0] == s[j]);
            assert(s[j] == a[j]);
        }
    }
    lemma_find_is(s, pat, n);
}

/// The number of bytes in the UTF-8 encoding of `s`: the length `str::len`
/// reports for a string with these characters.
#[verifier::opaque]
pub open spec fn utf8_len(s: Seq<char>) -> nat {
    encode_utf8(s).len()
}

/// The UTF-8 encoding of a concatenation is the concatenation of the
/// encodings.
proof fn lemma_encode_utf8_concat(a: Seq<char>, b: Seq<char>)
    ensures
        encode_utf8(a + b) == encode_utf8(a) + encode_utf8(b),
    decreases a.len(),
{
    if a.len() == 0 {
        assert(a + b == b);
    } else {
        lemma_encode_utf8_concat(a.drop_first(), b);
        assert((a + b).drop_first() == a.drop_first() + b);
        assert((a + b)[0] == a[0]);
    }
}

/// Byte lengths add up over a concatenation.
pub proof fn lemma_utf8_len_concat(a: Seq<char>, b: Seq<char>)
    ensures
        utf8_len(a + b) == utf8_len(a) + utf8_len(b),
{
    reveal(utf8_len);
    lemma_encode_utf8_concat(a, b);
}

/// No characters, no bytes.
pub proof fn lemma_utf8_len_empty()
    ensures
        utf8_len(Seq::<char>::empty()) == 0,
{
    reveal(utf8_len);
}

/// An ASCII character takes one byte.
pub proof fn lemma_utf8_len_ascii(c: char)
    requires
        (c as u32) < 128,
    ensures
        utf8_len(seq![c]) == 1,
{
    reveal(utf8_len);
    assert(seq![c].drop_first() == Seq::<char>::empty());
    assert(encode_utf8(Seq::<char>::empty()) == Seq::<u8>::empty());
}

/// The number of bytes of a string slice, as `str::len` counts them.
pub fn byte_len(s: &str) -> (n: usize)
    ensures
        n == utf8_len(s@),
{
    proof {
        reveal(utf8_len);
    }
    s.as_bytes().len()
}

/// Appends one character to a `String` with `String::push`, which adds the
/// character at the end. The contract claims that the new contents are the
/// old contents followed by `c`.
#[verifier::external_body]
pub(crate) fn push_char(out: &mut String, c: char)
    ensures
        final(out)@ == old(out)@.push(c),
{
    out.push(c);
}

/// Appends a sequence of characters to a `String`.
pub fn push_chars(out: &mut String, s: &[char])
    ensures
        final(out)@ == old(out)@ + s@,
{
    let ghost start = out@;
    let mut i: usize = 0;
    while i < s.len()
        invariant
            i <= s@.len(),
            out@ == start + s@.take(i as int),
        decreases s@.len() - i,
    {
        push_char(out, s[i]);
        i = i + 1;
        assert(s@.take(i as int) == s@.take(i - 1).push(s@[i - 1]));
    }
    assert(s@.take(s@.len() as int) == s@);
}

/// Appends the characters of a string slice to a `String`.
pub fn push_str(out: &mut String, s: &str)
    ensures
        final(out)@ == old(out)@ + s@,
{
    out.append(s);
}

/// A `String` holding exactly the given characters.
pub fn string_of(s: &[char]) -> (r: String)
    ensures
        r@ == s@,
{
    let mut r = String::new();
    push_chars(&mut r, s);
    assert(r@ == Seq::<char>::empty() + s@);
    r
}

/// A `String` holding the single character `c`.
pub fn string_of_char(c: char) -> (r: String)
    ensures
        r@ == seq![c],
{
    let mut r = String::new();
    push_char(&mut r, c);
    r
}

/// The characters of a string slice, in order.
pub fn chars_of(s: &str) -> (v: Vec<char>)
    ensures
        v@ == s@,
{
    let mut v: Vec<char> = Vec::new();
    for c in it: s.chars()
        invariant
            v@ == it.seq().take(it.index()),
            it.seq() == s@,
    {
        v.push(c);
        assert(it.seq().take(it.index() + 1) == it.seq().take(it.index() as int).push(c));
    }
    assert(s@.take(s@.len() as int) == s@);
    v
}

/// `s` begins with the characters of `prefix`.
pub fn has_prefix(s: &[char], prefix: &str) -> (b: bool)
    ensures
        b == starts_with(s@, prefix@),
{
    let n = prefix.unicode_len();
    if n > s.len() {
        return false;
    }
    let mut i: usize = 0;
    while i < n
        invariant
            n == prefix@.len(),
            n <= s@.len(),
            i <= n,
            forall|j: int| 0 <= j < i ==> s@[j] == prefix@[j],
        decreases n - i,
    {
        if s[i] != prefix.get_char(i) {
            assert(s@.take(n as int)[i as int] != prefix@[i as int]);
            return false;
        }
        i = i + 1;
    }
    assert(s@.take(n as int) =~= prefix@);
    true
}

/// The pattern occurs in `s` at position `at`.
fn occurs_here(s: &[char], pat: &[char], at: usize) -> (b: bool)
    requires
        at + pat@.len() <= s@.len(),
    ensures
        b == occurs_at(s@, pat@, at as int),
{
    let n = s.len();
    let mut j: usize = 0;
    while j < pat.len()
        invariant
            n == s@.len(),
            at + pat@.len() <= s@.len(),
            j <= pat@.len(),
            forall|k: int| 0 <= k < j ==> s@[at + k] == pat@[k],
        decreases pat@.len() - j,
    {
        if s[at + j] != pat[j] {
            assert(s@.subrange(at as int, at + pat@.len())[j as int] != pat@[j as int]);
            return false;
        }
        j = j + 1;
    }
    assert(s@.subrange(at as int, at + pat@.len()) =~= pat@);
    true
}

/// The first position where `pat` occurs in `s`, counted in characters.
pub fn find_str(s: &[char], pat: &str) -> (r: Option<usize>)
    requires
        pat@.len() > 0,
    ensures
        match r {
            Some(k) => find(s@, pat@) == Some(k as int),
            None => find(s@, pat@) is None,
        },
{
    let p = chars_of(pat);
    let mut i: usize = 0;
    while i < s.len() && p.len() <= s.len() - i
        invariant
            p@ == pat@,
            p@.len() > 0,
            i <= s@.len(),
            find(s@, pat@) == find_from(s@, pat@, i as int),
        decreases s@.len() - i,
    {
        if occurs_here(s, p.as_slice(), i) {
            return Some(i);
        }
        i = i + 1;
    }
    None
}


/// The first position at or after `i` whose character satisfies `p`.
pub open spec fn first_match_from(s: Seq<char>, p: spec_fn(char) -> bool, i: int) -> Option<int>
    decreases s.len() - i,
{
    if i < 0 || i >= s.len() {
        None
    } else if p(s[i]) {
        Some(i)
    } else {
        first_match_from(s, p, i + 1)
    }
}

/// The first position whose character satisfies `p`.
pub open spec fn first_match(s: Seq<char>, p: spec_fn(char) -> bool) -> Option<int> {
    first_match_from(s, p, 0)
}

/// What `first_match_from` returns: the first matching position at or after `i`.
pub proof fn lemma_first_match_from(s: Seq<char>, p: spec_fn(char) -> bool, i: int)
    requires
        0 <= i,
    ensures
        match first_match_from(s, p, i) {
            Some(k) => i <= k < s.len() && p(s[k]) && forall|j: int| i <= j < k ==> !p(#[trigger] s[j]),
            None => forall|j: int| i <= j < s.len() ==> !p(#[trigger] s[j]),
        },
    decreases s.len() - i,
{
    if i < 0 || i >= s.len() {
    } else if p(s[i]) {
    } else {
        lemma_first_match_from(s, p, i + 1);
    }
}

/// What `first_match` returns: the first matching position.
pub proof fn lemma_first_match(s: Seq<char>, p: spec_fn(char) -> bool)
    ensures
        match first_match(s, p) {
            Some(k) => 0 <= k < s.len() && p(s[k]) && forall|j: int| 0 <= j < k ==> !p(#[trigger] s[j]),
            None => forall|j: int| 0 <= j < s.len() ==> !p(#[trigger] s[j]),
        },
{
    lemma_first_match_from(s, p, 0);
}

/// The first matching position determines `first_match`.
pub proof fn lemma_first_match_is(s: Seq<char>, p: spec_fn(char) -> bool, k: int)
    requires
        0 <= k < s.len(),
        p(s[k]),
        forall|j: int| 0 <= j < k ==> !p(#[trigger] s[j]),
    ensures
        first_match(s, p) == Some(k),
{
    lemma_first_match(s, p);
    match first_match(s, p) {
        Some(k2) => {
            if k2 < k {
                assert(!p(s[k2]));
            } else if k < k2 {
                assert(!p(s[k]));
            }
        },
        None => {
            assert(!p(s[k]));
        },
    }
}

/// Without a matching character, `first_match` finds nothing.
pub proof fn lemma_first_match_none(s: Seq<char>, p: spec_fn(char) -> bool)
    requires
        forall|j: int| 0 <= j < s.len() ==> !p(#[trigger] s[j]),
    ensures
        first_match(s, p) is None,
{
    lemma_first_match(s, p);
    if let Some(k) = first_match(s, p) {
        assert(!p(s[k]));
    }
}

} // verus!
