//! Per-file parsing: the parse result model and the text rules the walker
//! applies to what the grammar yields.

use vstd::prelude::*;

use crate::facts::Visibility;
use crate::lang::{last_index, last_index_of, lemma_last_index_of, Language};
use crate::naming::{normalize_path, spec_normalize_path};
use crate::order::same_text;
use crate::text::{
    char_is_alphanumeric, char_is_whitespace, chars_of, find_text, first_match, has_prefix,
    is_alphanumeric_char, is_whitespace_char, last_match, lemma_first_match, lemma_last_match,
    matches_at, rfind_text, slice_chars, starts_upper, starts_uppercase, starts_with,
    strip_all_prefix, strip_prefix_all, string_of, trim_chars, trim_ws, trim_ws_end, trim_ws_start,
};

verus! {

/// A source file handed to the library. Content arrives in memory; this
/// library never reads a path from disk.
#[derive(Debug, Clone)]
pub struct SourceFile {
    pub org: String,
    pub repo: String,
    /// Repository-relative path.
    pub path: String,
    pub language: Language,
    pub content: String,
}

impl SourceFile {
    pub fn new(org: &str, repo: &str, path: &str, language: Language, content: &str) -> (f: Self)
        ensures
            f.org@ == org@,
            f.repo@ == repo@,
            f.path@ == path@,
            f.language == language,
            f.content@ == content@,
    {
        SourceFile {
            org: org.to_owned(),
            repo: repo.to_owned(),
            path: path.to_owned(),
            language,
            content: content.to_owned(),
        }
    }

    /// The normalized path used in names and evidence.
    pub fn normalized_path(&self) -> (p: String)
        ensures
            p@ == spec_normalize_path(self.path@),
    {
        normalize_path(self.path.as_str())
    }
}

/// A call site awaiting resolution.
#[derive(Debug, Clone, PartialEq, Eq)]
pub struct CallSite {
    /// Qualified name of the callable the site sits in.
    pub caller: String,
    /// Scope key the receiver is resolved in.
    pub scope: String,
    /// The receiver expression's leading identifier, if the call has one.
    pub receiver: Option<String>,
    /// The called function or method's simple name.
    pub callee: String,
    pub line: u32,
}

/// One comment or attribute, with enough context to attribute a mention.
#[derive(Debug, Clone, PartialEq, Eq)]
pub struct CommentText {
    pub text: String,
    pub line: u32,
    /// Qualified name of the innermost declaration enclosing this comment, or
    /// the file when it sits outside every declaration.
    pub owner: String,
    /// Whether the owning declaration is recognized as a test.
    pub owner_is_test: bool,
}

// ---------------------------------------------------------------------------
// Identifiers and call paths
// ---------------------------------------------------------------------------

/// A character an identifier may hold.
pub open spec fn is_ident_char(c: char) -> bool {
    is_alphanumeric_char(c) || c == '_' || c == '$'
}

/// A single bare identifier: no dots, no calls, no operators.
pub open spec fn plain_identifier(s: Seq<char>) -> bool {
    s.len() > 0 && forall|i: int| 0 <= i < s.len() ==> is_ident_char(#[trigger] s[i])
}

fn plain_chars(s: &Vec<char>) -> (r: bool)
    ensures
        r == plain_identifier(s@),
{
    if s.len() == 0 {
        return false;
    }
    let mut i: usize = 0;
    while i < s.len()
        invariant
            i <= s.len(),
            forall|j: int| 0 <= j < i ==> is_ident_char(#[trigger] s@[j]),
        decreases s.len() - i,
    {
        let c = s[i];
        if !(char_is_alphanumeric(c) || c == '_' || c == '$') {
            return false;
        }
        i = i + 1;
    }
    true
}

/// Whether `text` is a single bare identifier.
pub fn is_plain_identifier(text: &str) -> (r: bool)
    ensures
        r == plain_identifier(text@),
{
    plain_chars(&chars_of(text))
}

/// The text split at its last `::`, else at its last `.`.
pub open spec fn split_parts(s: Seq<char>) -> Option<(Seq<char>, Seq<char>)> {
    let k = last_match(s, "::"@);
    if k >= 0 {
        Some((s.take(k), s.skip(k + 2)))
    } else {
        let d = last_index_of(s, '.');
        if d >= 0 {
            Some((s.take(d), s.skip(d + 1)))
        } else {
            None
        }
    }
}

/// A separator inside a receiver path.
pub open spec fn is_path_sep(c: char) -> bool {
    c == '.' || c == ':'
}

/// Every trailing path separator removed.
pub open spec fn strip_trailing_seps(s: Seq<char>) -> Seq<char>
    decreases s.len(),
{
    if s.len() > 0 && is_path_sep(s.last()) {
        strip_trailing_seps(s.drop_last())
    } else {
        s
    }
}

/// The position of the last path separator, or `-1`.
pub open spec fn last_sep_index(s: Seq<char>) -> int
    decreases s.len(),
{
    if s.len() == 0 {
        -1
    } else if is_path_sep(s.last()) {
        s.len() - 1
    } else {
        last_sep_index(s.drop_last())
    }
}

/// The last non-empty segment of a receiver path, if it has one.
pub open spec fn last_segment(h: Seq<char>) -> Option<Seq<char>> {
    let t = strip_trailing_seps(h);
    if t.len() == 0 {
        None
    } else {
        Some(t.skip(last_sep_index(t) + 1))
    }
}

/// `receiver.method` or `Type::method` split into the innermost receiver
/// segment and the called name. Only the last separator matters: `a.b.c()`
/// has receiver `b`, because that is the expression whose type must be
/// recovered.
pub open spec fn spec_split_call_path(s: Seq<char>) -> Option<(Seq<char>, Seq<char>)> {
    match split_parts(s) {
        None => None,
        Some(parts) => {
            let head = parts.0;
            let tail = parts.1;
            let receiver = match last_segment(head) {
                Some(r) => r,
                None => head,
            };
            if plain_identifier(tail) && plain_identifier(receiver) {
                Some((receiver, tail))
            } else {
                None
            }
        },
    }
}

proof fn lemma_last_sep_index(s: Seq<char>)
    ensures
        -1 <= last_sep_index(s) < s.len(),
        last_sep_index(s) >= 0 ==> is_path_sep(s[last_sep_index(s)]),
    decreases s.len(),
{
    if s.len() > 0 && !is_path_sep(s.last()) {
        lemma_last_sep_index(s.drop_last());
    }
}

fn last_segment_chars(h: &Vec<char>) -> (r: Option<Vec<char>>)
    ensures
        match r {
            Some(x) => last_segment(h@) == Some(x@),
            None => last_segment(h@).is_none(),
        },
{
    let mut n: usize = h.len();
    assert(h@.take(n as int) == h@);
    while n > 0 && (h[n - 1] == '.' || h[n - 1] == ':')
        invariant
            n <= h.len(),
            strip_trailing_seps(h@) == strip_trailing_seps(h@.take(n as int)),
        decreases n,
    {
        assert(h@.take(n as int).drop_last() == h@.take(n - 1));
        n = n - 1;
    }
    if n == 0 {
        return None;
    }
    let ghost t = h@.take(n as int);
    let mut k: usize = n;
    assert(t.take(n as int) == t);
    while k > 0 && !(h[k - 1] == '.' || h[k - 1] == ':')
        invariant
            k <= n <= h.len(),
            t == h@.take(n as int),
            last_sep_index(t) == last_sep_index(t.take(k as int)),
        decreases k,
    {
        assert(t.take(k as int).drop_last() == t.take(k - 1));
        k = k - 1;
    }
    proof {
        if k > 0 {
            assert(t.take(k as int).last() == h@[k - 1]);
        }
    }
    let seg = slice_chars(h, k, n);
    assert(seg@ == t.skip(k as int));
    Some(seg)
}

/// Split `receiver.method` or `Type::method` into its head and tail.
pub fn split_call_path(text: &str) -> (r: Option<(String, String)>)
    ensures
        match r {
            Some(p) => spec_split_call_path(text@) == Some((p.0@, p.1@)),
            None => spec_split_call_path(text@).is_none(),
        },
{
    let s = chars_of(text);
    proof {
        lemma_last_match(s@, "::"@);
        reveal_strlit("::");
        lemma_last_index_of(s@, '.');
    }
    let (head, tail) = match rfind_text(&s, "::") {
        Some(k) => (slice_chars(&s, 0, k), slice_chars(&s, k + 2, s.len())),
        None => match last_index(&s, '.') {
            Some(d) => (slice_chars(&s, 0, d), slice_chars(&s, d + 1, s.len())),
            None => {
                return None;
            },
        },
    };
    if !plain_chars(&tail) {
        return None;
    }
    let receiver = match last_segment_chars(&head) {
        Some(r) => r,
        None => head,
    };
    if !plain_chars(&receiver) {
        return None;
    }
    Some((string_of(&receiver), string_of(&tail)))
}

// ---------------------------------------------------------------------------
// White space and visibility
// ---------------------------------------------------------------------------

/// Every white-space run collapsed to a single space, leading and trailing
/// runs dropped (`split_whitespace` joined by spaces).
pub open spec fn spec_collapse_whitespace(s: Seq<char>) -> Seq<char>
    decreases s.len(),
{
    if s.len() == 0 {
        Seq::empty()
    } else {
        let prev = spec_collapse_whitespace(s.drop_last());
        let c = s.last();
        if is_whitespace_char(c) {
            prev
        } else if s.len() >= 2 && is_whitespace_char(s[s.len() - 2]) && prev.len() > 0 {
            prev.push(' ').push(c)
        } else {
            prev.push(c)
        }
    }
}

/// Collapse every white-space run to a single space.
pub fn collapse_whitespace(text: &str) -> (out: String)
    ensures
        out@ == spec_collapse_whitespace(text@),
{
    let s = chars_of(text);
    let mut out: Vec<char> = Vec::new();
    let mut i: usize = 0;
    while i < s.len()
        invariant
            i <= s.len(),
            s@ == text@,
            out@ == spec_collapse_whitespace(s@.take(i as int)),
        decreases s.len() - i,
    {
        let c = s[i];
        proof {
            let t = s@.take(i + 1);
            assert(t.drop_last() == s@.take(i as int));
            assert(t.last() == c);
            if i >= 1 {
                assert(t[t.len() - 2] == s@[i - 1]);
            }
        }
        if char_is_whitespace(c) {
        } else if i >= 1 && char_is_whitespace(s[i - 1]) && out.len() > 0 {
            out.push(' ');
            out.push(c);
        } else {
            out.push(c);
        }
        i = i + 1;
    }
    assert(s@.take(s.len() as int) == s@);
    string_of(&out)
}

/// Python's underscore convention.
pub open spec fn spec_python_visibility(name: Seq<char>) -> Visibility {
    if starts_with(name, "__"@) && !(name.len() >= 2 && name.skip(name.len() - 2) == "__"@) {
        Visibility::Private
    } else if starts_with(name, "_"@) && !starts_with(name, "__"@) {
        Visibility::Crate
    } else {
        Visibility::Public
    }
}

/// Python has no visibility keyword; the underscore prefix is the convention
/// the language's own tooling honors. A dunder (`__init__`) is a protocol
/// hook, not a private helper.
pub fn python_visibility(simple_name: &str) -> (v: Visibility)
    ensures
        v == spec_python_visibility(simple_name@),
{
    let s = chars_of(simple_name);
    proof {
        reveal_strlit("__");
    }
    let ends_dunder = s.len() >= 2 && s[s.len() - 2] == '_' && s[s.len() - 1] == '_';
    proof {
        let n = s@.len();
        assert("__"@.len() == 2 && "__"@[0] == '_' && "__"@[1] == '_');
        if n >= 2 {
            let tail = s@.skip(n - 2);
            assert(tail.len() == 2 && tail[0] == s@[n - 2] && tail[1] == s@[n - 1]);
            if ends_dunder {
                assert(tail =~= "__"@);
            }
        }
    }
    if has_prefix(&s, "__") && !ends_dunder {
        return Visibility::Private;
    }
    if has_prefix(&s, "_") && !has_prefix(&s, "__") {
        return Visibility::Crate;
    }
    Visibility::Public
}

// ---------------------------------------------------------------------------
// Type names
// ---------------------------------------------------------------------------

/// Every leading `&` and `*` removed.
pub open spec fn strip_ref_marks(s: Seq<char>) -> Seq<char>
    decreases s.len(),
{
    if s.len() > 0 && (s[0] == '&' || s[0] == '*') {
        strip_ref_marks(s.drop_first())
    } else {
        s
    }
}

/// Every trailing `?`, `!`, `[` and `]` removed.
pub open spec fn strip_type_suffix(s: Seq<char>) -> Seq<char>
    decreases s.len(),
{
    if s.len() > 0 && (s.last() == '?' || s.last() == '!' || s.last() == '[' || s.last() == ']') {
        strip_type_suffix(s.drop_last())
    } else {
        s
    }
}

/// A type expression with its annotation punctuation, reference marks and
/// `mut`, `dyn`, `impl` and `readonly` prefixes stripped.
pub open spec fn type_core(text: Seq<char>) -> Seq<char> {
    let a = trim_ws(strip_all_prefix(strip_all_prefix(trim_ws(text), "->"@), ":"@));
    let b = trim_ws(strip_ref_marks(a));
    let c = trim_ws(strip_all_prefix(b, "mut "@));
    let d = trim_ws(strip_all_prefix(c, "dyn "@));
    let e = trim_ws(strip_all_prefix(d, "impl "@));
    trim_ws(strip_all_prefix(e, "readonly "@))
}

/// A bare type path reduced to its last segment, when that is a type-cased
/// identifier.
pub open spec fn spec_simplify_bare(text: Seq<char>) -> Option<Seq<char>> {
    let k = last_match(text, "::"@);
    let a = if k >= 0 {
        text.skip(k + 2)
    } else {
        text
    };
    let d = last_index_of(a, '.');
    let b = if d >= 0 {
        a.skip(d + 1)
    } else {
        a
    };
    let last = strip_type_suffix(trim_ws(b));
    if last.len() == 0 || !plain_identifier(last) || !starts_upper(last) {
        None
    } else {
        Some(last)
    }
}

pub proof fn lemma_trim_shortens(s: Seq<char>)
    ensures
        trim_ws(s).len() <= s.len(),
        trim_ws_start(s).len() <= s.len(),
    decreases s.len(),
{
    lemma_trim_start_shortens(s);
    lemma_trim_end_shortens(trim_ws_start(s));
}

pub proof fn lemma_trim_start_shortens(s: Seq<char>)
    ensures
        trim_ws_start(s).len() <= s.len(),
    decreases s.len(),
{
    if s.len() > 0 && is_whitespace_char(s[0]) {
        lemma_trim_start_shortens(s.drop_first());
    }
}

pub proof fn lemma_trim_end_shortens(s: Seq<char>)
    ensures
        trim_ws_end(s).len() <= s.len(),
    decreases s.len(),
{
    if s.len() > 0 && is_whitespace_char(s.last()) {
        lemma_trim_end_shortens(s.drop_last());
    }
}

pub proof fn lemma_strip_ref_marks_shortens(s: Seq<char>)
    ensures
        strip_ref_marks(s).len() <= s.len(),
    decreases s.len(),
{
    if s.len() > 0 && (s[0] == '&' || s[0] == '*') {
        lemma_strip_ref_marks_shortens(s.drop_first());
    }
}

/// Unwrapping one generic layer at a time: `Vec<Row>` yields `Row`. A
/// multi-argument or empty generic is ambiguous and falls back to the outer
/// name; an unclosed one yields nothing.
pub open spec fn unwrap_generics(current: Seq<char>) -> Option<Seq<char>>
    decreases current.len(),
{
    let open = first_match(current, "<"@);
    if open < 0 {
        spec_simplify_bare(current)
    } else {
        let close = last_match(current, ">"@);
        if close < 0 {
            None
        } else if close < open {
            spec_simplify_bare(current)
        } else {
            let outer = trim_ws(current.take(open));
            let inner = trim_ws(current.subrange(open + 1, close));
            if inner.contains(',') || inner.len() == 0 {
                spec_simplify_bare(outer)
            } else {
                proof {
                    reveal_strlit("<");
                    reveal_strlit(">");
                    lemma_first_match(current, "<"@);
                    lemma_last_match(current, ">"@);
                    assert(current.subrange(open, open + 1)[0] == '<');
                    assert(current.subrange(close, close + 1)[0] == '>');
                    assert(current[open] == '<');
                    assert(current[close] == '>');
                    lemma_trim_shortens(current.subrange(open + 1, close));
                    lemma_strip_ref_marks_shortens(inner);
                    lemma_trim_shortens(strip_ref_marks(inner));
                }
                unwrap_generics(trim_ws(strip_ref_marks(inner)))
            }
        }
    }
}

/// The simple name resolution keys on: `&mut Option<Store>` → `Store`,
/// `Vec<Row>` → `Row`, `crate::store::Store` → `Store`. Wrappers are
/// unwrapped rather than resolved: a call on an element is far more common
/// than a call on the container, and a wrong container type would produce a
/// wrong edge.
pub open spec fn spec_simplify_type(text: Seq<char>) -> Option<Seq<char>> {
    unwrap_generics(type_core(text))
}

fn strip_ref_chars(s: &Vec<char>) -> (out: Vec<char>)
    ensures
        out@ == strip_ref_marks(s@),
{
    let mut lo: usize = 0;
    assert(s@.skip(0) == s@);
    while lo < s.len() && (s[lo] == '&' || s[lo] == '*')
        invariant
            lo <= s.len(),
            strip_ref_marks(s@) == strip_ref_marks(s@.skip(lo as int)),
        decreases s.len() - lo,
    {
        assert(s@.skip(lo as int).drop_first() == s@.skip(lo + 1));
        lo = lo + 1;
    }
    slice_chars(s, lo, s.len())
}

fn strip_suffix_chars(s: &Vec<char>) -> (out: Vec<char>)
    ensures
        out@ == strip_type_suffix(s@),
{
    let mut hi: usize = s.len();
    assert(s@.take(hi as int) == s@);
    while hi > 0 && (s[hi - 1] == '?' || s[hi - 1] == '!' || s[hi - 1] == '[' || s[hi - 1] == ']')
        invariant
            hi <= s.len(),
            strip_type_suffix(s@) == strip_type_suffix(s@.take(hi as int)),
        decreases hi,
    {
        assert(s@.take(hi as int).drop_last() == s@.take(hi - 1));
        hi = hi - 1;
    }
    assert(s@.take(hi as int) == s@.subrange(0, hi as int));
    slice_chars(s, 0, hi)
}

fn simplify_bare_chars(text: &Vec<char>) -> (r: Option<Vec<char>>)
    ensures
        match r {
            Some(x) => spec_simplify_bare(text@) == Some(x@),
            None => spec_simplify_bare(text@).is_none(),
        },
{
    proof {
        lemma_last_match(text@, "::"@);
        reveal_strlit("::");
        assert("::"@.len() == 2);
    }
    let a = match rfind_text(text, "::") {
        Some(k) => {
            let n = text.len();
            assert(matches_at(text@, "::"@, k as int));
            assert(k + 2 <= n);
            slice_chars(text, k + 2, n)
        },
        None => slice_chars(text, 0, text.len()),
    };
    assert(text@.subrange(0, text.len() as int) == text@);
    proof {
        lemma_last_index_of(a@, '.');
    }
    let b = match last_index(&a, '.') {
        Some(d) => slice_chars(&a, d + 1, a.len()),
        None => slice_chars(&a, 0, a.len()),
    };
    assert(a@.subrange(0, a.len() as int) == a@);
    let last = strip_suffix_chars(&trim_chars(&b));
    if last.len() == 0 || !plain_chars(&last) {
        return None;
    }
    let name = string_of(&last);
    if !starts_uppercase(name.as_str()) {
        return None;
    }
    Some(last)
}

/// Reduce a type expression to the simple name resolution keys on.
pub fn simplify_type(text: &str) -> (r: Option<String>)
    ensures
        match r {
            Some(x) => spec_simplify_type(text@) == Some(x@),
            None => spec_simplify_type(text@).is_none(),
        },
{
    let s = chars_of(text);
    let a = trim_chars(&strip_prefix_all(&strip_prefix_all(&trim_chars(&s), "->"), ":"));
    let b = trim_chars(&strip_ref_chars(&a));
    let c = trim_chars(&strip_prefix_all(&b, "mut "));
    let d = trim_chars(&strip_prefix_all(&c, "dyn "));
    let e = trim_chars(&strip_prefix_all(&d, "impl "));
    let mut current = trim_chars(&strip_prefix_all(&e, "readonly "));
    assert(current@ == type_core(text@));
    loop
        invariant
            spec_simplify_type(text@) == unwrap_generics(current@),
        decreases current.len(),
    {
        proof {
            reveal_strlit("<");
            reveal_strlit(">");
            lemma_first_match(current@, "<"@);
            lemma_last_match(current@, ">"@);
        }
        let open = match find_text(&current, "<") {
            Some(o) => o,
            None => {
                return match simplify_bare_chars(&current) {
                    Some(x) => Some(string_of(&x)),
                    None => None,
                };
            },
        };
        let close = match rfind_text(&current, ">") {
            Some(c) => c,
            None => {
                return None;
            },
        };
        if close < open {
            return match simplify_bare_chars(&current) {
                Some(x) => Some(string_of(&x)),
                None => None,
            };
        }
        proof {
            assert(current@.subrange(open as int, open + 1)[0] == '<');
            assert(current@.subrange(close as int, close + 1)[0] == '>');
            assert(current@[open as int] == '<');
            assert(current@[close as int] == '>');
        }
        let outer = trim_chars(&slice_chars(&current, 0, open));
        assert(current@.subrange(0, open as int) == current@.take(open as int));
        let inner = trim_chars(&slice_chars(&current, open + 1, close));
        // A multi-argument generic is ambiguous; refuse rather than pick one.
        let mut has_comma = false;
        let mut i: usize = 0;
        while i < inner.len() && !has_comma
            invariant
                i <= inner.len(),
                has_comma ==> inner@.contains(','),
                !has_comma ==> forall|j: int| 0 <= j < i ==> inner@[j] != ',',
            decreases inner.len() - i + (if has_comma { 0int } else { 1int }),
        {
            if inner[i] == ',' {
                has_comma = true;
                assert(inner@[i as int] == ',');
            } else {
                i = i + 1;
            }
        }
        if has_comma || inner.len() == 0 {
            return match simplify_bare_chars(&outer) {
                Some(x) => Some(string_of(&x)),
                None => None,
            };
        }
        proof {
            lemma_trim_shortens(current@.subrange(open + 1, close as int));
            lemma_strip_ref_marks_shortens(inner@);
            lemma_trim_shortens(strip_ref_marks(inner@));
        }
        current = trim_chars(&strip_ref_chars(&inner));
    }
}

} // verus!
