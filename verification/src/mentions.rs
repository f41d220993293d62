//! Specification mention harvesting.
//!
//! `TC-NNN` tracking tags, `FR-NNN`/`NFR-NNN`/`Task-NNN` citations, and
//! `ix://` references, harvested from comments and attributes only: never
//! from string literals, and never from inside a longer token.
//!
//! A mention targets the identifier exactly as written, because this library
//! cannot see the artifact and must not invent a node for it. A tracking tag
//! counts as a verification claim only inside a declaration the language
//! treats as a test; elsewhere it is an ordinary citation.

use vstd::prelude::*;
use vstd::utf8::{encode_utf8, is_ascii_chars};

use crate::order::{
    compare_text, lemma_text_lt_irreflexive, lemma_text_lt_total, lemma_text_lt_transitive, text_lt,
    Precedence,
};
use crate::parse::CommentText;
use crate::text::{chars_of, has_prefix, starts_with, string_of};

verus! {

/// What kind of mention was found.
#[derive(Debug, Clone, Copy, PartialEq, Eq, PartialOrd, Ord, Hash, Structural)]
pub enum MentionKind {
    /// A `TC-NNN` tag inside a declaration recognized as a test.
    TrackingTag,
    /// An `FR-NNN`, `NFR-NNN` or `Task-NNN` citation, or a `TC-NNN` outside a
    /// test declaration.
    RequirementCitation,
    /// An `ix://` reference.
    ArtifactReference,
}

/// The wire name of a mention kind.
pub open spec fn spec_mention_kind_name(k: MentionKind) -> Seq<char> {
    match k {
        MentionKind::TrackingTag => "tracking_tag"@,
        MentionKind::RequirementCitation => "requirement_citation"@,
        MentionKind::ArtifactReference => "artifact_reference"@,
    }
}

/// The position of a kind in declaration order.
pub open spec fn kind_rank(k: MentionKind) -> int {
    match k {
        MentionKind::TrackingTag => 0,
        MentionKind::RequirementCitation => 1,
        MentionKind::ArtifactReference => 2,
    }
}

impl MentionKind {
    pub fn as_str(self) -> (r: &'static str)
        ensures
            r@ == spec_mention_kind_name(self),
    {
        match self {
            MentionKind::TrackingTag => "tracking_tag",
            MentionKind::RequirementCitation => "requirement_citation",
            MentionKind::ArtifactReference => "artifact_reference",
        }
    }
}

/// One harvested mention with its provenance.
#[derive(Debug, Clone, PartialEq, Eq, PartialOrd, Ord)]
pub struct Mention {
    /// The identifier exactly as written: `TC-001`, `FR-002`, `ix://org/repo/x`.
    pub identifier: String,
    pub kind: MentionKind,
    /// Qualified name of the enclosing code fact.
    pub source: String,
    pub file: String,
    pub line: u32,
}

/// A mention as plain values: identifier, kind, source, file, line.
pub type MentionView = (Seq<char>, MentionKind, Seq<char>, Seq<char>, u32);

impl View for Mention {
    type V = MentionView;

    open spec fn view(&self) -> MentionView {
        (self.identifier@, self.kind, self.source@, self.file@, self.line)
    }
}

/// A regex match as plain values: byte start, byte end, matched text.
pub type Found = (usize, usize, Seq<char>);

/// The pattern of a requirement or test identifier: `FR-7`, `TC-001`.
pub const IDENTIFIER_PATTERN: &'static str = "(?:TC|NFR|FR|Task)-[0-9]{1,6}";

/// The pattern of an `ix://` artifact reference: a scheme, then two or
/// more path segments.
pub const IX_REF_PATTERN: &'static str = "ix://[A-Za-z0-9._\\-]+(?:/[A-Za-z0-9._\\-]+)+";

/// The matches `Regex::find_iter` yields for `pattern` in `text`, in order.
pub uninterp spec fn regex_matches(pattern: Seq<char>, text: Seq<char>) -> Seq<Found>;

/// The identifier matches in `text`.
pub open spec fn identifier_matches(text: Seq<char>) -> Seq<Found> {
    regex_matches(IDENTIFIER_PATTERN@, text)
}

/// The `ix://` reference matches in `text`.
pub open spec fn ix_ref_matches(text: Seq<char>) -> Seq<Found> {
    regex_matches(IX_REF_PATTERN@, text)
}

/// What `Regex::find_iter` yields, as its documentation states it: matches
/// in order, none overlapping the next, each one the text of its byte span.
pub open spec fn well_placed(text: Seq<char>, found: Seq<Found>) -> bool {
    &&& forall|i: int|
        0 <= i < found.len() ==> (#[trigger] found[i]).0 <= found[i].1 <= encode_utf8(text).len()
            && encode_utf8(text).subrange(found[i].0 as int, found[i].1 as int) == encode_utf8(
            found[i].2,
        )
    &&& forall|i: int, j: int| 0 <= i < j < found.len() ==> #[trigger] found[i].1 <= #[trigger] found[j].0
}

fn found_view(v: &Vec<(usize, usize, String)>) -> (r: Ghost<Seq<Found>>)
    ensures
        r@ == v@.map_values(|m: (usize, usize, String)| (m.0, m.1, m.2@)),
{
    Ghost(v@.map_values(|m: (usize, usize, String)| (m.0, m.1, m.2@)))
}

/// Every match of `pattern` in `text` (`Regex::new`, then
/// `Regex::find_iter`): byte start, byte end and matched text, as
/// `regex_matches` names them, placed as `find_iter` documents. The two
/// patterns admitted are valid, so building them cannot fail; the `ix://`
/// pattern admits only ASCII characters, so each of its matches is ASCII.
#[verifier::external_body]
fn find_matches(pattern: &str, text: &str) -> (r: Vec<(usize, usize, String)>)
    requires
        pattern@ == IDENTIFIER_PATTERN@ || pattern@ == IX_REF_PATTERN@,
    ensures
        r@.map_values(|m: (usize, usize, String)| (m.0, m.1, m.2@)) == regex_matches(pattern@, text@),
        well_placed(text@, r@.map_values(|m: (usize, usize, String)| (m.0, m.1, m.2@))),
        pattern@ == IX_REF_PATTERN@ ==> forall|i: int| 0 <= i < r.len() ==> is_ascii_chars(#[trigger] r@[i].2@),
{
    let re = regex::Regex::new(pattern).expect("the pattern compiles");
    let mut out = Vec::new();
    for m in re.find_iter(text) {
        out.push((m.start(), m.end(), m.as_str().to_owned()));
    }
    out
}

/// A byte that is part of an identifier token: an ASCII digit or letter,
/// `_` or `-`.
pub open spec fn spec_is_token_byte(b: u8) -> bool {
    (48 <= b <= 57) || (97 <= b <= 122) || (65 <= b <= 90) || b == 95 || b == 45
}

/// Whether a byte is part of an identifier token.
///
/// Boundaries are checked around the match rather than folded into the
/// pattern: a pattern that consumes its delimiters cannot match two
/// identifiers separated by a single space, because the first match eats the
/// separator the second one needs.
pub fn is_token_byte(byte: u8) -> (r: bool)
    ensures
        r == spec_is_token_byte(byte),
{
    // ASCII digits, lowercase and uppercase letters, `_` and `-`.
    (48 <= byte && byte <= 57) || (97 <= byte && byte <= 122) || (65 <= byte && byte <= 90)
        || byte == 95 || byte == 45
}

/// The span `[start, end)` of `bytes` stands alone as a whole token.
pub open spec fn spec_is_whole_token(bytes: Seq<u8>, start: int, end: int) -> bool {
    &&& (start == 0 || !spec_is_token_byte(bytes[start - 1]))
    &&& (end >= bytes.len() || !spec_is_token_byte(bytes[end]))
}

/// Whether the match at `[start, end)` stands alone as a whole token.
pub fn is_whole_token(text: &str, start: usize, end: usize) -> (r: bool)
    requires
        start <= encode_utf8(text@).len(),
    ensures
        r == spec_is_whole_token(encode_utf8(text@), start as int, end as int),
{
    let bytes = text.as_bytes();
    let before_ok = start == 0 || !is_token_byte(bytes[start - 1]);
    let after_ok = end >= bytes.len() || !is_token_byte(bytes[end]);
    before_ok && after_ok
}

/// A character that never ends a reference: sentence punctuation.
pub open spec fn is_trailing_separator(c: char) -> bool {
    c == '.' || c == ',' || c == ';' || c == ':' || c == ')' || c == ']' || c == '`'
}

/// The text with every trailing separator removed.
pub open spec fn trim_separators(s: Seq<char>) -> Seq<char>
    decreases s.len(),
{
    if s.len() > 0 && is_trailing_separator(s.last()) {
        trim_separators(s.drop_last())
    } else {
        s
    }
}

/// The references found, in order, as the spans they keep after trimming
/// and the mentions they yield.
pub open spec fn ix_spans(found: Seq<Found>) -> Seq<(int, int)>
    decreases found.len(),
{
    if found.len() == 0 {
        Seq::empty()
    } else {
        let t = trim_separators(found.last().2);
        if t.len() == 0 {
            ix_spans(found.drop_last())
        } else {
            ix_spans(found.drop_last()).push((found.last().0 as int, found.last().0 + t.len()))
        }
    }
}

pub open spec fn ix_mentions(found: Seq<Found>, c: CommentText, file: Seq<char>) -> Seq<MentionView>
    decreases found.len(),
{
    if found.len() == 0 {
        Seq::empty()
    } else {
        let t = trim_separators(found.last().2);
        if t.len() == 0 {
            ix_mentions(found.drop_last(), c, file)
        } else {
            ix_mentions(found.drop_last(), c, file).push(
                (t, MentionKind::ArtifactReference, c.owner@, file, c.line),
            )
        }
    }
}

/// A match lies within one of the reference spans.
pub open spec fn inside_a_span(m: Found, spans: Seq<(int, int)>) -> bool {
    exists|k: int| 0 <= k < spans.len() && m.0 >= (#[trigger] spans[k]).0 && m.1 <= spans[k].1
}

/// The kind of an identifier found in a comment.
pub open spec fn citation_kind(identifier: Seq<char>, owner_is_test: bool) -> MentionKind {
    if starts_with(identifier, "TC-"@) && owner_is_test {
        MentionKind::TrackingTag
    } else {
        MentionKind::RequirementCitation
    }
}

pub open spec fn citation_mentions(
    found: Seq<Found>,
    bytes: Seq<u8>,
    spans: Seq<(int, int)>,
    c: CommentText,
    file: Seq<char>,
) -> Seq<MentionView>
    decreases found.len(),
{
    if found.len() == 0 {
        Seq::empty()
    } else {
        let prev = citation_mentions(found.drop_last(), bytes, spans, c, file);
        let m = found.last();
        if !spec_is_whole_token(bytes, m.0 as int, m.1 as int) || inside_a_span(m, spans) {
            prev
        } else {
            prev.push((m.2, citation_kind(m.2, c.owner_is_test), c.owner@, file, c.line))
        }
    }
}

/// Everything one comment yields: its references, then its citations that
/// stand alone and lie outside every reference.
pub open spec fn comment_mentions(c: CommentText, file: Seq<char>) -> Seq<MentionView> {
    matched_mentions(ix_ref_matches(c.text@), identifier_matches(c.text@), c, file)
}

/// The mentions a comment yields from given reference and identifier
/// matches of its text.
pub open spec fn matched_mentions(refs: Seq<Found>, ids: Seq<Found>, c: CommentText, file: Seq<char>) -> Seq<
    MentionView,
> {
    ix_mentions(refs, c, file) + citation_mentions(ids, encode_utf8(c.text@), ix_spans(refs), c, file)
}

/// Everything the comments yield, comment by comment.
pub open spec fn all_mentions(comments: Seq<CommentText>, file: Seq<char>) -> Seq<MentionView>
    decreases comments.len(),
{
    if comments.len() == 0 {
        Seq::empty()
    } else {
        all_mentions(comments.drop_last(), file) + comment_mentions(comments.last(), file)
    }
}

/// Mention order: identifier, kind, source, file, line.
pub open spec fn mention_lt(a: MentionView, b: MentionView) -> bool {
    ||| text_lt(a.0, b.0)
    ||| a.0 == b.0 && kind_rank(a.1) < kind_rank(b.1)
    ||| a.0 == b.0 && a.1 == b.1 && text_lt(a.2, b.2)
    ||| a.0 == b.0 && a.1 == b.1 && a.2 == b.2 && text_lt(a.3, b.3)
    ||| a.0 == b.0 && a.1 == b.1 && a.2 == b.2 && a.3 == b.3 && a.4 < b.4
}

/// A sequence strictly increasing in mention order, or by line first.
pub open spec fn mentions_sorted(s: Seq<MentionView>, by_line: bool) -> bool {
    forall|i: int, j: int| 0 <= i < j < s.len() ==> mention_before(s[i], s[j], by_line)
}

/// `e` inserted into a strictly sorted sequence, unless already present.
pub open spec fn insert_mention(s: Seq<MentionView>, e: MentionView, by_line: bool) -> Seq<MentionView>
    decreases s.len(),
{
    if s.len() == 0 {
        seq![e]
    } else if s[0] == e {
        s
    } else if mention_before(e, s[0], by_line) {
        seq![e] + s
    } else {
        seq![s[0]] + insert_mention(s.drop_first(), e, by_line)
    }
}

/// The distinct mentions, in mention order or by line first.
pub open spec fn sort_dedup_mentions(ms: Seq<MentionView>, by_line: bool) -> Seq<MentionView>
    decreases ms.len(),
{
    if ms.len() == 0 {
        Seq::empty()
    } else {
        insert_mention(sort_dedup_mentions(ms.drop_last(), by_line), ms.last(), by_line)
    }
}

/// What harvesting the comments yields.
pub open spec fn spec_harvest(comments: Seq<CommentText>, file: Seq<char>) -> Seq<MentionView> {
    sort_dedup_mentions(all_mentions(comments, file), true)
}

proof fn lemma_mention_lt_total(a: MentionView, b: MentionView)
    ensures
        mention_lt(a, b) || a == b || mention_lt(b, a),
        !(mention_lt(a, b) && mention_lt(b, a)),
        !mention_lt(a, a),
{
    lemma_text_lt_total(a.0, b.0);
    lemma_text_lt_total(a.2, b.2);
    lemma_text_lt_total(a.3, b.3);
    lemma_text_lt_irreflexive(a.0);
    lemma_text_lt_irreflexive(a.2);
    lemma_text_lt_irreflexive(a.3);
}

proof fn lemma_mention_lt_transitive(a: MentionView, b: MentionView, c: MentionView)
    requires
        mention_lt(a, b),
        mention_lt(b, c),
    ensures
        mention_lt(a, c),
{
    lemma_mention_lt_total(a, b);
    lemma_mention_lt_total(b, c);
    if text_lt(a.0, b.0) && text_lt(b.0, c.0) {
        lemma_text_lt_transitive(a.0, b.0, c.0);
    }
    if a.0 == b.0 && b.0 == c.0 && a.1 == b.1 && b.1 == c.1 {
        if text_lt(a.2, b.2) && text_lt(b.2, c.2) {
            lemma_text_lt_transitive(a.2, b.2, c.2);
        }
        if a.2 == b.2 && b.2 == c.2 && text_lt(a.3, b.3) && text_lt(b.3, c.3) {
            lemma_text_lt_transitive(a.3, b.3, c.3);
        }
    }
}

/// Mention order, or, with `by_line`, line first and then mention order.
pub open spec fn mention_before(a: MentionView, b: MentionView, by_line: bool) -> bool {
    if by_line {
        a.4 < b.4 || (a.4 == b.4 && mention_lt(a, b))
    } else {
        mention_lt(a, b)
    }
}

proof fn lemma_mention_before_total(a: MentionView, b: MentionView, by_line: bool)
    ensures
        mention_before(a, b, by_line) || a == b || mention_before(b, a, by_line),
        !(mention_before(a, b, by_line) && mention_before(b, a, by_line)),
        !mention_before(a, a, by_line),
{
    lemma_mention_lt_total(a, b);
}

proof fn lemma_mention_before_transitive(a: MentionView, b: MentionView, c: MentionView, by_line: bool)
    requires
        mention_before(a, b, by_line),
        mention_before(b, c, by_line),
    ensures
        mention_before(a, c, by_line),
{
    lemma_mention_lt_total(a, b);
    lemma_mention_lt_total(b, c);
    if mention_lt(a, b) && mention_lt(b, c) {
        lemma_mention_lt_transitive(a, b, c);
    }
}

proof fn lemma_insert_mention_at(s: Seq<MentionView>, e: MentionView, i: int, by_line: bool)
    requires
        mentions_sorted(s, by_line),
        0 <= i <= s.len(),
        forall|j: int| 0 <= j < i ==> mention_before(#[trigger] s[j], e, by_line),
        i < s.len() ==> !mention_before(s[i], e, by_line),
    ensures
        i < s.len() && s[i] == e ==> insert_mention(s, e, by_line) == s,
        !(i < s.len() && s[i] == e) ==> insert_mention(s, e, by_line) == s.insert(i, e),
    decreases s.len(),
{
    if s.len() == 0 {
        assert(s.insert(0, e) =~= seq![e]);
    } else if i == 0 {
        if s[0] == e {
        } else {
            lemma_mention_before_total(s[0], e, by_line);
            assert(s.insert(0, e) =~= seq![e] + s);
        }
    } else {
        lemma_mention_before_total(s[0], e, by_line);
        let t = s.drop_first();
        assert(mentions_sorted(t, by_line)) by {
            assert forall|a: int, b: int| 0 <= a < b < t.len() implies mention_before(t[a], t[b], by_line) by {
                assert(t[a] == s[a + 1] && t[b] == s[b + 1]);
            }
        }
        assert forall|j: int| 0 <= j < i - 1 implies mention_before(#[trigger] t[j], e, by_line) by {
            assert(t[j] == s[j + 1]);
        }
        lemma_insert_mention_at(t, e, i - 1, by_line);
        assert(s == seq![s[0]] + t);
        if !(i < s.len() && s[i] == e) {
            assert(seq![s[0]] + t.insert(i - 1, e) =~= s.insert(i, e));
        }
    }
}

proof fn lemma_insert_keeps_mentions_sorted(s: Seq<MentionView>, e: MentionView, i: int, by_line: bool)
    requires
        mentions_sorted(s, by_line),
        0 <= i <= s.len(),
        forall|j: int| 0 <= j < i ==> mention_before(#[trigger] s[j], e, by_line),
        i < s.len() ==> mention_before(e, s[i], by_line),
    ensures
        mentions_sorted(s.insert(i, e), by_line),
{
    let t = s.insert(i, e);
    assert forall|a: int, b: int| 0 <= a < b < t.len() implies mention_before(t[a], t[b], by_line) by {
        if a < i && b < i {
            assert(t[a] == s[a] && t[b] == s[b]);
        } else if a < i && b == i {
            assert(t[a] == s[a]);
        } else if a < i && b > i {
            assert(t[a] == s[a] && t[b] == s[b - 1]);
            if a < b - 1 {
                assert(mention_before(s[a], s[b - 1], by_line));
            }
        } else if a == i {
            assert(t[b] == s[b - 1]);
            if b - 1 > i {
                assert(mention_before(s[i], s[b - 1], by_line));
                lemma_mention_before_transitive(e, s[i], s[b - 1], by_line);
            }
        } else {
            assert(t[a] == s[a - 1] && t[b] == s[b - 1]);
        }
    }
}

fn compare_mentions(a: &Mention, b: &Mention, by_line: bool) -> (r: Precedence)
    ensures
        r == Precedence::Before <==> mention_before(a@, b@, by_line),
        r == Precedence::Same <==> a@ == b@,
        r == Precedence::After <==> mention_before(b@, a@, by_line),
{
    proof {
        lemma_mention_before_total(a@, b@, by_line);
        lemma_mention_lt_total(a@, b@);
    }
    if by_line && a.line != b.line {
        return if a.line < b.line {
            Precedence::Before
        } else {
            Precedence::After
        };
    }
    let c = compare_text(a.identifier.as_str(), b.identifier.as_str());
    if c != Precedence::Same {
        return c;
    }
    let ka = kind_number(a.kind);
    let kb = kind_number(b.kind);
    if ka < kb {
        return Precedence::Before;
    } else if ka > kb {
        return Precedence::After;
    }
    let c = compare_text(a.source.as_str(), b.source.as_str());
    if c != Precedence::Same {
        return c;
    }
    let c = compare_text(a.file.as_str(), b.file.as_str());
    if c != Precedence::Same {
        return c;
    }
    if a.line < b.line {
        Precedence::Before
    } else if a.line == b.line {
        Precedence::Same
    } else {
        Precedence::After
    }
}

fn kind_number(k: MentionKind) -> (r: u8)
    ensures
        r as int == kind_rank(k),
{
    match k {
        MentionKind::TrackingTag => 0,
        MentionKind::RequirementCitation => 1,
        MentionKind::ArtifactReference => 2,
    }
}

fn copy_mention(m: &Mention) -> (r: Mention)
    ensures
        r@ == m@,
{
    Mention {
        identifier: m.identifier.clone(),
        kind: m.kind,
        source: m.source.clone(),
        file: m.file.clone(),
        line: m.line,
    }
}

/// The distinct mentions in mention order, or by line first.
pub(crate) fn sort_dedup(ms: &Vec<Mention>, by_line: bool) -> (out: Vec<Mention>)
    ensures
        out@.map_values(|x: Mention| x@) == sort_dedup_mentions(ms@.map_values(|x: Mention| x@), by_line),
        mentions_sorted(out@.map_values(|x: Mention| x@), by_line),
{
    let ghost all = ms@.map_values(|x: Mention| x@);
    let mut sorted: Vec<Mention> = Vec::new();
    let mut n: usize = 0;
    while n < ms.len()
        invariant
            n <= ms.len(),
            all == ms@.map_values(|x: Mention| x@),
            sorted@.map_values(|x: Mention| x@) == sort_dedup_mentions(all.take(n as int), by_line),
            mentions_sorted(sort_dedup_mentions(all.take(n as int), by_line), by_line),
        decreases ms.len() - n,
    {
        let e = &ms[n];
        let ghost s = sorted@.map_values(|x: Mention| x@);
        let mut i: usize = 0;
        let mut same = false;
        let mut stop = false;
        while i < sorted.len() && !stop
            invariant
                i <= sorted.len(),
                s == sorted@.map_values(|x: Mention| x@),
                forall|j: int| 0 <= j < i ==> mention_before(#[trigger] s[j], e@, by_line),
                stop ==> i < sorted.len(),
                stop && same ==> s[i as int] == e@,
                stop && !same ==> mention_before(e@, s[i as int], by_line),
                !stop ==> !same,
            decreases sorted.len() - i + (if stop { 0int } else { 1int }),
        {
            let c = compare_mentions(&sorted[i], e, by_line);
            if c == Precedence::Same {
                same = true;
                stop = true;
            } else if c == Precedence::After {
                stop = true;
            } else {
                i = i + 1;
            }
        }
        proof {
            assert(all.take(n + 1).drop_last() == all.take(n as int));
            assert(all.take(n + 1).last() == e@);
            if i < s.len() {
                lemma_mention_before_total(s[i as int], e@, by_line);
            }
            lemma_insert_mention_at(s, e@, i as int, by_line);
        }
        if !same {
            proof {
                lemma_insert_keeps_mentions_sorted(s, e@, i as int, by_line);
            }
            sorted.insert(i, copy_mention(e));
            assert(sorted@.map_values(|x: Mention| x@) =~= s.insert(i as int, e@));
        }
        n = n + 1;
    }
    assert(all.take(ms.len() as int) == all);
    sorted
}

/// The number of trailing separators, counted from the end.
fn trimmed_len(s: &Vec<char>) -> (n: usize)
    ensures
        n <= s.len(),
        trim_separators(s@) == s@.take(n as int),
{
    let mut n: usize = s.len();
    assert(s@.take(n as int) == s@);
    while n > 0 && (s[n - 1] == '.' || s[n - 1] == ',' || s[n - 1] == ';' || s[n - 1] == ':'
        || s[n - 1] == ')' || s[n - 1] == ']' || s[n - 1] == '`')
        invariant
            n <= s.len(),
            trim_separators(s@) == trim_separators(s@.take(n as int)),
        decreases n,
    {
        assert(s@.take(n as int).drop_last() == s@.take(n - 1));
        n = n - 1;
    }
    n
}

proof fn lemma_ascii_prefix(s: Seq<char>, n: int)
    requires
        is_ascii_chars(s),
        0 <= n <= s.len(),
    ensures
        is_ascii_chars(s.take(n)),
        encode_utf8(s).len() == s.len(),
{
    vstd::utf8::is_ascii_chars_encode_utf8(s);
    assert forall|i: int| 0 <= i < s.take(n).len() implies (s.take(n)[i] as nat) < 128 by {
        assert(s.take(n)[i] == s[i]);
    }
}

/// The mentions one comment yields, given the `ix://` reference matches
/// and the identifier matches of its text: each reference, its trailing
/// separators trimmed, then each identifier that is a whole token and lies
/// in no reference, a tracking tag when it is a `TC-` tag inside a test.
pub fn mentions_from_matches(
    comment: &CommentText,
    file_path: &str,
    refs: &Vec<(usize, usize, String)>,
    ids: &Vec<(usize, usize, String)>,
) -> (out: Vec<Mention>)
    requires
        well_placed(comment.text@, refs@.map_values(|m: (usize, usize, String)| (m.0, m.1, m.2@))),
        well_placed(comment.text@, ids@.map_values(|m: (usize, usize, String)| (m.0, m.1, m.2@))),
        forall|i: int| 0 <= i < refs.len() ==> is_ascii_chars(#[trigger] refs@[i].2@),
    ensures
        out@.map_values(|m: Mention| m@) == matched_mentions(
            refs@.map_values(|m: (usize, usize, String)| (m.0, m.1, m.2@)),
            ids@.map_values(|m: (usize, usize, String)| (m.0, m.1, m.2@)),
            *comment,
            file_path@,
        ),
{
    let mut found_all: Vec<Mention> = Vec::new();
    let ghost before = found_all@.map_values(|m: Mention| m@);
    assert(before =~= Seq::<MentionView>::empty());
    let ghost rs = refs@.map_values(|m: (usize, usize, String)| (m.0, m.1, m.2@));
    let mut spans: Vec<(usize, usize)> = Vec::new();
    let mut k: usize = 0;
    while k < refs.len()
        invariant
            k <= refs.len(),
            rs == refs@.map_values(|m: (usize, usize, String)| (m.0, m.1, m.2@)),
            well_placed(comment.text@, rs),
            forall|i: int| 0 <= i < refs.len() ==> is_ascii_chars(#[trigger] refs@[i].2@),
            spans@.map_values(|p: (usize, usize)| (p.0 as int, p.1 as int)) == ix_spans(rs.take(k as int)),
            found_all@.map_values(|m: Mention| m@) == before + ix_mentions(rs.take(k as int), *comment, file_path@),
        decreases refs.len() - k,
    {
        let m = &refs[k];
        let chars = chars_of(m.2.as_str());
        let n = trimmed_len(&chars);
        proof {
            assert(rs.take(k + 1).drop_last() == rs.take(k as int));
            assert(rs.take(k + 1).last() == rs[k as int]);
            assert(rs[k as int] == (m.0, m.1, m.2@));
            lemma_ascii_prefix(m.2@, n as int);
            assert(encode_utf8(comment.text@).subrange(m.0 as int, m.1 as int) == encode_utf8(m.2@));
        }
        if n > 0 {
            let mut t: Vec<char> = Vec::new();
            let mut j: usize = 0;
            while j < n
                invariant
                    j <= n <= chars.len(),
                    t@ == chars@.take(j as int),
                decreases n - j,
            {
                t.push(chars[j]);
                j = j + 1;
                assert(t@ =~= chars@.take(j as int));
            }
            let ghost sp = spans@.map_values(|p: (usize, usize)| (p.0 as int, p.1 as int));
            spans.push((m.0, m.0 + n));
            assert(spans@.map_values(|p: (usize, usize)| (p.0 as int, p.1 as int)) =~= sp.push(
                (m.0 as int, m.0 + n),
            ));
            let ghost fa = found_all@.map_values(|m: Mention| m@);
            found_all.push(
                Mention {
                    identifier: string_of(&t),
                    kind: MentionKind::ArtifactReference,
                    source: comment.owner.clone(),
                    file: file_path.to_owned(),
                    line: comment.line,
                },
            );
            assert(found_all@.map_values(|m: Mention| m@) =~= fa.push(
                (t@, MentionKind::ArtifactReference, comment.owner@, file_path@, comment.line),
            ));
        }
        k = k + 1;
    }
    assert(rs.take(refs.len() as int) == rs);
    let ghost spans_v = ix_spans(rs);
    let ghost mid = found_all@.map_values(|m: Mention| m@);
    let ghost is = ids@.map_values(|m: (usize, usize, String)| (m.0, m.1, m.2@));
    let ghost bytes = encode_utf8(comment.text@);
    let mut k: usize = 0;
    while k < ids.len()
        invariant
            k <= ids.len(),
            is == ids@.map_values(|m: (usize, usize, String)| (m.0, m.1, m.2@)),
            well_placed(comment.text@, is),
            bytes == encode_utf8(comment.text@),
            spans_v == spans@.map_values(|p: (usize, usize)| (p.0 as int, p.1 as int)),
            found_all@.map_values(|m: Mention| m@) == mid + citation_mentions(
                is.take(k as int),
                bytes,
                spans_v,
                *comment,
                file_path@,
            ),
        decreases ids.len() - k,
    {
        let m = &ids[k];
        proof {
            assert(is.take(k + 1).drop_last() == is.take(k as int));
            assert(is.take(k + 1).last() == is[k as int]);
            assert(is[k as int] == (m.0, m.1, m.2@));
        }
        let whole = is_whole_token(comment.text.as_str(), m.0, m.1);
        // Inside a reference already reported?
        let mut inside = false;
        let mut s: usize = 0;
        while s < spans.len() && !inside
            invariant
                s <= spans.len(),
                spans_v == spans@.map_values(|p: (usize, usize)| (p.0 as int, p.1 as int)),
                inside ==> inside_a_span(is[k as int], spans_v),
                !inside ==> forall|q: int| 0 <= q < s ==> !(m.0 >= (#[trigger] spans_v[q]).0 && m.1 <= spans_v[q].1),
                is[k as int] == (m.0, m.1, m.2@),
            decreases spans.len() - s + (if inside { 0int } else { 1int }),
        {
            if m.0 >= spans[s].0 && m.1 <= spans[s].1 {
                inside = true;
                assert(spans_v[s as int] == (spans[s as int].0 as int, spans[s as int].1 as int));
            } else {
                assert(spans_v[s as int] == (spans[s as int].0 as int, spans[s as int].1 as int));
                s = s + 1;
            }
        }
        if whole && !inside {
            let id_chars = chars_of(m.2.as_str());
            let is_tc = has_prefix(&id_chars, "TC-");
            let kind = if is_tc && comment.owner_is_test {
                MentionKind::TrackingTag
            } else {
                MentionKind::RequirementCitation
            };
            let ghost fa = found_all@.map_values(|m: Mention| m@);
            found_all.push(
                Mention {
                    identifier: m.2.clone(),
                    kind,
                    source: comment.owner.clone(),
                    file: file_path.to_owned(),
                    line: comment.line,
                },
            );
            assert(found_all@.map_values(|m: Mention| m@) =~= fa.push(
                (m.2@, citation_kind(m.2@, comment.owner_is_test), comment.owner@, file_path@, comment.line),
            ));
        }
        k = k + 1;
    }
    proof {
        assert(is.take(ids.len() as int) == is);
        assert(found_all@.map_values(|m: Mention| m@) =~= matched_mentions(rs, is, *comment, file_path@));
    }
    found_all
}

/// Harvest every mention from one file's comments and attributes.
///
/// Returns the distinct mentions in a stable order: by line, then by
/// identifier, kind, source and file.
pub fn harvest(comments: &[CommentText], file_path: &str) -> (out: Vec<Mention>)
    ensures
        out@.map_values(|m: Mention| m@) == spec_harvest(comments@, file_path@),
        mentions_sorted(out@.map_values(|m: Mention| m@), true),
{
    let mut found_all: Vec<Mention> = Vec::new();
    let mut ci: usize = 0;
    while ci < comments.len()
        invariant
            ci <= comments.len(),
            found_all@.map_values(|m: Mention| m@) == all_mentions(comments@.take(ci as int), file_path@),
        decreases comments.len() - ci,
    {
        let comment = &comments[ci];
        let ghost before = found_all@.map_values(|m: Mention| m@);
        // Harvest ix:// references first and record their spans, so the
        // identifier inside `ix://org/repo/FR-002` is not also reported as a
        // bare citation: one mention, not two.
        let refs = find_matches(IX_REF_PATTERN, comment.text.as_str());
        let ids = find_matches(IDENTIFIER_PATTERN, comment.text.as_str());
        let mut found = mentions_from_matches(comment, file_path, &refs, &ids);
        found_all.append(&mut found);
        proof {
            assert(comments@.take(ci + 1).drop_last() == comments@.take(ci as int));
            assert(comments@.take(ci + 1).last() == comments@[ci as int]);
            assert(found_all@.map_values(|m: Mention| m@) =~= before + comment_mentions(comments@[ci as int], file_path@));
        }
        ci = ci + 1;
    }
    assert(comments@.take(comments.len() as int) == comments@);
    sort_dedup(&found_all, true)
}

proof fn lemma_insert_mention_members(s: Seq<MentionView>, e: MentionView, by_line: bool)
    ensures
        forall|x: MentionView| #[trigger] insert_mention(s, e, by_line).contains(x) ==> s.contains(x) || x == e,
    decreases s.len(),
{
    if s.len() > 0 && s[0] != e && !mention_before(e, s[0], by_line) {
        let t = s.drop_first();
        lemma_insert_mention_members(t, e, by_line);
        assert forall|x: MentionView| #[trigger] insert_mention(s, e, by_line).contains(x) implies s.contains(x)
            || x == e by {
            let r = insert_mention(s, e, by_line);
            let i = choose|i: int| 0 <= i < r.len() && r[i] == x;
            if i > 0 {
                assert(insert_mention(t, e, by_line)[i - 1] == x);
                assert(insert_mention(t, e, by_line).contains(x));
                if t.contains(x) {
                    let q = choose|q: int| 0 <= q < t.len() && t[q] == x;
                    assert(s[q + 1] == x);
                }
            } else {
                assert(s[0] == x);
            }
        }
    } else if s.len() > 0 && mention_before(e, s[0], by_line) && s[0] != e {
        assert forall|x: MentionView| #[trigger] insert_mention(s, e, by_line).contains(x) implies s.contains(x)
            || x == e by {
            let r = insert_mention(s, e, by_line);
            let i = choose|i: int| 0 <= i < r.len() && r[i] == x;
            if i > 0 {
                assert(s[i - 1] == x);
            }
        }
    }
}

/// Deduplicating and sorting invents no mention.
proof fn lemma_sort_dedup_members(ms: Seq<MentionView>, by_line: bool)
    ensures
        forall|x: MentionView| #[trigger] sort_dedup_mentions(ms, by_line).contains(x) ==> ms.contains(x),
    decreases ms.len(),
{
    if ms.len() > 0 {
        let t = ms.drop_last();
        lemma_sort_dedup_members(t, by_line);
        lemma_insert_mention_members(sort_dedup_mentions(t, by_line), ms.last(), by_line);
        assert forall|x: MentionView| #[trigger] sort_dedup_mentions(ms, by_line).contains(x) implies ms.contains(x) by {
            if sort_dedup_mentions(t, by_line).contains(x) {
                assert(t.contains(x));
                let q = choose|q: int| 0 <= q < t.len() && t[q] == x;
                assert(ms[q] == x);
            } else {
                assert(ms[ms.len() - 1] == x);
            }
        }
    }
}

/// Every reference a comment yields is an artifact reference of the comment.
proof fn lemma_ix_mentions_shape(found: Seq<Found>, c: CommentText, file: Seq<char>)
    ensures
        forall|i: int|
            0 <= i < ix_mentions(found, c, file).len() ==> (#[trigger] ix_mentions(found, c, file)[i]).1
                == MentionKind::ArtifactReference,
    decreases found.len(),
{
    if found.len() > 0 {
        lemma_ix_mentions_shape(found.drop_last(), c, file);
    }
}

/// Every citation a comment yields carries the kind its identifier and the
/// comment's owner give it, and the comment's owner, file and line.
proof fn lemma_citation_mentions_shape(
    found: Seq<Found>,
    bytes: Seq<u8>,
    spans: Seq<(int, int)>,
    c: CommentText,
    file: Seq<char>,
)
    ensures
        forall|i: int|
            0 <= i < citation_mentions(found, bytes, spans, c, file).len() ==> {
                let m = #[trigger] citation_mentions(found, bytes, spans, c, file)[i];
                &&& m.1 == citation_kind(m.0, c.owner_is_test)
                &&& m.2 == c.owner@
                &&& m.3 == file
                &&& m.4 == c.line
            },
    decreases found.len(),
{
    if found.len() > 0 {
        lemma_citation_mentions_shape(found.drop_last(), bytes, spans, c, file);
    }
}

/// Every mention of a batch of comments is a mention of one of them.
proof fn lemma_all_mentions_members(comments: Seq<CommentText>, file: Seq<char>, x: MentionView)
    requires
        all_mentions(comments, file).contains(x),
    ensures
        exists|k: int| 0 <= k < comments.len() && #[trigger] comment_mentions(comments[k], file).contains(x),
    decreases comments.len(),
{
    let t = comments.drop_last();
    let head = all_mentions(t, file);
    let tail = comment_mentions(comments.last(), file);
    let i = choose|i: int| 0 <= i < all_mentions(comments, file).len() && all_mentions(comments, file)[i] == x;
    if i < head.len() {
        assert(head[i] == x);
        lemma_all_mentions_members(t, file, x);
        let k = choose|k: int| 0 <= k < t.len() && #[trigger] comment_mentions(t[k], file).contains(x);
        assert(comments[k] == t[k]);
    } else {
        assert(tail[i - head.len()] == x);
        assert(comment_mentions(comments[comments.len() - 1], file).contains(x));
    }
}

/// A tracking tag is only ever harvested from a comment whose owner is a
/// test, and only for a `TC-` identifier; the same tag anywhere else is a
/// citation.
pub proof fn law_tracking_tags_come_from_tests(comments: Seq<CommentText>, file: Seq<char>, x: MentionView)
    requires
        spec_harvest(comments, file).contains(x),
        x.1 == MentionKind::TrackingTag,
    ensures
        starts_with(x.0, "TC-"@),
        exists|k: int|
            0 <= k < comments.len() && (#[trigger] comments[k]).owner_is_test && comments[k].owner@
                == x.2 && comments[k].line == x.4,
        x.3 == file,
{
    lemma_sort_dedup_members(all_mentions(comments, file), true);
    lemma_all_mentions_members(comments, file, x);
    let k = choose|k: int| 0 <= k < comments.len() && #[trigger] comment_mentions(comments[k], file).contains(x);
    let c = comments[k];
    let refs = ix_ref_matches(c.text@);
    let a = ix_mentions(refs, c, file);
    let b = citation_mentions(identifier_matches(c.text@), encode_utf8(c.text@), ix_spans(refs), c, file);
    lemma_ix_mentions_shape(refs, c, file);
    lemma_citation_mentions_shape(identifier_matches(c.text@), encode_utf8(c.text@), ix_spans(refs), c, file);
    let cm = comment_mentions(c, file);
    assert(cm == a + b);
    let i = choose|i: int| 0 <= i < cm.len() && cm[i] == x;
    if i < a.len() {
        assert(a[i] == x);
    } else {
        assert(b[i - a.len()] == x);
    }
}

} // verus!
