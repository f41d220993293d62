//! Org-qualified symbol identity: `{org}/{repo}/{path}::{Parent}::{symbol}`.
//!
//! Anonymous declarations take an ordinal-derived segment rather than a
//! line-derived one, so an edit elsewhere in the file never renames them.

use vstd::prelude::*;

use crate::text::{chars_of, extend_chars, string_of};

verus! {

/// Every backslash replaced by a forward slash.
pub open spec fn unify_separators(s: Seq<char>) -> Seq<char> {
    s.map_values(|c: char| if c == '\\' { '/' } else { c })
}

/// Every run of consecutive slashes collapsed to one slash.
pub open spec fn collapse_slashes(s: Seq<char>) -> Seq<char>
    decreases s.len(),
{
    if s.len() == 0 {
        s
    } else {
        let prefix = collapse_slashes(s.drop_last());
        if s.last() == '/' && s.len() >= 2 && s[s.len() - 2] == '/' {
            prefix
        } else {
            prefix.push(s.last())
        }
    }
}

/// Every leading `./` removed, repeatedly.
pub open spec fn strip_leading_dot_slash(s: Seq<char>) -> Seq<char>
    decreases s.len(),
{
    if s.len() >= 2 && s[0] == '.' && s[1] == '/' {
        strip_leading_dot_slash(s.skip(2))
    } else {
        s
    }
}

/// Every trailing `/` removed.
pub open spec fn strip_trailing_slashes(s: Seq<char>) -> Seq<char>
    decreases s.len(),
{
    if s.len() > 0 && s.last() == '/' {
        strip_trailing_slashes(s.drop_last())
    } else {
        s
    }
}

/// The forward-slash form of a path that names use.
pub open spec fn spec_normalize_path(path: Seq<char>) -> Seq<char> {
    strip_trailing_slashes(strip_leading_dot_slash(collapse_slashes(unify_separators(path))))
}

/// `{org}/{repo}/{normalized path}`.
pub open spec fn spec_file_name(org: Seq<char>, repo: Seq<char>, path: Seq<char>) -> Seq<char> {
    org + seq!['/'] + repo + seq!['/'] + spec_normalize_path(path)
}

/// `{parent}::{segment}`.
pub open spec fn spec_child_name(parent: Seq<char>, segment: Seq<char>) -> Seq<char> {
    parent + seq![':', ':'] + segment
}

/// The `ix://` scheme prefix.
pub open spec fn ix_scheme() -> Seq<char> {
    seq!['i', 'x', ':', '/', '/']
}

/// `ix://{qualified name}`.
pub open spec fn spec_ix_ref(qualified: Seq<char>) -> Seq<char> {
    ix_scheme() + qualified
}

/// The decimal digits of a number, most significant first.
pub open spec fn decimal(n: nat) -> Seq<char>
    decreases n,
{
    if n < 10 {
        seq![digit_char(n)]
    } else {
        decimal(n / 10).push(digit_char(n % 10))
    }
}

/// The ASCII digit for a value below ten.
pub open spec fn digit_char(d: nat) -> char {
    if d == 0 { '0' }
    else if d == 1 { '1' }
    else if d == 2 { '2' }
    else if d == 3 { '3' }
    else if d == 4 { '4' }
    else if d == 5 { '5' }
    else if d == 6 { '6' }
    else if d == 7 { '7' }
    else if d == 8 { '8' }
    else { '9' }
}

/// `<{kind}#{ordinal}>`.
pub open spec fn spec_anonymous_segment(kind: Seq<char>, ordinal: nat) -> Seq<char> {
    seq!['<'] + kind + seq!['#'] + decimal(ordinal) + seq!['>']
}

fn unify_and_collapse(path: &Vec<char>) -> (out: Vec<char>)
    ensures
        out@ == collapse_slashes(unify_separators(path@)),
{
    let ghost u = unify_separators(path@);
    let mut out: Vec<char> = Vec::new();
    let mut i: usize = 0;
    while i < path.len()
        invariant
            i <= path.len(),
            u == unify_separators(path@),
            out@ == collapse_slashes(u.take(i as int)),
            i > 0 ==> out@.len() > 0 && out@.last() == u[i - 1],
        decreases path.len() - i,
    {
        let c = if path[i] == '\\' { '/' } else { path[i] };
        let prev_slash = i > 0 && (path[i - 1] == '/' || path[i - 1] == '\\');
        let ghost before = u.take(i as int);
        let ghost after = u.take(i + 1);
        assert(after.drop_last() == before);
        assert(after.last() == c);
        if !(c == '/' && prev_slash) {
            out.push(c);
        } else {
            assert(after[after.len() - 2] == u[i - 1]);
        }
        i = i + 1;
    }
    assert(u.take(path.len() as int) == u);
    out
}

proof fn lemma_strip_dot_slash_step(s: Seq<char>, k: int)
    requires
        0 <= k <= s.len(),
        strip_leading_dot_slash(s) == strip_leading_dot_slash(s.skip(k)),
        s.skip(k).len() >= 2,
        s[k] == '.',
        s[k + 1] == '/',
    ensures
        strip_leading_dot_slash(s) == strip_leading_dot_slash(s.skip(k + 2)),
{
    assert(s.skip(k).skip(2) == s.skip(k + 2));
}

/// Normalize a consumer-supplied path to the forward-slash form names use.
/// Backslashes become slashes and redundant separators collapse, so a
/// Windows-style path and its POSIX spelling name one file.
pub fn normalize_path(path: &str) -> (out: String)
    ensures
        out@ == spec_normalize_path(path@),
{
    let chars = chars_of(path);
    let c = unify_and_collapse(&chars);
    // Leading `./` pairs.
    let mut start: usize = 0;
    assert(c@.skip(0) == c@);
    while start < c.len() && c.len() - start >= 2 && c[start] == '.' && c[start + 1] == '/'
        invariant
            start <= c.len(),
            strip_leading_dot_slash(c@) == strip_leading_dot_slash(c@.skip(start as int)),
        decreases c.len() - start,
    {
        proof {
            lemma_strip_dot_slash_step(c@, start as int);
        }
        start = start + 2;
    }
    let ghost mid = c@.skip(start as int);
    assert(strip_leading_dot_slash(mid) == mid);
    // Trailing slashes.
    let mut end: usize = c.len();
    assert(mid.take((end - start) as int) == mid);
    while end > start && c[end - 1] == '/'
        invariant
            start <= end <= c.len(),
            mid == c@.skip(start as int),
            strip_trailing_slashes(mid) == strip_trailing_slashes(mid.take((end - start) as int)),
        decreases end,
    {
        assert(mid.take((end - start) as int).drop_last() == mid.take((end - 1 - start) as int));
        end = end - 1;
    }
    let mut out: Vec<char> = Vec::new();
    let mut i = start;
    while i < end
        invariant
            start <= i <= end <= c.len(),
            out@ == c@.subrange(start as int, i as int),
        decreases end - i,
    {
        out.push(c[i]);
        i = i + 1;
        assert(c@.subrange(start as int, i as int) == c@.subrange(start as int, (i - 1) as int).push(c@[i - 1]));
    }
    assert(out@ == mid.take((end - start) as int));
    string_of(&out)
}

/// The qualified name of a file itself: org, repo and path, with no `::`
/// segment.
pub fn file_name(org: &str, repo: &str, path: &str) -> (out: String)
    ensures
        out@ == spec_file_name(org@, repo@, path@),
{
    let mut v = chars_of(org);
    v.push('/');
    let r = chars_of(repo);
    extend_chars(&mut v, &r);
    v.push('/');
    let p = chars_of(normalize_path(path).as_str());
    extend_chars(&mut v, &p);
    string_of(&v)
}

/// Append a `::`-separated segment to a qualified name.
pub fn child_name(parent_qualified: &str, segment: &str) -> (out: String)
    ensures
        out@ == spec_child_name(parent_qualified@, segment@),
{
    let mut v = chars_of(parent_qualified);
    v.push(':');
    v.push(':');
    let s = chars_of(segment);
    extend_chars(&mut v, &s);
    string_of(&v)
}

/// The decimal rendering of a number.
pub fn decimal_chars(n: usize) -> (out: Vec<char>)
    ensures
        out@ == decimal(n as nat),
    decreases n,
{
    let d = n % 10;
    let c = if d == 0 { '0' }
        else if d == 1 { '1' }
        else if d == 2 { '2' }
        else if d == 3 { '3' }
        else if d == 4 { '4' }
        else if d == 5 { '5' }
        else if d == 6 { '6' }
        else if d == 7 { '7' }
        else if d == 8 { '8' }
        else { '9' };
    if n < 10 {
        vec![c]
    } else {
        let mut v = decimal_chars(n / 10);
        v.push(c);
        v
    }
}

/// The segment used for an anonymous declaration: its kind plus its
/// zero-based ordinal among anonymous declarations of the same kind under the
/// same parent. Stable under edits that shift lines.
pub fn anonymous_segment(kind: &str, ordinal: usize) -> (out: String)
    ensures
        out@ == spec_anonymous_segment(kind@, ordinal as nat),
{
    let mut v: Vec<char> = vec!['<'];
    let k = chars_of(kind);
    extend_chars(&mut v, &k);
    v.push('#');
    let d = decimal_chars(ordinal);
    extend_chars(&mut v, &d);
    v.push('>');
    string_of(&v)
}

/// The `ix://` reference for a qualified name.
pub fn ix_ref(qualified_name: &str) -> (out: String)
    ensures
        out@ == spec_ix_ref(qualified_name@),
{
    let mut v: Vec<char> = vec!['i', 'x', ':', '/', '/'];
    let q = chars_of(qualified_name);
    extend_chars(&mut v, &q);
    string_of(&v)
}

/// The names of one file under two different orgs differ: same-named
/// repositories of different orgs stay disjoint.
pub proof fn law_org_prefix_keeps_repos_disjoint(
    org_a: Seq<char>,
    org_b: Seq<char>,
    repo: Seq<char>,
    path: Seq<char>,
)
    requires
        org_a != org_b,
    ensures
        spec_file_name(org_a, repo, path) != spec_file_name(org_b, repo, path),
{
    let tail = seq!['/'] + repo + seq!['/'] + spec_normalize_path(path);
    assert(spec_file_name(org_a, repo, path) =~= org_a + tail);
    assert(spec_file_name(org_b, repo, path) =~= org_b + tail);
    if org_a + tail == org_b + tail {
        assert((org_a + tail).len() == (org_b + tail).len());
        assert((org_a + tail).take(org_a.len() as int) =~= org_a);
        assert((org_b + tail).take(org_b.len() as int) =~= org_b);
    }
}

/// A Windows-style path and its forward-slash spelling name one file.
pub proof fn law_separator_spellings_name_one_file(org: Seq<char>, repo: Seq<char>, path: Seq<char>)
    ensures
        spec_file_name(org, repo, path) == spec_file_name(org, repo, unify_separators(path)),
{
    assert(unify_separators(unify_separators(path)) =~= unify_separators(path));
}

/// No character is a backslash.
pub open spec fn no_backslash(s: Seq<char>) -> bool {
    forall|i: int| 0 <= i < s.len() ==> #[trigger] s[i] != '\\'
}

/// No slash follows a slash.
pub open spec fn no_double_slash(s: Seq<char>) -> bool {
    forall|i: int| 0 <= i < s.len() - 1 ==> !(#[trigger] s[i] == '/' && s[i + 1] == '/')
}

/// The shape a normalized path has: forward slashes only, never two in a
/// row, no leading `./` and no trailing `/`.
pub open spec fn normal_form(s: Seq<char>) -> bool {
    &&& no_backslash(s)
    &&& no_double_slash(s)
    &&& !(s.len() >= 2 && s[0] == '.' && s[1] == '/')
    &&& !(s.len() > 0 && s.last() == '/')
}

proof fn lemma_collapse(s: Seq<char>)
    ensures
        no_double_slash(collapse_slashes(s)),
        no_backslash(s) ==> no_backslash(collapse_slashes(s)),
        s.len() > 0 ==> collapse_slashes(s).len() > 0 && collapse_slashes(s).last() == s.last(),
        no_double_slash(s) ==> collapse_slashes(s) == s,
    decreases s.len(),
{
    if s.len() > 0 {
        let t = s.drop_last();
        lemma_collapse(t);
        let p = collapse_slashes(t);
        if no_double_slash(s) {
            assert(no_double_slash(t)) by {
                assert forall|i: int| 0 <= i < t.len() - 1 implies !(#[trigger] t[i] == '/' && t[i + 1] == '/') by {
                    assert(t[i] == s[i] && t[i + 1] == s[i + 1]);
                }
            }
            if s.len() >= 2 {
                assert(!(s[s.len() - 2] == '/' && s[s.len() - 1] == '/'));
            }
            assert(p.push(s.last()) =~= s);
        }
        if no_backslash(s) {
            assert(no_backslash(t)) by {
                assert forall|i: int| 0 <= i < t.len() implies #[trigger] t[i] != '\\' by {
                    assert(t[i] == s[i]);
                }
            }
        }
        if !(s.last() == '/' && s.len() >= 2 && s[s.len() - 2] == '/') {
            let r = p.push(s.last());
            assert forall|i: int| 0 <= i < r.len() - 1 implies !(#[trigger] r[i] == '/' && r[i + 1] == '/') by {
                if i < p.len() - 1 {
                    assert(r[i] == p[i] && r[i + 1] == p[i + 1]);
                } else {
                    assert(r[i] == p.last());
                    if s.len() >= 2 {
                        assert(p.last() == t.last());
                    }
                }
            }
            if no_backslash(s) {
                assert forall|i: int| 0 <= i < r.len() implies #[trigger] r[i] != '\\' by {
                    if i < p.len() {
                        assert(r[i] == p[i]);
                    }
                }
            }
        }
    }
}

proof fn lemma_strip_leading(s: Seq<char>)
    ensures
        exists|k: int| 0 <= k <= s.len() && strip_leading_dot_slash(s) == s.skip(k),
        !(strip_leading_dot_slash(s).len() >= 2 && strip_leading_dot_slash(s)[0] == '.'
            && strip_leading_dot_slash(s)[1] == '/'),
    decreases s.len(),
{
    if s.len() >= 2 && s[0] == '.' && s[1] == '/' {
        lemma_strip_leading(s.skip(2));
        let k = choose|k: int| 0 <= k <= s.skip(2).len() && strip_leading_dot_slash(s.skip(2)) == s.skip(2).skip(k);
        assert(s.skip(2).skip(k) =~= s.skip(k + 2));
    } else {
        assert(s.skip(0) =~= s);
    }
}

proof fn lemma_strip_trailing(s: Seq<char>)
    ensures
        exists|k: int| 0 <= k <= s.len() && strip_trailing_slashes(s) == s.take(k),
        !(strip_trailing_slashes(s).len() > 0 && strip_trailing_slashes(s).last() == '/'),
    decreases s.len(),
{
    if s.len() > 0 && s.last() == '/' {
        lemma_strip_trailing(s.drop_last());
        let k = choose|k: int| 0 <= k <= s.drop_last().len() && strip_trailing_slashes(s.drop_last()) == s.drop_last().take(k);
        assert(s.drop_last().take(k) =~= s.take(k));
    } else {
        assert(s.take(s.len() as int) =~= s);
    }
}

/// A normalized path has the normal form.
proof fn lemma_normalized_is_normal(path: Seq<char>)
    ensures
        normal_form(spec_normalize_path(path)),
{
    let u = unify_separators(path);
    assert(no_backslash(u));
    lemma_collapse(u);
    let c = collapse_slashes(u);
    lemma_strip_leading(c);
    let l = strip_leading_dot_slash(c);
    let k = choose|k: int| 0 <= k <= c.len() && l == c.skip(k);
    assert(no_backslash(l)) by {
        assert forall|i: int| 0 <= i < l.len() implies #[trigger] l[i] != '\\' by {
            assert(l[i] == c[i + k]);
        }
    }
    assert(no_double_slash(l)) by {
        assert forall|i: int| 0 <= i < l.len() - 1 implies !(#[trigger] l[i] == '/' && l[i + 1] == '/') by {
            assert(l[i] == c[i + k] && l[i + 1] == c[i + k + 1]);
        }
    }
    lemma_strip_trailing(l);
    let r = strip_trailing_slashes(l);
    let m = choose|m: int| 0 <= m <= l.len() && r == l.take(m);
    assert(no_backslash(r)) by {
        assert forall|i: int| 0 <= i < r.len() implies #[trigger] r[i] != '\\' by {
            assert(r[i] == l[i]);
        }
    }
    assert(no_double_slash(r)) by {
        assert forall|i: int| 0 <= i < r.len() - 1 implies !(#[trigger] r[i] == '/' && r[i + 1] == '/') by {
            assert(r[i] == l[i] && r[i + 1] == l[i + 1]);
        }
    }
    if r.len() >= 2 {
        assert(r[0] == l[0] && r[1] == l[1]);
    }
}

/// A path of the normal form normalizes to itself.
proof fn lemma_normal_is_fixed(s: Seq<char>)
    requires
        normal_form(s),
    ensures
        spec_normalize_path(s) == s,
{
    assert(unify_separators(s) =~= s);
    lemma_collapse(s);
}

/// Normalizing a normalized path changes nothing.
pub proof fn law_normalize_is_idempotent(path: Seq<char>)
    ensures
        spec_normalize_path(spec_normalize_path(path)) == spec_normalize_path(path),
{
    lemma_normalized_is_normal(path);
    lemma_normal_is_fixed(spec_normalize_path(path));
}

proof fn lemma_digit_char_injective(a: nat, b: nat)
    requires
        a < 10,
        b < 10,
        digit_char(a) == digit_char(b),
    ensures
        a == b,
{
}

proof fn lemma_decimal_len(n: nat)
    ensures
        decimal(n).len() >= 1,
        n >= 10 ==> decimal(n).len() >= 2,
    decreases n,
{
    if n >= 10 {
        lemma_decimal_len(n / 10);
    }
}

/// Different numbers are written with different digits.
proof fn lemma_decimal_injective(a: nat, b: nat)
    requires
        decimal(a) == decimal(b),
    ensures
        a == b,
    decreases a + b,
{
    lemma_decimal_len(a);
    lemma_decimal_len(b);
    if a < 10 && b < 10 {
        assert(decimal(a)[0] == digit_char(a));
        assert(decimal(b)[0] == digit_char(b));
        lemma_digit_char_injective(a, b);
    } else if a < 10 || b < 10 {
        lemma_decimal_len(a / 10);
        lemma_decimal_len(b / 10);
    } else {
        assert(decimal(a).last() == digit_char(a % 10));
        assert(decimal(b).last() == digit_char(b % 10));
        lemma_digit_char_injective(a % 10, b % 10);
        assert(decimal(a).drop_last() =~= decimal(a / 10));
        assert(decimal(b).drop_last() =~= decimal(b / 10));
        lemma_decimal_injective(a / 10, b / 10);
    }
}

/// Anonymous segments are told apart by their ordinal: two ordinals of one
/// kind never share a segment.
pub proof fn law_anonymous_segments_are_ordinal(kind: Seq<char>, a: nat, b: nat)
    requires
        a != b,
    ensures
        spec_anonymous_segment(kind, a) != spec_anonymous_segment(kind, b),
{
    let head = seq!['<'] + kind + seq!['#'];
    if spec_anonymous_segment(kind, a) == spec_anonymous_segment(kind, b) {
        let x = spec_anonymous_segment(kind, a);
        assert(x =~= head + decimal(a) + seq!['>']);
        assert(spec_anonymous_segment(kind, b) =~= head + decimal(b) + seq!['>']);
        assert((head + decimal(a) + seq!['>']).drop_last().skip(head.len() as int) =~= decimal(a));
        assert((head + decimal(b) + seq!['>']).drop_last().skip(head.len() as int) =~= decimal(b));
        lemma_decimal_injective(a, b);
    }
}

} // verus!
