//! The measurement producer's inputs: its command line, the pins it must be
//! given, the plan it runs under, and which corpus files it counts.
//!
//! Everything here decides on text the producer has already read; reading
//! files and running child processes is the caller's part.

use vstd::prelude::*;

use crate::measurement::{GrammarRevision, DEFINITION_VERSION, METRIC, PLAN_ID};
use crate::order::same_text;
use crate::records::is_lower_hex;
use crate::text::{
    chars_of, extend_chars, find_text, first_match, has_prefix, last_match, lemma_first_match,
    lemma_last_match, lemma_last_match_is_last, matches_at, rfind_text, slice_chars, split_chars, split_on, split_on_from,
    starts_with, string_of, views,
};

verus! {

/// The producer's usage line.
pub const USAGE: &'static str = "usage: measure_graph_quality --repo-root DIR --corpus DIR --extractor FILE --quire FILE --python FILE --output-dir DIR --timestamp RFC3339 --source-revision SHA --corpus-source-revision SHA --scorer-revision SHA --config-digest sha256:HEX --grammar language=crate@revision [--grammar ...] --node-version VERSION --rust-version VERSION --python-version VERSION --source-remote URL --corpus-remote URL";

/// The producer's usage line.
pub fn usage() -> (r: &'static str)
    ensures
        r@ == USAGE@,
{
    USAGE
}

/// The characters of two texts, one after the other.
fn concat_text(a: &str, b: &str) -> (r: Vec<char>)
    ensures
        r@ == a@ + b@,
{
    let mut v = chars_of(a);
    let w = chars_of(b);
    extend_chars(&mut v, &w);
    v
}

/// A digest with its `sha256:` scheme, added where it is missing.
pub open spec fn spec_normalize_digest(value: Seq<char>) -> Seq<char> {
    if starts_with(value, "sha256:"@) {
        value
    } else {
        "sha256:"@ + value
    }
}

/// Prefixes `sha256:` to a digest that lacks it.
pub fn normalize_digest(value: &str) -> (r: String)
    ensures
        r@ == spec_normalize_digest(value@),
{
    let v = chars_of(value);
    if has_prefix(&v, "sha256:") {
        string_of(&v)
    } else {
        let c = concat_text("sha256:", value);
        string_of(&c)
    }
}

/// The text with every `'` written as `'\''`.
pub open spec fn escape_quotes(s: Seq<char>) -> Seq<char>
    decreases s.len(),
{
    if s.len() == 0 {
        Seq::empty()
    } else if s.last() == '\'' {
        escape_quotes(s.drop_last()) + seq!['\'', '\\', '\'', '\'']
    } else {
        escape_quotes(s.drop_last()).push(s.last())
    }
}

/// One POSIX-shell word that stands for the text.
pub open spec fn spec_shell_quote(s: Seq<char>) -> Seq<char> {
    seq!['\''] + escape_quotes(s) + seq!['\'']
}

/// Quotes a value as one POSIX-shell word.
pub fn shell_quote(value: &str) -> (r: String)
    ensures
        r@ == spec_shell_quote(value@),
{
    let v = chars_of(value);
    let mut out: Vec<char> = Vec::new();
    out.push('\'');
    let mut i: usize = 0;
    while i < v.len()
        invariant
            i <= v.len(),
            v@ == value@,
            out@ == seq!['\''] + escape_quotes(v@.take(i as int)),
        decreases v.len() - i,
    {
        let ghost before = out@;
        if v[i] == '\'' {
            out.push('\'');
            out.push('\\');
            out.push('\'');
            out.push('\'');
        } else {
            out.push(v[i]);
        }
        proof {
            let t = v@.take(i + 1);
            assert(t.drop_last() == v@.take(i as int));
            assert(t.last() == v@[i as int]);
            assert(out@ =~= seq!['\''] + escape_quotes(t));
        }
        i = i + 1;
    }
    out.push('\'');
    assert(v@.take(v.len() as int) == v@);
    string_of(&out)
}

/// Every character is a lowercase hexadecimal digit.
pub open spec fn all_lower_hex(s: Seq<char>) -> bool {
    forall|i: int| 0 <= i < s.len() ==> is_lower_hex(#[trigger] s[i])
}

fn chars_lower_hex(s: &Vec<char>, lo: usize) -> (r: bool)
    requires
        lo <= s.len(),
    ensures
        r == all_lower_hex(s@.skip(lo as int)),
{
    let mut i: usize = lo;
    while i < s.len()
        invariant
            lo <= i <= s.len(),
            forall|k: int| lo <= k < i ==> is_lower_hex(#[trigger] s@[k]),
        decreases s.len() - i,
    {
        let c = s[i];
        if !(('0' <= c && c <= '9') || ('a' <= c && c <= 'f')) {
            assert(s@.skip(lo as int)[i - lo] == c);
            return false;
        }
        i = i + 1;
    }
    assert forall|k: int| 0 <= k < s@.skip(lo as int).len() implies is_lower_hex(
        #[trigger] s@.skip(lo as int)[k],
    ) by {
        assert(s@.skip(lo as int)[k] == s@[lo + k]);
    }
    true
}

/// `sha256:` and exactly 64 lowercase hexadecimal digits.
pub open spec fn spec_valid_digest(value: Seq<char>) -> bool {
    &&& starts_with(value, "sha256:"@)
    &&& value.len() == "sha256:"@.len() + 64
    &&& all_lower_hex(value.skip("sha256:"@.len() as int))
}

/// Whether a value is a full `sha256:` digest.
pub fn valid_digest(value: &str) -> (r: bool)
    ensures
        r == spec_valid_digest(value@),
{
    let v = chars_of(value);
    let p = chars_of("sha256:");
    if !has_prefix(&v, "sha256:") {
        return false;
    }
    if v.len() - p.len() != 64 {
        return false;
    }
    chars_lower_hex(&v, p.len())
}

/// A full revision: exactly 40 lowercase hexadecimal digits.
pub open spec fn spec_full_revision(value: Seq<char>) -> bool {
    value.len() == 40 && all_lower_hex(value)
}

/// Whether a value is a full lowercase 40-digit revision.
pub fn full_revision(value: &str) -> (r: bool)
    ensures
        r == spec_full_revision(value@),
{
    let v = chars_of(value);
    if v.len() != 40 {
        return false;
    }
    assert(v@.skip(0) == v@);
    chars_lower_hex(&v, 0)
}

pub proof fn lemma_split_on_from_nonempty(rest: Seq<char>, cur: Seq<char>, c: char)
    ensures
        split_on_from(rest, cur, c).len() >= 1,
    decreases rest.len(),
{
    if rest.len() == 0 {
    } else if rest[0] == c {
        lemma_split_on_from_nonempty(rest.skip(1), Seq::empty(), c);
    } else {
        lemma_split_on_from_nonempty(rest.skip(1), cur.push(rest[0]), c);
    }
}

/// Some segment of a `/`-separated path is `input` or `variant`: the file
/// sits inside a fixture's source tree.
pub open spec fn spec_inside_source_tree(path: Seq<char>) -> bool {
    exists|k: int|
        0 <= k < split_on(path, '/').len() && (#[trigger] split_on(path, '/')[k] == "input"@
            || split_on(path, '/')[k] == "variant"@)
}

/// Whether a path lies beneath a directory named `input` or `variant`
/// (the path itself counted).
pub fn inside_source_tree(path: &str) -> (r: bool)
    ensures
        r == spec_inside_source_tree(path@),
{
    let v = chars_of(path);
    let segs = split_chars(&v, '/');
    let mut i: usize = 0;
    while i < segs.len()
        invariant
            i <= segs.len(),
            views(segs@) == split_on(path@, '/'),
            forall|k: int|
                0 <= k < i ==> !(#[trigger] split_on(path@, '/')[k] == "input"@ || split_on(
                    path@,
                    '/',
                )[k] == "variant"@),
        decreases segs.len() - i,
    {
        let s = string_of(&segs[i]);
        assert(s@ == split_on(path@, '/')[i as int]);
        if same_text(s.as_str(), "input") || same_text(s.as_str(), "variant") {
            return true;
        }
        i = i + 1;
    }
    false
}

/// The last segment that names something (`Path::file_name`): empty and
/// `.` segments are skipped, and a final `..` names nothing.
pub open spec fn last_named(segs: Seq<Seq<char>>) -> Option<Seq<char>>
    decreases segs.len(),
{
    if segs.len() == 0 {
        None
    } else if segs.last().len() == 0 || segs.last() == "."@ {
        last_named(segs.drop_last())
    } else if segs.last() == ".."@ {
        None
    } else {
        Some(segs.last())
    }
}

/// The extension of a file name (`Path::extension`): what follows its last
/// `.`, where that `.` is not the name's first character.
pub open spec fn spec_extension(name: Seq<char>) -> Option<Seq<char>> {
    let k = last_match(name, "."@);
    if k > 0 {
        Some(name.skip(k + 1))
    } else {
        None
    }
}

/// The file is Rust, TypeScript, TSX or Python by its extension.
pub open spec fn spec_supported(path: Seq<char>) -> bool {
    match last_named(split_on(path, '/')) {
        Some(name) => match spec_extension(name) {
            Some(e) => e == "rs"@ || e == "ts"@ || e == "tsx"@ || e == "py"@,
            None => false,
        },
        None => false,
    }
}

/// Whether a file name's extension is `rs`, `ts`, `tsx` or `py`.
fn extension_supported(name: &Vec<char>) -> (r: bool)
    ensures
        r == (match spec_extension(name@) {
            Some(e) => e == "rs"@ || e == "ts"@ || e == "tsx"@ || e == "py"@,
            None => false,
        }),
{
    proof {
        reveal_strlit(".");
        lemma_last_match(name@, "."@);
    }
    match rfind_text(name, ".") {
        Some(k) => {
            if k == 0 {
                return false;
            }
            let n = name.len();
            assert(matches_at(name@, "."@, k as int));
            assert("."@.len() == 1);
            assert(k + 1 <= n);
            let ext = slice_chars(name, k + 1, n);
            assert(ext@ == name@.skip(k + 1));
            let e = string_of(&ext);
            same_text(e.as_str(), "rs") || same_text(e.as_str(), "ts") || same_text(
                e.as_str(),
                "tsx",
            ) || same_text(e.as_str(), "py")
        },
        None => false,
    }
}

/// Whether the path names a Rust, TypeScript, TSX or Python file.
pub fn supported(path: &str) -> (r: bool)
    ensures
        r == spec_supported(path@),
{
    let v = chars_of(path);
    let segs = split_chars(&v, '/');
    let ghost all = views(segs@);
    let mut n: usize = segs.len();
    assert(all.take(n as int) == all);
    loop
        invariant
            n <= segs.len(),
            all == views(segs@),
            all == split_on(path@, '/'),
            last_named(all) == last_named(all.take(n as int)),
        decreases n,
    {
        if n == 0 {
            return false;
        }
        let ghost t = all.take(n as int);
        assert(t.drop_last() == all.take(n - 1));
        assert(t.last() == segs@[n - 1]@);
        let s = string_of(&segs[n - 1]);
        if segs[n - 1].len() == 0 || same_text(s.as_str(), ".") {
            n = n - 1;
        } else if same_text(s.as_str(), "..") {
            return false;
        } else {
            return extension_supported(&segs[n - 1]);
        }
    }
}

/// A line without the `\r` of a `\r\n` ending.
pub open spec fn strip_cr(p: Seq<char>) -> Seq<char> {
    if p.len() > 0 && p.last() == '\r' {
        p.drop_last()
    } else {
        p
    }
}

/// The lines of a text (`str::lines`): split at each `\n`, with a `\r`
/// before it dropped and no empty line after a final `\n`.
pub open spec fn spec_lines(s: Seq<char>) -> Seq<Seq<char>> {
    let parts = split_on(s, '\n');
    let init = parts.take(parts.len() - 1).map_values(|p: Seq<char>| strip_cr(p));
    if parts.last().len() == 0 {
        init
    } else {
        init.push(parts.last())
    }
}

fn strip_cr_chars(p: &Vec<char>) -> (r: Vec<char>)
    ensures
        r@ == strip_cr(p@),
{
    if p.len() > 0 && p[p.len() - 1] == '\r' {
        slice_chars(p, 0, p.len() - 1)
    } else {
        slice_chars(p, 0, p.len())
    }
}

/// The lines of a text.
pub fn lines_of(s: &Vec<char>) -> (r: Vec<Vec<char>>)
    ensures
        views(r@) == spec_lines(s@),
{
    let parts = split_chars(s, '\n');
    proof {
        lemma_split_on_from_nonempty(s@, Seq::empty(), '\n');
    }
    let ghost ps = split_on(s@, '\n');
    let n = parts.len();
    let mut out: Vec<Vec<char>> = Vec::new();
    let mut i: usize = 0;
    while i < n - 1
        invariant
            1 <= n == parts.len(),
            views(parts@) == ps,
            ps == split_on(s@, '\n'),
            i <= n - 1,
            views(out@) == ps.take(i as int).map_values(|p: Seq<char>| strip_cr(p)),
        decreases n - 1 - i,
    {
        let line = strip_cr_chars(&parts[i]);
        let ghost before = views(out@);
        out.push(line);
        proof {
            assert(ps[i as int] == parts@[i as int]@);
            assert(views(out@) =~= before.push(strip_cr(ps[i as int])));
            assert(ps.take(i + 1).map_values(|p: Seq<char>| strip_cr(p)) =~= ps.take(
                i as int,
            ).map_values(|p: Seq<char>| strip_cr(p)).push(strip_cr(ps[i as int])));
        }
        i = i + 1;
    }
    assert(ps.last() == parts@[n - 1]@);
    if parts[n - 1].len() > 0 {
        let ghost before = views(out@);
        let last = slice_chars(&parts[n - 1], 0, parts[n - 1].len());
        assert(last@ =~= parts@[n - 1]@);
        out.push(last);
        assert(views(out@) =~= before.push(ps.last()));
    }
    out
}

/// Whether the line occurs among the lines.
fn has_line(lines: &Vec<Vec<char>>, line: &Vec<char>) -> (r: bool)
    ensures
        r == views(lines@).contains(line@),
{
    let target = string_of(line);
    let mut i: usize = 0;
    while i < lines.len()
        invariant
            i <= lines.len(),
            target@ == line@,
            forall|k: int| 0 <= k < i ==> lines@[k]@ != line@,
        decreases lines.len() - i,
    {
        let s = string_of(&lines[i]);
        if same_text(s.as_str(), target.as_str()) {
            assert(views(lines@)[i as int] == line@);
            return true;
        }
        i = i + 1;
    }
    assert forall|k: int| 0 <= k < views(lines@).len() implies views(lines@)[k] != line@ by {
        assert(views(lines@)[k] == lines@[k]@);
    }
    false
}

/// The plan's sampling rule, as its frontmatter must state it.
pub const PLAN_SAMPLING: &'static str = "  sampling: complete census with no sampling; preserve language, node-kind, relation-kind, and resolver-tier strata";

/// The plan's decision rule, as its frontmatter must state it.
pub const PLAN_DECISION: &'static str = "  decision_rule: reject a measured run with any wrong heuristic edge; report recall independently; treat non-measured states as no decision";

/// The lines the plan's frontmatter must hold, in the order they are checked.
pub open spec fn expected_plan_lines() -> Seq<Seq<char>> {
    seq![
        "id: "@ + PLAN_ID@,
        "type: MeasurementPlan"@,
        "status: active"@,
        "metric: "@ + METRIC@,
        "definition_version: "@ + DEFINITION_VERSION@,
        PLAN_SAMPLING@,
        PLAN_DECISION@,
    ]
}

/// The frontmatter of a plan: what lies between a leading `---` line and
/// the next `---` line.
pub open spec fn plan_frontmatter(text: Seq<char>) -> Option<Seq<char>> {
    if starts_with(text, "---\n"@) {
        let rest = text.skip("---\n"@.len() as int);
        let k = first_match(rest, "\n---\n"@);
        if k >= 0 {
            Some(rest.take(k))
        } else {
            None
        }
    } else {
        None
    }
}

/// The first expected line that none of the lines is.
pub open spec fn first_absent(lines: Seq<Seq<char>>, expected: Seq<Seq<char>>) -> Option<Seq<char>>
    decreases expected.len(),
{
    if expected.len() == 0 {
        None
    } else if lines.contains(expected[0]) {
        first_absent(lines, expected.drop_first())
    } else {
        Some(expected[0])
    }
}

/// Why a plan does not govern this measurement, if it does not.
pub open spec fn plan_error(text: Seq<char>) -> Option<Seq<char>> {
    match plan_frontmatter(text) {
        None => Some("MP-001 has no YAML frontmatter"@),
        Some(front) => match first_absent(spec_lines(front), expected_plan_lines()) {
            Some(line) => Some("MP-001 semantic mismatch: expected `"@ + line + "`"@),
            None => None,
        },
    }
}

/// Checks that the plan is active and states the governed metric,
/// definition, sampling and decision rule, each on a frontmatter line of its
/// own.
pub fn validate_plan_semantics(text: &str) -> (r: Result<(), String>)
    ensures
        match r {
            Ok(_) => plan_error(text@) == None::<Seq<char>>,
            Err(e) => plan_error(text@) == Some(e@),
        },
{
    let t = chars_of(text);
    if !has_prefix(&t, "---\n") {
        return Err(string_of(&chars_of("MP-001 has no YAML frontmatter")));
    }
    let open_len = chars_of("---\n").len();
    let rest = slice_chars(&t, open_len, t.len());
    assert(rest@ == text@.skip("---\n"@.len() as int));
    proof {
        lemma_first_match(rest@, "\n---\n"@);
    }
    let k = match find_text(&rest, "\n---\n") {
        Some(k) => k,
        None => {
            return Err(string_of(&chars_of("MP-001 has no YAML frontmatter")));
        },
    };
    let front = slice_chars(&rest, 0, k);
    assert(front@ == rest@.take(k as int));
    let lines = lines_of(&front);
    let expected: Vec<Vec<char>> = vec![
        concat_text("id: ", PLAN_ID),
        chars_of("type: MeasurementPlan"),
        chars_of("status: active"),
        concat_text("metric: ", METRIC),
        concat_text("definition_version: ", DEFINITION_VERSION),
        chars_of(PLAN_SAMPLING),
        chars_of(PLAN_DECISION),
    ];
    assert(views(expected@) =~= expected_plan_lines());
    let ghost ls = spec_lines(front@);
    assert(plan_frontmatter(text@) == Some(front@));
    assert(expected_plan_lines().skip(0) =~= expected_plan_lines());
    let mut i: usize = 0;
    while i < expected.len()
        invariant
            i <= expected.len(),
            views(lines@) == ls,
            ls == spec_lines(front@),
            plan_frontmatter(text@) == Some(front@),
            views(expected@) == expected_plan_lines(),
            first_absent(ls, expected_plan_lines()) == first_absent(
                ls,
                expected_plan_lines().skip(i as int),
            ),
        decreases expected.len() - i,
    {
        let ghost tail = expected_plan_lines().skip(i as int);
        assert(tail[0] == expected@[i as int]@);
        assert(tail.drop_first() == expected_plan_lines().skip(i + 1));
        if !has_line(&lines, &expected[i]) {
            let mut msg = chars_of("MP-001 semantic mismatch: expected `");
            extend_chars(&mut msg, &expected[i]);
            let close = chars_of("`");
            extend_chars(&mut msg, &close);
            assert(!ls.contains(tail[0]));
            assert(first_absent(ls, tail) == Some(tail[0]));
            assert(first_absent(ls, expected_plan_lines()) == Some(expected@[i as int]@));
            assert(msg@ == "MP-001 semantic mismatch: expected `"@ + expected@[i as int]@ + "`"@);
            assert(plan_error(text@) == Some(msg@));
            return Err(string_of(&msg));
        }
        i = i + 1;
    }
    assert(expected_plan_lines().skip(7).len() == 0);
    Ok(())
}

/// The pieces between the leftmost non-overlapping occurrences of `pat`
/// (`str::split` with a non-empty text pattern).
pub open spec fn split_text(s: Seq<char>, pat: Seq<char>) -> Seq<Seq<char>>
    decreases s.len(),
{
    if pat.len() == 0 {
        seq![s]
    } else {
        let k = first_match(s, pat);
        if k < 0 || k + pat.len() > s.len() {
            seq![s]
        } else {
            seq![s.take(k)] + split_text(s.skip(k + pat.len()), pat)
        }
    }
}

/// Splits a text at every occurrence of a non-empty pattern.
fn split_text_chars(s: &Vec<char>, pat: &str) -> (r: Vec<Vec<char>>)
    ensures
        views(r@) == split_text(s@, pat@),
{
    let pc = chars_of(pat);
    let mut out: Vec<Vec<char>> = Vec::new();
    if pc.len() == 0 {
        let all = slice_chars(s, 0, s.len());
        assert(all@ =~= s@);
        out.push(all);
        assert(views(out@) =~= seq![s@]);
        return out;
    }
    let mut lo: usize = 0;
    assert(s@.skip(0) =~= s@);
    assert(views(out@) + split_text(s@, pat@) =~= split_text(s@, pat@));
    loop
        invariant
            lo <= s.len(),
            pc@ == pat@,
            pc.len() > 0,
            split_text(s@, pat@) == views(out@) + split_text(s@.skip(lo as int), pat@),
        decreases s.len() - lo,
    {
        let rest = slice_chars(s, lo, s.len());
        assert(rest@ == s@.skip(lo as int));
        proof {
            lemma_first_match(rest@, pat@);
        }
        match find_text(&rest, pat) {
            Some(k) => {
                assert(matches_at(rest@, pat@, k as int));
                let piece = slice_chars(&rest, 0, k);
                let ghost prev = views(out@);
                out.push(piece);
                proof {
                    assert(rest@.skip(k + pc.len()) =~= s@.skip(lo + k + pc.len()));
                    assert(piece@ == rest@.take(k as int));
                    assert(views(out@) =~= prev.push(piece@));
                    let tail = split_text(rest@.skip(k + pat@.len()), pat@);
                    assert(split_text(rest@, pat@) == seq![rest@.take(k as int)] + tail);
                    assert(prev + (seq![piece@] + tail) =~= views(out@) + tail);
                }
                lo = lo + k + pc.len();
            },
            None => {
                let ghost prev = views(out@);
                out.push(rest);
                assert(views(out@) =~= prev + seq![s@.skip(lo as int)]);
                return out;
            },
        }
    }
}

/// The value of a `{prefix}value"` line.
pub open spec fn field_value(line: Seq<char>, prefix: Seq<char>) -> Option<Seq<char>> {
    if starts_with(line, prefix) {
        let rest = line.skip(prefix.len() as int);
        if rest.len() > 0 && rest.last() == '"' {
            Some(rest.drop_last())
        } else {
            None
        }
    } else {
        None
    }
}

/// The value of the last `{prefix}value"` line.
pub open spec fn last_field(lines: Seq<Seq<char>>, prefix: Seq<char>) -> Option<Seq<char>>
    decreases lines.len(),
{
    if lines.len() == 0 {
        None
    } else {
        match field_value(lines.last(), prefix) {
            Some(v) => Some(v),
            None => last_field(lines.drop_last(), prefix),
        }
    }
}

/// The version of the first package block named `package`.
pub open spec fn lock_lookup(blocks: Seq<Seq<char>>, package: Seq<char>) -> Result<
    Seq<char>,
    Seq<char>,
>
    decreases blocks.len(),
{
    if blocks.len() == 0 {
        Err("Cargo.lock has no package "@ + package)
    } else {
        let lines = spec_lines(blocks[0]);
        if last_field(lines, "name = \""@) == Some(package) {
            match last_field(lines, "version = \""@) {
                Some(v) => Ok(v),
                None => Err("Cargo.lock package "@ + package + " has no version"@),
            }
        } else {
            lock_lookup(blocks.drop_first(), package)
        }
    }
}

/// The version a lock file pins a package at: the blocks after each
/// `[[package]]` are read in order, and in a block the last `name` and
/// `version` lines count.
pub open spec fn spec_locked_version(lock: Seq<char>, package: Seq<char>) -> Result<
    Seq<char>,
    Seq<char>,
> {
    lock_lookup(split_text(lock, "[[package]]"@).drop_first(), package)
}

fn field_of(line: &Vec<char>, prefix: &str) -> (r: Option<Vec<char>>)
    ensures
        match r {
            Some(v) => field_value(line@, prefix@) == Some(v@),
            None => field_value(line@, prefix@) == None::<Seq<char>>,
        },
{
    if !has_prefix(line, prefix) {
        return None;
    }
    let n = chars_of(prefix).len();
    let rest = slice_chars(line, n, line.len());
    assert(rest@ == line@.skip(prefix@.len() as int));
    if rest.len() > 0 && rest[rest.len() - 1] == '"' {
        let v = slice_chars(&rest, 0, rest.len() - 1);
        assert(v@ =~= rest@.drop_last());
        Some(v)
    } else {
        None
    }
}

fn last_field_of(lines: &Vec<Vec<char>>, prefix: &str) -> (r: Option<Vec<char>>)
    ensures
        match r {
            Some(v) => last_field(views(lines@), prefix@) == Some(v@),
            None => last_field(views(lines@), prefix@) == None::<Seq<char>>,
        },
{
    let mut found: Option<Vec<char>> = None;
    let mut i: usize = 0;
    assert(views(lines@).take(0).len() == 0);
    while i < lines.len()
        invariant
            i <= lines.len(),
            match found {
                Some(v) => last_field(views(lines@).take(i as int), prefix@) == Some(v@),
                None => last_field(views(lines@).take(i as int), prefix@) == None::<Seq<char>>,
            },
        decreases lines.len() - i,
    {
        let ghost t = views(lines@).take(i + 1);
        assert(t.drop_last() == views(lines@).take(i as int));
        assert(t.last() == lines@[i as int]@);
        match field_of(&lines[i], prefix) {
            Some(v) => {
                found = Some(v);
            },
            None => {},
        }
        i = i + 1;
    }
    assert(views(lines@).take(lines.len() as int) == views(lines@));
    found
}

/// The version a lock file pins a package at.
pub fn locked_version(lock: &str, package: &str) -> (r: Result<String, String>)
    ensures
        match r {
            Ok(v) => spec_locked_version(lock@, package@) == Ok::<Seq<char>, Seq<char>>(v@),
            Err(e) => spec_locked_version(lock@, package@) == Err::<Seq<char>, Seq<char>>(e@),
        },
{
    let l = chars_of(lock);
    let blocks = split_text_chars(&l, "[[package]]");
    let ghost all = views(blocks@);
    let mut i: usize = 1;
    if blocks.len() == 0 {
        let e = concat_text("Cargo.lock has no package ", package);
        return Err(string_of(&e));
    }
    assert(all.drop_first() == all.skip(1));
    while i < blocks.len()
        invariant
            1 <= i <= blocks.len(),
            all == views(blocks@),
            all == split_text(lock@, "[[package]]"@),
            spec_locked_version(lock@, package@) == lock_lookup(all.skip(i as int), package@),
        decreases blocks.len() - i,
    {
        let ghost tail = all.skip(i as int);
        assert(tail[0] == blocks@[i as int]@);
        assert(tail.drop_first() == all.skip(i + 1));
        let lines = lines_of(&blocks[i]);
        let name = last_field_of(&lines, "name = \"");
        let is_package = match &name {
            Some(n) => {
                let ns = string_of(n);
                same_text(ns.as_str(), package)
            },
            None => false,
        };
        if is_package {
            match last_field_of(&lines, "version = \"") {
                Some(v) => {
                    return Ok(string_of(&v));
                },
                None => {
                    let mut e = concat_text("Cargo.lock package ", package);
                    let tail_text = chars_of(" has no version");
                    extend_chars(&mut e, &tail_text);
                    return Err(string_of(&e));
                },
            }
        }
        i = i + 1;
    }
    assert(all.skip(i as int).len() == 0);
    let e = concat_text("Cargo.lock has no package ", package);
    Err(string_of(&e))
}

/// A malformed `--grammar` value, named with the form it should have.
pub open spec fn grammar_shape_error(value: Seq<char>) -> Seq<char> {
    "invalid --grammar "@ + value + "; expected language=grammar@revision"@
}

/// A grammar pin as plain text: language, grammar, revision.
pub type GrammarView = (Seq<char>, Seq<char>, Seq<char>);

/// The plain text of a grammar pin.
pub open spec fn grammar_view(g: GrammarRevision) -> GrammarView {
    (g.language@, g.grammar@, g.revision@)
}

/// `language=grammar@revision`: split at the first `=` and the last `@`
/// after it, with no part empty.
pub open spec fn spec_parse_grammar(value: Seq<char>) -> Result<GrammarView, Seq<char>> {
    let k = first_match(value, "="@);
    if k < 0 {
        Err(grammar_shape_error(value))
    } else {
        let language = value.take(k);
        let rest = value.skip(k + 1);
        let j = last_match(rest, "@"@);
        if j < 0 {
            Err(grammar_shape_error(value))
        } else {
            let grammar = rest.take(j);
            let revision = rest.skip(j + 1);
            if language.len() == 0 || grammar.len() == 0 || revision.len() == 0 {
                Err("invalid --grammar "@ + value)
            } else {
                Ok((language, grammar, revision))
            }
        }
    }
}

fn grammar_shape_message(value: &Vec<char>) -> (r: String)
    ensures
        r@ == grammar_shape_error(value@),
{
    let mut e = chars_of("invalid --grammar ");
    extend_chars(&mut e, value);
    let t = chars_of("; expected language=grammar@revision");
    extend_chars(&mut e, &t);
    string_of(&e)
}

/// Parses a `--grammar language=grammar@revision` value.
pub fn parse_grammar(value: String) -> (r: Result<GrammarRevision, String>)
    ensures
        match r {
            Ok(g) => spec_parse_grammar(value@) == Ok::<GrammarView, Seq<char>>(grammar_view(g)),
            Err(e) => spec_parse_grammar(value@) == Err::<GrammarView, Seq<char>>(e@),
        },
{
    proof {
        reveal_strlit("=");
        reveal_strlit("@");
        lemma_first_match(value@, "="@);
    }
    let v = chars_of(value.as_str());
    let k = match find_text(&v, "=") {
        Some(k) => k,
        None => {
            return Err(grammar_shape_message(&v));
        },
    };
    assert(matches_at(v@, "="@, k as int));
    let n = v.len();
    assert(k + 1 <= n);
    let language = slice_chars(&v, 0, k);
    let rest = slice_chars(&v, k + 1, n);
    assert(language@ == value@.take(k as int));
    assert(rest@ == value@.skip(k + 1));
    proof {
        lemma_last_match(rest@, "@"@);
    }
    let j = match rfind_text(&rest, "@") {
        Some(j) => j,
        None => {
            return Err(grammar_shape_message(&v));
        },
    };
    assert(matches_at(rest@, "@"@, j as int));
    let m = rest.len();
    assert(j + 1 <= m);
    let grammar = slice_chars(&rest, 0, j);
    let revision = slice_chars(&rest, j + 1, m);
    assert(grammar@ == rest@.take(j as int));
    assert(revision@ == rest@.skip(j + 1));
    if language.len() == 0 || grammar.len() == 0 || revision.len() == 0 {
        let e = concat_text("invalid --grammar ", value.as_str());
        return Err(string_of(&e));
    }
    Ok(GrammarRevision {
        language: string_of(&language),
        grammar: string_of(&grammar),
        revision: string_of(&revision),
    })
}

/// The producer's command line: every value as written, paths included.
#[derive(Debug, Clone)]
pub struct Args {
    pub repo_root: String,
    pub corpus: String,
    pub extractor: String,
    pub quire: String,
    pub python: String,
    pub output_dir: String,
    pub timestamp: String,
    pub source_revision: String,
    pub corpus_source_revision: String,
    pub scorer_revision: String,
    pub config_digest: String,
    pub grammars: Vec<GrammarRevision>,
    pub node_version: String,
    pub rust_version: String,
    pub python_version: String,
    pub source_remote: String,
    pub corpus_remote: String,
}

/// The options the producer knows.
pub open spec fn known_flags() -> Seq<Seq<char>> {
    seq![
        "--repo-root"@,
        "--corpus"@,
        "--extractor"@,
        "--quire"@,
        "--python"@,
        "--output-dir"@,
        "--timestamp"@,
        "--source-revision"@,
        "--corpus-source-revision"@,
        "--scorer-revision"@,
        "--config-digest"@,
        "--grammar"@,
        "--node-version"@,
        "--rust-version"@,
        "--python-version"@,
        "--source-remote"@,
        "--corpus-remote"@,
    ]
}

/// The options that must be given, in the order their absence is reported.
pub open spec fn required_flags() -> Seq<Seq<char>> {
    seq![
        "--repo-root"@,
        "--corpus"@,
        "--extractor"@,
        "--quire"@,
        "--python"@,
        "--output-dir"@,
        "--timestamp"@,
        "--source-revision"@,
        "--corpus-source-revision"@,
        "--scorer-revision"@,
        "--config-digest"@,
        "--node-version"@,
        "--rust-version"@,
        "--python-version"@,
        "--source-remote"@,
        "--corpus-remote"@,
    ]
}

/// The first thing wrong with the options from position `i` on, `seen`
/// holding the options before it: a word that is no option, an option
/// without its value, an unknown option, or an option given twice (only
/// `--grammar` repeats).
pub open spec fn scan_error(args: Seq<Seq<char>>, i: int, seen: Seq<Seq<char>>) -> Option<Seq<char>>
    decreases args.len() - i,
{
    if i < 0 || i >= args.len() {
        None
    } else {
        let flag = args[i];
        if !starts_with(flag, "--"@) {
            Some("unexpected argument "@ + flag + "\n"@ + USAGE@)
        } else if i + 1 >= args.len() {
            Some(flag + " requires a value"@)
        } else if !known_flags().contains(flag) {
            Some("unknown option "@ + flag)
        } else if flag != "--grammar"@ && seen.contains(flag) {
            Some("duplicate option "@ + flag)
        } else {
            scan_error(args, i + 2, seen.push(flag))
        }
    }
}

/// The options of a well-formed command line, in order.
pub open spec fn flags_at(args: Seq<Seq<char>>) -> Seq<Seq<char>> {
    Seq::new((args.len() / 2) as nat, |k: int| args[2 * k])
}

/// The values of a well-formed command line, in order.
pub open spec fn values_at(args: Seq<Seq<char>>) -> Seq<Seq<char>> {
    Seq::new((args.len() / 2) as nat, |k: int| args[2 * k + 1])
}

/// The value given last for an option.
pub open spec fn last_value(fl: Seq<Seq<char>>, vl: Seq<Seq<char>>, f: Seq<char>) -> Option<
    Seq<char>,
>
    decreases fl.len(),
{
    if fl.len() == 0 || vl.len() == 0 {
        None
    } else if fl.last() == f {
        Some(vl.last())
    } else {
        last_value(fl.drop_last(), vl.drop_last(), f)
    }
}

/// The values given for `--grammar`, in order.
pub open spec fn grammar_values(fl: Seq<Seq<char>>, vl: Seq<Seq<char>>) -> Seq<Seq<char>>
    decreases fl.len(),
{
    if fl.len() == 0 || vl.len() == 0 {
        Seq::empty()
    } else if fl.last() == "--grammar"@ {
        grammar_values(fl.drop_last(), vl.drop_last()).push(vl.last())
    } else {
        grammar_values(fl.drop_last(), vl.drop_last())
    }
}

/// Every value parsed as a grammar pin, or the first failure.
pub open spec fn parse_grammars(vs: Seq<Seq<char>>) -> Result<Seq<GrammarView>, Seq<char>>
    decreases vs.len(),
{
    if vs.len() == 0 {
        Ok(Seq::empty())
    } else {
        match parse_grammars(vs.drop_last()) {
            Err(e) => Err(e),
            Ok(gs) => match spec_parse_grammar(vs.last()) {
                Err(e) => Err(e),
                Ok(g) => Ok(gs.push(g)),
            },
        }
    }
}

/// The first required option that was not given.
pub open spec fn first_missing(fl: Seq<Seq<char>>, vl: Seq<Seq<char>>, req: Seq<Seq<char>>) -> Option<
    Seq<char>,
>
    decreases req.len(),
{
    if req.len() == 0 {
        None
    } else if last_value(fl, vl, req[0]) is None {
        Some(req[0])
    } else {
        first_missing(fl, vl, req.drop_first())
    }
}

/// Why a command line is refused, if it is.
pub open spec fn args_error(a: Seq<Seq<char>>) -> Option<Seq<char>> {
    match scan_error(a, 0, Seq::empty()) {
        Some(e) => Some(e),
        None => match parse_grammars(grammar_values(flags_at(a), values_at(a))) {
            Err(e) => Some(e),
            Ok(_) => match first_missing(flags_at(a), values_at(a), required_flags()) {
                Some(f) => Some("missing "@ + f),
                None => None,
            },
        },
    }
}

/// The value an option was given last.
pub open spec fn arg_value(a: Seq<Seq<char>>, f: Seq<char>) -> Seq<char> {
    match last_value(flags_at(a), values_at(a), f) {
        Some(v) => v,
        None => Seq::empty(),
    }
}

/// The plain text of grammar pins.
pub open spec fn grammar_views(gs: Seq<GrammarRevision>) -> Seq<GrammarView> {
    gs.map_values(|g: GrammarRevision| grammar_view(g))
}

/// The grammar pins a command line gives, in order.
pub open spec fn arg_grammars(a: Seq<Seq<char>>) -> Seq<GrammarView> {
    match parse_grammars(grammar_values(flags_at(a), values_at(a))) {
        Ok(gs) => gs,
        Err(_) => Seq::empty(),
    }
}

/// The text of each string.
pub open spec fn string_views(v: Seq<String>) -> Seq<Seq<char>> {
    v.map_values(|s: String| s@)
}

/// The parsed arguments hold what the command line gives.
pub open spec fn holds_args(p: Args, a: Seq<Seq<char>>) -> bool {
    &&& p.repo_root@ == arg_value(a, "--repo-root"@)
    &&& p.corpus@ == arg_value(a, "--corpus"@)
    &&& p.extractor@ == arg_value(a, "--extractor"@)
    &&& p.quire@ == arg_value(a, "--quire"@)
    &&& p.python@ == arg_value(a, "--python"@)
    &&& p.output_dir@ == arg_value(a, "--output-dir"@)
    &&& p.timestamp@ == arg_value(a, "--timestamp"@)
    &&& p.source_revision@ == arg_value(a, "--source-revision"@)
    &&& p.corpus_source_revision@ == arg_value(a, "--corpus-source-revision"@)
    &&& p.scorer_revision@ == arg_value(a, "--scorer-revision"@)
    &&& p.config_digest@ == arg_value(a, "--config-digest"@)
    &&& p.node_version@ == arg_value(a, "--node-version"@)
    &&& p.rust_version@ == arg_value(a, "--rust-version"@)
    &&& p.python_version@ == arg_value(a, "--python-version"@)
    &&& p.source_remote@ == arg_value(a, "--source-remote"@)
    &&& p.corpus_remote@ == arg_value(a, "--corpus-remote"@)
    &&& grammar_views(p.grammars@) == arg_grammars(a)
}

fn text_in(list: &Vec<&str>, x: &Vec<char>) -> (r: bool)
    ensures
        r == list@.map_values(|s: &str| s@).contains(x@),
{
    let xs = string_of(x);
    let mut i: usize = 0;
    while i < list.len()
        invariant
            i <= list.len(),
            xs@ == x@,
            forall|k: int| 0 <= k < i ==> list@[k]@ != x@,
        decreases list.len() - i,
    {
        if same_text(list[i], xs.as_str()) {
            assert(list@.map_values(|s: &str| s@)[i as int] == x@);
            return true;
        }
        i = i + 1;
    }
    let ghost names = list@.map_values(|s: &str| s@);
    assert forall|k: int| 0 <= k < names.len() implies #[trigger] names[k] != x@ by {
        assert(names[k] == list@[k]@);
    }
    false
}

fn value_of(flags: &Vec<Vec<char>>, values: &Vec<Vec<char>>, f: &str) -> (r: Option<String>)
    requires
        flags.len() == values.len(),
    ensures
        match r {
            Some(v) => last_value(views(flags@), views(values@), f@) == Some(v@),
            None => last_value(views(flags@), views(values@), f@) is None,
        },
{
    let mut n: usize = flags.len();
    assert(views(flags@).take(n as int) == views(flags@));
    assert(views(values@).take(n as int) == views(values@));
    loop
        invariant
            n <= flags.len() == values.len(),
            last_value(views(flags@), views(values@), f@) == last_value(
                views(flags@).take(n as int),
                views(values@).take(n as int),
                f@,
            ),
        decreases n,
    {
        if n == 0 {
            return None;
        }
        let ghost ft = views(flags@).take(n as int);
        let ghost vt = views(values@).take(n as int);
        assert(ft.drop_last() == views(flags@).take(n - 1));
        assert(vt.drop_last() == views(values@).take(n - 1));
        assert(ft.last() == flags@[n - 1]@);
        assert(vt.last() == values@[n - 1]@);
        let fs = string_of(&flags[n - 1]);
        if same_text(fs.as_str(), f) {
            return Some(string_of(&values[n - 1]));
        }
        n = n - 1;
    }
}

impl Args {
    /// Parses `--option value` pairs. Every option but `--grammar` is
    /// required and may be given once; `--grammar` may repeat.
    pub fn parse(args: Vec<String>) -> (r: Result<Args, String>)
        ensures
            match r {
                Ok(p) => args_error(string_views(args@)) is None && holds_args(p, string_views(args@)),
                Err(e) => args_error(string_views(args@)) == Some(e@),
            },
    {
        let ghost a = string_views(args@);
        let known: Vec<&str> = vec![
        "--repo-root",
        "--corpus",
        "--extractor",
        "--quire",
        "--python",
        "--output-dir",
        "--timestamp",
        "--source-revision",
        "--corpus-source-revision",
        "--scorer-revision",
        "--config-digest",
        "--grammar",
        "--node-version",
        "--rust-version",
        "--python-version",
        "--source-remote",
        "--corpus-remote",
        ];
        assert(known@.map_values(|s: &str| s@) =~= known_flags());
        let n = args.len();
        let mut flags: Vec<Vec<char>> = Vec::new();
        let mut values: Vec<Vec<char>> = Vec::new();
        let mut i: usize = 0;
        assert(views(flags@) =~= Seq::<Seq<char>>::empty());
        while i < n
            invariant
                n == args.len(),
                a == string_views(args@),
                known@.map_values(|s: &str| s@) == known_flags(),
                i <= n,
                i % 2 == 0,
                flags.len() == values.len() == i / 2,
                forall|k: int| 0 <= k < i / 2 ==> #[trigger] flags@[k]@ == a[2 * k],
                forall|k: int| 0 <= k < i / 2 ==> #[trigger] values@[k]@ == a[2 * k + 1],
                scan_error(a, 0, Seq::empty()) == scan_error(a, i as int, views(flags@)),
            decreases n - i,
        {
            let flag = chars_of(args[i].as_str());
            assert(flag@ == a[i as int]);
            if !has_prefix(&flag, "--") {
                let mut e = chars_of("unexpected argument ");
                extend_chars(&mut e, &flag);
                let nl = chars_of("\n");
                extend_chars(&mut e, &nl);
                let u = chars_of(USAGE);
                extend_chars(&mut e, &u);
                return Err(string_of(&e));
            }
            if i + 1 >= n {
                let mut e = flag;
                let t = chars_of(" requires a value");
                extend_chars(&mut e, &t);
                return Err(string_of(&e));
            }
            if !text_in(&known, &flag) {
                let mut e = chars_of("unknown option ");
                extend_chars(&mut e, &flag);
                return Err(string_of(&e));
            }
            let fs = string_of(&flag);
            if !same_text(fs.as_str(), "--grammar") && has_line(&flags, &flag) {
                let mut e = chars_of("duplicate option ");
                extend_chars(&mut e, &flag);
                return Err(string_of(&e));
            }
            let value = chars_of(args[i + 1].as_str());
            let ghost before = views(flags@);
            flags.push(flag);
            values.push(value);
            proof {
                assert(views(flags@) =~= before.push(a[i as int]));
            }
            i = i + 2;
        }
        assert(i == n);
        assert(scan_error(a, 0, Seq::empty()) is None);
        assert(views(flags@) =~= flags_at(a));
        assert(views(values@) =~= values_at(a));
        // the grammar pins, parsed in order
        let mut grammars: Vec<GrammarRevision> = Vec::new();
        let mut j: usize = 0;
        let ghost fl = flags_at(a);
        let ghost vl = values_at(a);
        assert(grammar_values(fl.take(0), vl.take(0)) =~= Seq::<Seq<char>>::empty());
        assert(grammar_views(grammars@) =~= Seq::<GrammarView>::empty());
        while j < flags.len()
            invariant
                flags.len() == values.len(),
                views(flags@) == fl,
                views(values@) == vl,
                a == string_views(args@),
                fl == flags_at(a),
                vl == values_at(a),
                fl.len() == vl.len(),
                scan_error(a, 0, Seq::empty()) is None,
                j <= flags.len(),
                parse_grammars(grammar_values(fl.take(j as int), vl.take(j as int))) == Ok::<
                    Seq<GrammarView>,
                    Seq<char>,
                >(grammar_views(grammars@)),
            decreases flags.len() - j,
        {
            let ghost ft = fl.take(j + 1);
            let ghost vt = vl.take(j + 1);
            assert(ft.drop_last() == fl.take(j as int));
            assert(vt.drop_last() == vl.take(j as int));
            assert(ft.last() == flags@[j as int]@);
            assert(vt.last() == values@[j as int]@);
            let fs = string_of(&flags[j]);
            if same_text(fs.as_str(), "--grammar") {
                let ghost prev = grammar_values(fl.take(j as int), vl.take(j as int));
                assert(grammar_values(ft, vt) == prev.push(values@[j as int]@));
                assert(grammar_values(ft, vt).drop_last() == prev);
                match parse_grammar(string_of(&values[j])) {
                    Ok(g) => {
                        let ghost gb = grammar_views(grammars@);
                        grammars.push(g);
                        assert(grammar_views(grammars@) =~= gb.push(grammar_view(g)));
                    },
                    Err(e) => {
                        proof {
                            let p = grammar_values(ft, vt);
                            let full = grammar_values(fl, vl);
                            lemma_grammar_values_prefix(fl, vl, j + 1);
                            lemma_parse_error_extends(full, p.len() as int);
                            assert(p.drop_last() == prev);
                            assert(p.last() == values@[j as int]@);
                            assert(parse_grammars(p) == Err::<Seq<GrammarView>, Seq<char>>(e@));
                            assert(full.take(p.len() as int) == p);
                            assert(parse_grammars(full) == Err::<Seq<GrammarView>, Seq<char>>(e@));
                            assert(args_error(a) == Some(e@));
                        }
                        return Err(e);
                    },
                }
            }
            j = j + 1;
        }
        assert(fl.take(flags.len() as int) == fl);
        assert(vl.take(flags.len() as int) == vl);
        // the required values, in the order their absence is reported
        let required: Vec<&str> = vec![
        "--repo-root",
        "--corpus",
        "--extractor",
        "--quire",
        "--python",
        "--output-dir",
        "--timestamp",
        "--source-revision",
        "--corpus-source-revision",
        "--scorer-revision",
        "--config-digest",
        "--node-version",
        "--rust-version",
        "--python-version",
        "--source-remote",
        "--corpus-remote",
        ];
        assert(required@.map_values(|s: &str| s@) =~= required_flags());
        let mut found: Vec<String> = Vec::new();
        let mut m: usize = 0;
        assert(required_flags().skip(0) =~= required_flags());
        while m < required.len()
            invariant
                flags.len() == values.len(),
                views(flags@) == fl,
                views(values@) == vl,
                a == string_views(args@),
                fl == flags_at(a),
                vl == values_at(a),
                scan_error(a, 0, Seq::empty()) is None,
                parse_grammars(grammar_values(fl, vl)) == Ok::<Seq<GrammarView>, Seq<char>>(
                    grammar_views(grammars@),
                ),
                required@.map_values(|s: &str| s@) == required_flags(),
                m <= required.len(),
                found.len() == m,
                first_missing(fl, vl, required_flags()) == first_missing(
                    fl,
                    vl,
                    required_flags().skip(m as int),
                ),
                forall|k: int|
                    0 <= k < m ==> last_value(fl, vl, #[trigger] required_flags()[k]) == Some(
                        found@[k]@,
                    ),
            decreases required.len() - m,
        {
            let ghost tail = required_flags().skip(m as int);
            assert(tail[0] == required@[m as int]@);
            assert(tail.drop_first() == required_flags().skip(m + 1));
            match value_of(&flags, &values, required[m]) {
                Some(v) => {
                    found.push(v);
                },
                None => {
                    let e = concat_text("missing ", required[m]);
                    assert(first_missing(fl, vl, tail) == Some(tail[0]));
                    assert(first_missing(fl, vl, required_flags()) == Some(required@[m as int]@));
                    assert(args_error(a) == Some(e@));
                    return Err(string_of(&e));
                },
            }
            m = m + 1;
        }
        Ok(Args {
        repo_root: found[0].clone(),
        corpus: found[1].clone(),
        extractor: found[2].clone(),
        quire: found[3].clone(),
        python: found[4].clone(),
        output_dir: found[5].clone(),
        timestamp: found[6].clone(),
        source_revision: found[7].clone(),
        corpus_source_revision: found[8].clone(),
        scorer_revision: found[9].clone(),
        config_digest: found[10].clone(),
        node_version: found[11].clone(),
        rust_version: found[12].clone(),
        python_version: found[13].clone(),
        source_remote: found[14].clone(),
        corpus_remote: found[15].clone(),
            grammars,
        })
    }
}

/// The grammar values of the first `j` options are a prefix of all of them.
proof fn lemma_grammar_values_prefix(fl: Seq<Seq<char>>, vl: Seq<Seq<char>>, j: int)
    requires
        0 <= j <= fl.len(),
        fl.len() == vl.len(),
    ensures
        grammar_values(fl.take(j), vl.take(j)).len() <= grammar_values(fl, vl).len(),
        grammar_values(fl, vl).take(grammar_values(fl.take(j), vl.take(j)).len() as int)
            == grammar_values(fl.take(j), vl.take(j)),
    decreases fl.len(),
{
    if j == fl.len() {
        assert(fl.take(j) == fl);
        assert(vl.take(j) == vl);
        assert(grammar_values(fl, vl).take(grammar_values(fl, vl).len() as int) == grammar_values(
            fl,
            vl,
        ));
    } else {
        lemma_grammar_values_prefix(fl.drop_last(), vl.drop_last(), j);
        assert(fl.drop_last().take(j) == fl.take(j));
        assert(vl.drop_last().take(j) == vl.take(j));
        let g = grammar_values(fl.drop_last(), vl.drop_last());
        let c = grammar_values(fl.take(j), vl.take(j)).len() as int;
        if fl.last() == "--grammar"@ {
            assert(g.push(vl.last()).take(c) == g.take(c));
        }
    }
}

/// A failure among the first values is the failure of all of them.
proof fn lemma_parse_error_extends(vs: Seq<Seq<char>>, k: int)
    requires
        0 <= k <= vs.len(),
        parse_grammars(vs.take(k)) is Err,
    ensures
        parse_grammars(vs) == parse_grammars(vs.take(k)),
    decreases vs.len(),
{
    if k == vs.len() {
        assert(vs.take(k) == vs);
    } else {
        assert(vs.drop_last().take(k) == vs.take(k));
        lemma_parse_error_extends(vs.drop_last(), k);
    }
}

/// A language the producer has a grammar for.
pub open spec fn grammar_language(l: Seq<char>) -> bool {
    l == "rust"@ || l == "typescript"@ || l == "tsx"@ || l == "python"@
}

/// The first pinned language the producer has no grammar for.
pub open spec fn first_unknown_language(gs: Seq<GrammarView>) -> Option<Seq<char>>
    decreases gs.len(),
{
    if gs.len() == 0 {
        None
    } else if grammar_language(gs[0].0) {
        first_unknown_language(gs.drop_first())
    } else {
        Some(gs[0].0)
    }
}

/// Why the pins of a command line are refused, if they are: every revision
/// full, the scorer taken from the corpus checkout, the configuration a full
/// digest, at least one known grammar, and no identity left empty.
pub open spec fn pins_error(p: Args) -> Option<Seq<char>> {
    if !spec_full_revision(p.source_revision@) {
        Some("--source-revision must be a full lowercase 40-hex revision"@)
    } else if !spec_full_revision(p.corpus_source_revision@) {
        Some("--corpus-source-revision must be a full lowercase 40-hex revision"@)
    } else if !spec_full_revision(p.scorer_revision@) {
        Some("--scorer-revision must be a full lowercase 40-hex revision"@)
    } else if p.scorer_revision@ != p.corpus_source_revision@ {
        Some(
            "--scorer-revision must equal --corpus-source-revision because score.py is loaded from that checkout"@,
        )
    } else if !spec_valid_digest(p.config_digest@) {
        Some("--config-digest must be sha256 plus 64 lowercase hex digits"@)
    } else if p.grammars@.len() == 0 {
        Some("missing --grammar"@)
    } else if first_unknown_language(grammar_views(p.grammars@)) is Some {
        Some("unknown grammar language "@ + first_unknown_language(grammar_views(p.grammars@))->0)
    } else if p.timestamp@.len() == 0 {
        Some("missing --timestamp"@)
    } else if p.node_version@.len() == 0 {
        Some("missing --node-version"@)
    } else if p.rust_version@.len() == 0 {
        Some("missing --rust-version"@)
    } else if p.python_version@.len() == 0 {
        Some("missing --python-version"@)
    } else if p.source_remote@.len() == 0 {
        Some("missing --source-remote"@)
    } else if p.corpus_remote@.len() == 0 {
        Some("missing --corpus-remote"@)
    } else {
        None
    }
}

fn fail(text: &str) -> (r: Result<(), String>)
    ensures
        r == Err::<(), String>(r->Err_0),
        r->Err_0@ == text@,
{
    Err(string_of(&chars_of(text)))
}

/// Checks the pins of a command line before anything is read or run.
pub fn validate_pins(args: &Args) -> (r: Result<(), String>)
    ensures
        match r {
            Ok(_) => pins_error(*args) is None,
            Err(e) => pins_error(*args) == Some(e@),
        },
{
    if !full_revision(args.source_revision.as_str()) {
        return fail("--source-revision must be a full lowercase 40-hex revision");
    }
    if !full_revision(args.corpus_source_revision.as_str()) {
        return fail("--corpus-source-revision must be a full lowercase 40-hex revision");
    }
    if !full_revision(args.scorer_revision.as_str()) {
        return fail("--scorer-revision must be a full lowercase 40-hex revision");
    }
    if !same_text(args.scorer_revision.as_str(), args.corpus_source_revision.as_str()) {
        return fail(
            "--scorer-revision must equal --corpus-source-revision because score.py is loaded from that checkout",
        );
    }
    if !valid_digest(args.config_digest.as_str()) {
        return fail("--config-digest must be sha256 plus 64 lowercase hex digits");
    }
    if args.grammars.len() == 0 {
        return fail("missing --grammar");
    }
    let ghost gs = grammar_views(args.grammars@);
    let mut i: usize = 0;
    assert(gs.skip(0) =~= gs);
    while i < args.grammars.len()
        invariant
            i <= args.grammars.len(),
            gs == grammar_views(args.grammars@),
            first_unknown_language(gs) == first_unknown_language(gs.skip(i as int)),
            spec_full_revision(args.source_revision@),
            spec_full_revision(args.corpus_source_revision@),
            spec_full_revision(args.scorer_revision@),
            args.scorer_revision@ == args.corpus_source_revision@,
            spec_valid_digest(args.config_digest@),
            args.grammars@.len() > 0,
        decreases args.grammars.len() - i,
    {
        let ghost tail = gs.skip(i as int);
        assert(tail[0] == grammar_view(args.grammars@[i as int]));
        assert(tail.drop_first() == gs.skip(i + 1));
        let l = args.grammars[i].language.as_str();
        if !(same_text(l, "rust") || same_text(l, "typescript") || same_text(l, "tsx")
            || same_text(l, "python")) {
            let e = concat_text("unknown grammar language ", l);
            assert(first_unknown_language(gs) == Some(l@));
            return Err(string_of(&e));
        }
        i = i + 1;
    }
    assert(gs.skip(i as int).len() == 0);
    if chars_of(args.timestamp.as_str()).len() == 0 {
        return fail("missing --timestamp");
    }
    if chars_of(args.node_version.as_str()).len() == 0 {
        return fail("missing --node-version");
    }
    if chars_of(args.rust_version.as_str()).len() == 0 {
        return fail("missing --rust-version");
    }
    if chars_of(args.python_version.as_str()).len() == 0 {
        return fail("missing --python-version");
    }
    if chars_of(args.source_remote.as_str()).len() == 0 {
        return fail("missing --source-remote");
    }
    if chars_of(args.corpus_remote.as_str()).len() == 0 {
        return fail("missing --corpus-remote");
    }
    Ok(())
}

/// Why the grammar pins disagree with the lock file.
#[derive(Debug, Clone, PartialEq, Eq)]
pub enum GrammarPinError {
    /// The lock file does not pin a grammar crate; the lock lookup's message.
    Lock(String),
    /// A language was pinned twice.
    Duplicate(String),
    /// The pins are not exactly the locked grammars.
    Mismatch,
}

/// The grammar each language must be pinned to, by the lock file: Python,
/// Rust, TSX and TypeScript, in that order, or the first lookup failure.
pub open spec fn expected_pins(lock: Seq<char>) -> Result<Seq<GrammarView>, Seq<char>> {
    match spec_locked_version(lock, "tree-sitter-python"@) {
        Err(e) => Err(e),
        Ok(py) => match spec_locked_version(lock, "tree-sitter-rust"@) {
            Err(e) => Err(e),
            Ok(rs) => match spec_locked_version(lock, "tree-sitter-typescript"@) {
                Err(e) => Err(e),
                Ok(ts) => Ok(
                    seq![
                        ("python"@, "tree-sitter-python"@, py),
                        ("rust"@, "tree-sitter-rust"@, rs),
                        ("tsx"@, "tree-sitter-typescript"@, ts),
                        ("typescript"@, "tree-sitter-typescript"@, ts),
                    ],
                ),
            },
        },
    }
}

/// The languages of some pins, in order.
pub open spec fn pin_languages(gs: Seq<GrammarView>) -> Seq<Seq<char>> {
    gs.map_values(|g: GrammarView| g.0)
}

/// The first language that occurs a second time.
pub open spec fn first_repeat(ls: Seq<Seq<char>>) -> Option<Seq<char>>
    decreases ls.len(),
{
    if ls.len() == 0 {
        None
    } else {
        match first_repeat(ls.drop_last()) {
            Some(x) => Some(x),
            None => if ls.drop_last().contains(ls.last()) {
                Some(ls.last())
            } else {
                None
            },
        }
    }
}

fn pin_in(list: &Vec<GrammarRevision>, g: &GrammarRevision) -> (r: bool)
    ensures
        r == grammar_views(list@).contains(grammar_view(*g)),
{
    let mut i: usize = 0;
    while i < list.len()
        invariant
            i <= list.len(),
            forall|k: int| 0 <= k < i ==> grammar_view(#[trigger] list@[k]) != grammar_view(*g),
        decreases list.len() - i,
    {
        let x = &list[i];
        if x.language == g.language && x.grammar == g.grammar && x.revision == g.revision {
            assert(grammar_views(list@)[i as int] == grammar_view(*g));
            return true;
        }
        i = i + 1;
    }
    assert forall|k: int| 0 <= k < grammar_views(list@).len() implies #[trigger] grammar_views(
        list@,
    )[k] != grammar_view(*g) by {
        assert(grammar_views(list@)[k] == grammar_view(list@[k]));
    }
    false
}

fn pin(language: &str, grammar: &str, revision: &String) -> (g: GrammarRevision)
    ensures
        grammar_view(g) == (language@, grammar@, revision@),
{
    GrammarRevision {
        language: string_of(&chars_of(language)),
        grammar: string_of(&chars_of(grammar)),
        revision: revision.clone(),
    }
}

/// Checks that the grammar pins are exactly the grammars the lock file
/// pins: one per language, and the same set.
pub fn check_grammar_pins(lock: &str, supplied: &Vec<GrammarRevision>) -> (r: Result<
    (),
    GrammarPinError,
>)
    ensures
        match r {
            Ok(_) => match expected_pins(lock@) {
                Ok(exp) => first_repeat(pin_languages(grammar_views(supplied@))) is None
                    && grammar_views(supplied@).to_set() == exp.to_set(),
                Err(_) => false,
            },
            Err(GrammarPinError::Lock(e)) => expected_pins(lock@) == Err::<Seq<GrammarView>, Seq<
                char,
            >>(e@),
            Err(GrammarPinError::Duplicate(l)) => expected_pins(lock@) is Ok && first_repeat(
                pin_languages(grammar_views(supplied@)),
            ) == Some(l@),
            Err(GrammarPinError::Mismatch) => match expected_pins(lock@) {
                Ok(exp) => first_repeat(pin_languages(grammar_views(supplied@))) is None
                    && grammar_views(supplied@).to_set() != exp.to_set(),
                Err(_) => false,
            },
        },
{
    let py = match locked_version(lock, "tree-sitter-python") {
        Ok(v) => v,
        Err(e) => {
            return Err(GrammarPinError::Lock(e));
        },
    };
    let rs = match locked_version(lock, "tree-sitter-rust") {
        Ok(v) => v,
        Err(e) => {
            return Err(GrammarPinError::Lock(e));
        },
    };
    let ts = match locked_version(lock, "tree-sitter-typescript") {
        Ok(v) => v,
        Err(e) => {
            return Err(GrammarPinError::Lock(e));
        },
    };
    let expected: Vec<GrammarRevision> = vec![
        pin("python", "tree-sitter-python", &py),
        pin("rust", "tree-sitter-rust", &rs),
        pin("tsx", "tree-sitter-typescript", &ts),
        pin("typescript", "tree-sitter-typescript", &ts),
    ];
    let ghost exp = expected_pins(lock@)->Ok_0;
    assert(grammar_views(expected@) =~= exp);
    let ghost gs = grammar_views(supplied@);
    let ghost ls = pin_languages(gs);
    // one pin per language
    let mut i: usize = 0;
    assert(ls.take(0) =~= Seq::<Seq<char>>::empty());
    while i < supplied.len()
        invariant
            i <= supplied.len(),
            gs == grammar_views(supplied@),
            ls == pin_languages(gs),
            first_repeat(ls.take(i as int)) is None,
            expected_pins(lock@) == Ok::<Seq<GrammarView>, Seq<char>>(exp),
        decreases supplied.len() - i,
    {
        let ghost t = ls.take(i + 1);
        assert(t.drop_last() == ls.take(i as int));
        assert(t.last() == supplied@[i as int].language@);
        let mut j: usize = 0;
        while j < i
            invariant
                j <= i < supplied.len(),
                ls == pin_languages(grammar_views(supplied@)),
                first_repeat(ls.take(i as int)) is None,
                expected_pins(lock@) == Ok::<Seq<GrammarView>, Seq<char>>(exp),
                forall|k: int| 0 <= k < j ==> ls[k] != supplied@[i as int].language@,
            decreases i - j,
        {
            if supplied[j].language == supplied[i].language {
                proof {
                    let t2 = ls.take(i + 1);
                    assert(t2.drop_last() == ls.take(i as int));
                    assert(ls[i as int] == supplied@[i as int].language@);
                    assert(t2.last() == ls[i as int]);
                    assert(ls[j as int] == supplied@[j as int].language@);
                    assert(t2.drop_last()[j as int] == t2.last());
                    assert(t2.drop_last().contains(t2.last()));
                    assert(first_repeat(ls.take(i + 1)) == Some(supplied@[i as int].language@));
                    lemma_first_repeat_extends(ls, i + 1);
                }
                return Err(GrammarPinError::Duplicate(supplied[i].language.clone()));
            }
            assert(ls[j as int] == supplied@[j as int].language@);
            j = j + 1;
        }
        assert(!t.drop_last().contains(t.last())) by {
            assert forall|k: int| 0 <= k < t.drop_last().len() implies t.drop_last()[k] != t.last() by {
                assert(t.drop_last()[k] == ls[k]);
            }
        }
        i = i + 1;
    }
    assert(ls.take(supplied.len() as int) == ls);
    // the same set of pins
    let mut k: usize = 0;
    while k < supplied.len()
        invariant
            k <= supplied.len(),
            gs == grammar_views(supplied@),
            grammar_views(expected@) == exp,
            expected_pins(lock@) == Ok::<Seq<GrammarView>, Seq<char>>(exp),
            first_repeat(pin_languages(gs)) is None,
            forall|m: int| 0 <= m < k ==> exp.contains(#[trigger] gs[m]),
        decreases supplied.len() - k,
    {
        if !pin_in(&expected, &supplied[k]) {
            proof {
                assert(gs[k as int] == grammar_view(supplied@[k as int]));
                assert(gs.to_set().contains(gs[k as int]));
                assert(!exp.to_set().contains(gs[k as int]));
            }
            return Err(GrammarPinError::Mismatch);
        }
        assert(gs[k as int] == grammar_view(supplied@[k as int]));
        k = k + 1;
    }
    let mut m: usize = 0;
    while m < expected.len()
        invariant
            m <= expected.len(),
            gs == grammar_views(supplied@),
            grammar_views(expected@) == exp,
            expected_pins(lock@) == Ok::<Seq<GrammarView>, Seq<char>>(exp),
            first_repeat(pin_languages(gs)) is None,
            forall|q: int| 0 <= q < m ==> gs.contains(#[trigger] exp[q]),
        decreases expected.len() - m,
    {
        if !pin_in(supplied, &expected[m]) {
            proof {
                assert(exp[m as int] == grammar_view(expected@[m as int]));
                assert(exp.to_set().contains(exp[m as int]));
                assert(!gs.to_set().contains(exp[m as int]));
            }
            return Err(GrammarPinError::Mismatch);
        }
        assert(exp[m as int] == grammar_view(expected@[m as int]));
        m = m + 1;
    }
    proof {
        assert forall|x: GrammarView| gs.to_set().contains(x) <==> exp.to_set().contains(x) by {
            if gs.contains(x) {
                let q = choose|q: int| 0 <= q < gs.len() && gs[q] == x;
                assert(exp.contains(gs[q]));
            }
            if exp.contains(x) {
                let q = choose|q: int| 0 <= q < exp.len() && exp[q] == x;
                assert(gs.contains(exp[q]));
            }
        }
        assert(gs.to_set() =~= exp.to_set());
    }
    Ok(())
}

/// A repeat among the first languages is the first repeat of them all.
proof fn lemma_first_repeat_extends(ls: Seq<Seq<char>>, k: int)
    requires
        0 <= k <= ls.len(),
        first_repeat(ls.take(k)) is Some,
    ensures
        first_repeat(ls) == first_repeat(ls.take(k)),
    decreases ls.len(),
{
    if k == ls.len() {
        assert(ls.take(k) == ls);
    } else {
        assert(ls.drop_last().take(k) == ls.take(k));
        lemma_first_repeat_extends(ls.drop_last(), k);
    }
}

/// Normalizing a digest twice is normalizing it once.
pub proof fn law_normalize_digest_is_idempotent(value: Seq<char>)
    ensures
        spec_normalize_digest(spec_normalize_digest(value)) == spec_normalize_digest(value),
{
    let p = "sha256:"@;
    if !starts_with(value, p) {
        assert((p + value).take(p.len() as int) =~= p);
    }
}

/// The `--grammar` form of a pin: `language=grammar@revision`.
pub open spec fn grammar_flag_value(g: GrammarView) -> Seq<char> {
    g.0 + "="@ + g.1 + "@"@ + g.2
}

/// A pin written as `language=grammar@revision` parses back to itself,
/// whenever no part is empty, the language holds no `=` and the revision no
/// `@`.
pub proof fn law_grammar_pins_round_trip(g: GrammarView)
    requires
        g.0.len() > 0,
        g.1.len() > 0,
        g.2.len() > 0,
        !g.0.contains('='),
        !g.2.contains('@'),
    ensures
        spec_parse_grammar(grammar_flag_value(g)) == Ok::<GrammarView, Seq<char>>(g),
{
    reveal_strlit("=");
    reveal_strlit("@");
    let v = grammar_flag_value(g);
    let eq = "="@;
    let at = "@"@;
    let (lang, grammar, rev) = g;
    lemma_first_match(v, eq);
    assert(v =~= lang + (eq + (grammar + at + rev)));
    assert(v.subrange(lang.len() as int, lang.len() as int + 1) =~= eq);
    assert(matches_at(v, eq, lang.len() as int));
    assert forall|k: int| 0 <= k < lang.len() implies !#[trigger] matches_at(v, eq, k) by {
        if matches_at(v, eq, k) {
            assert(v.subrange(k, k + 1)[0] == v[k]);
            assert(v[k] == lang[k]);
            assert(lang.contains('='));
        }
    }
    let k = first_match(v, eq);
    assert(k == lang.len());
    let rest = v.skip(k + 1);
    assert(rest =~= grammar + at + rev);
    assert(v.take(k) =~= lang);
    lemma_last_match(rest, at);
    lemma_last_match_is_last(rest, at);
    let j0 = grammar.len() as int;
    assert(rest.subrange(j0, j0 + 1) =~= at);
    assert(matches_at(rest, at, j0));
    assert forall|m: int| j0 < m implies !#[trigger] matches_at(rest, at, m) by {
        if matches_at(rest, at, m) {
            assert(rest.subrange(m, m + 1)[0] == rest[m]);
            assert(rest[m] == rev[m - j0 - 1]);
            assert(rev.contains('@'));
        }
    }
    let j = last_match(rest, at);
    assert(j == j0);
    assert(rest.take(j) =~= grammar);
    assert(rest.skip(j + 1) =~= rev);
}

/// How a scorer report falls short of its whole population.
#[derive(Debug, Clone, Copy, PartialEq, Eq, Structural)]
pub enum IncompleteReport {
    /// The report states no count of scored cases.
    NoScoredCases,
    /// The report declares no cases.
    NoCaseDigests,
    /// The report scored another number of cases than it declared.
    Partial { scored: u64, declared: u64 },
}

/// What a report with these counts of scored and declared cases is judged:
/// complete exactly when both are stated and equal.
pub open spec fn report_coverage(scored_cases: Option<u64>, declared_cases: Option<u64>) -> Result<
    (),
    IncompleteReport,
> {
    match (scored_cases, declared_cases) {
        (None, _) => Err(IncompleteReport::NoScoredCases),
        (Some(_), None) => Err(IncompleteReport::NoCaseDigests),
        (Some(scored), Some(declared)) => if scored == declared {
            Ok(())
        } else {
            Err(IncompleteReport::Partial { scored, declared })
        },
    }
}

/// Refuses a scorer report that did not score every case it declares.
pub fn check_complete_report(scored_cases: Option<u64>, declared_cases: Option<u64>) -> (r: Result<
    (),
    IncompleteReport,
>)
    ensures
        r == report_coverage(scored_cases, declared_cases),
{
    match scored_cases {
        None => Err(IncompleteReport::NoScoredCases),
        Some(scored) => match declared_cases {
            None => Err(IncompleteReport::NoCaseDigests),
            Some(declared) => {
                if scored == declared {
                    Ok(())
                } else {
                    Err(IncompleteReport::Partial { scored, declared })
                }
            },
        },
    }
}

} // verus!
