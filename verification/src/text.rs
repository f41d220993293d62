//! Character-level helpers shared by every module that builds names and paths.

use vstd::prelude::*;

verus! {

/// The characters of a string slice, in order.
pub fn chars_of(s: &str) -> (out: Vec<char>)
    ensures
        out@ == s@,
{
    let mut out: Vec<char> = Vec::new();
    for c in it: s.chars()
        invariant
            out@ == it.seq().take(it.index() as int),
    {
        out.push(c);
    }
    out
}

/// `String::push`: appends one character at the end.
#[verifier::external_body]
pub(crate) fn push_char(s: &mut String, c: char)
    ensures
        final(s)@ == old(s)@.push(c),
{
    s.push(c);
}

/// A string holding exactly the given characters.
pub fn string_of(chars: &Vec<char>) -> (out: String)
    ensures
        out@ == chars@,
{
    let mut out = String::new();
    let mut i: usize = 0;
    while i < chars.len()
        invariant
            i <= chars.len(),
            out@ == chars@.take(i as int),
        decreases chars.len() - i,
    {
        push_char(&mut out, chars[i]);
        i = i + 1;
        assert(chars@.take(i as int) == chars@.take((i - 1) as int).push(chars@[i - 1]));
    }
    assert(chars@.take(chars.len() as int) == chars@);
    out
}

/// Appends every character of `src` to `out`.
pub fn extend_chars(out: &mut Vec<char>, src: &Vec<char>)
    ensures
        final(out)@ == old(out)@ + src@,
{
    let mut i: usize = 0;
    let ghost start = out@;
    while i < src.len()
        invariant
            i <= src.len(),
            out@ == start + src@.take(i as int),
        decreases src.len() - i,
    {
        out.push(src[i]);
        i = i + 1;
        assert(src@.take(i as int) == src@.take((i - 1) as int).push(src@[i - 1]));
    }
    assert(src@.take(src.len() as int) == src@);
}

/// Whether a character has the Unicode `Uppercase` property (`char::is_uppercase`).
pub uninterp spec fn is_uppercase_char(c: char) -> bool;

/// `char::is_uppercase`. Its result is the Unicode `Uppercase` property of
/// the character, a fixed table; among ASCII characters exactly `A` to `Z`
/// have it.
#[verifier::external_body]
pub(crate) fn char_is_uppercase(c: char) -> (r: bool)
    ensures
        r == is_uppercase_char(c),
        (c as u32) < 128 ==> (r <==> ('A' <= c && c <= 'Z')),
{
    c.is_uppercase()
}

/// The text starts with an uppercase character.
pub open spec fn starts_upper(s: Seq<char>) -> bool {
    s.len() > 0 && is_uppercase_char(s[0])
}

/// Whether the text starts with an uppercase character.
pub fn starts_uppercase(text: &str) -> (r: bool)
    ensures
        r == starts_upper(text@),
{
    let chars = chars_of(text);
    if chars.len() == 0 {
        false
    } else {
        char_is_uppercase(chars[0])
    }
}

/// The character sequences a list of character vectors holds.
pub open spec fn views(v: Seq<Vec<char>>) -> Seq<Seq<char>> {
    v.map_values(|x: Vec<char>| x@)
}

/// `s` begins with `p`.
pub open spec fn starts_with(s: Seq<char>, p: Seq<char>) -> bool {
    p.len() <= s.len() && s.take(p.len() as int) == p
}

/// Whether `s` begins with the text `p`.
pub fn has_prefix(s: &Vec<char>, p: &str) -> (r: bool)
    ensures
        r == starts_with(s@, p@),
{
    let pc = chars_of(p);
    if pc.len() > s.len() {
        return false;
    }
    let mut i: usize = 0;
    while i < pc.len()
        invariant
            i <= pc.len() <= s.len(),
            pc@ == p@,
            s@.take(i as int) == pc@.take(i as int),
        decreases pc.len() - i,
    {
        if s[i] != pc[i] {
            assert(s@.take(pc.len() as int)[i as int] != pc@[i as int]);
            return false;
        }
        assert(s@.take(i + 1) == s@.take(i as int).push(s@[i as int]));
        assert(pc@.take(i + 1) == pc@.take(i as int).push(pc@[i as int]));
        i = i + 1;
    }
    assert(pc@.take(pc.len() as int) == pc@);
    true
}

/// Scanning `rest` left to right with the segment `cur` begun, the segments
/// that splitting on `c` yields.
pub open spec fn split_on_from(rest: Seq<char>, cur: Seq<char>, c: char) -> Seq<Seq<char>>
    decreases rest.len(),
{
    if rest.len() == 0 {
        seq![cur]
    } else if rest[0] == c {
        seq![cur] + split_on_from(rest.skip(1), Seq::empty(), c)
    } else {
        split_on_from(rest.skip(1), cur.push(rest[0]), c)
    }
}

/// The segments between the occurrences of `c` (`str::split` on a
/// character): never empty, and empty segments kept.
pub open spec fn split_on(s: Seq<char>, c: char) -> Seq<Seq<char>> {
    split_on_from(s, Seq::empty(), c)
}

/// Splits a character vector on every occurrence of `c`.
pub fn split_chars(s: &Vec<char>, c: char) -> (out: Vec<Vec<char>>)
    ensures
        views(out@) == split_on(s@, c),
{
    let mut out: Vec<Vec<char>> = Vec::new();
    let mut cur: Vec<char> = Vec::new();
    let mut i: usize = 0;
    assert(s@.skip(0) == s@);
    assert(views(out@) + split_on(s@, c) =~= split_on(s@, c));
    while i < s.len()
        invariant
            i <= s.len(),
            split_on(s@, c) == views(out@) + split_on_from(s@.skip(i as int), cur@, c),
        decreases s.len() - i,
    {
        let ghost rest = s@.skip(i as int);
        assert(rest.skip(1) == s@.skip(i + 1));
        assert(rest[0] == s@[i as int]);
        if s[i] == c {
            let ghost prev = out@;
            let ghost old_cur = cur@;
            out.push(cur);
            cur = Vec::new();
            proof {
                let tail = split_on_from(rest.skip(1), Seq::empty(), c);
                assert(views(out@) =~= views(prev).push(old_cur));
                assert(views(prev) + (seq![old_cur] + tail) =~= views(out@) + tail);
            }
        } else {
            cur.push(s[i]);
        }
        i = i + 1;
    }
    let ghost prev = out@;
    out.push(cur);
    assert(views(out@) =~= views(prev) + seq![cur@]);
    out
}

/// Scanning `rest` left to right with the segment `cur` begun, the segments
/// that splitting on the two-character separator `::` yields.
pub open spec fn split_path_from(rest: Seq<char>, cur: Seq<char>) -> Seq<Seq<char>>
    decreases rest.len(),
{
    if rest.len() == 0 {
        seq![cur]
    } else if rest.len() >= 2 && rest[0] == ':' && rest[1] == ':' {
        seq![cur] + split_path_from(rest.skip(2), Seq::empty())
    } else {
        split_path_from(rest.skip(1), cur.push(rest[0]))
    }
}

/// The segments between the occurrences of `::`, matched left to right
/// (`str::split("::")`): never empty, and empty segments kept.
pub open spec fn split_path(s: Seq<char>) -> Seq<Seq<char>> {
    split_path_from(s, Seq::empty())
}

pub proof fn lemma_split_path_from_nonempty(rest: Seq<char>, cur: Seq<char>)
    ensures
        split_path_from(rest, cur).len() >= 1,
    decreases rest.len(),
{
    if rest.len() == 0 {
    } else if rest.len() >= 2 && rest[0] == ':' && rest[1] == ':' {
        lemma_split_path_from_nonempty(rest.skip(2), Seq::empty());
    } else {
        lemma_split_path_from_nonempty(rest.skip(1), cur.push(rest[0]));
    }
}

/// Splits a character vector on every `::`, left to right.
pub fn split_path_chars(s: &Vec<char>) -> (out: Vec<Vec<char>>)
    ensures
        views(out@) == split_path(s@),
{
    let mut out: Vec<Vec<char>> = Vec::new();
    let mut cur: Vec<char> = Vec::new();
    let mut i: usize = 0;
    assert(s@.skip(0) == s@);
    assert(views(out@) + split_path(s@) =~= split_path(s@));
    while i < s.len()
        invariant
            i <= s.len(),
            split_path(s@) == views(out@) + split_path_from(s@.skip(i as int), cur@),
        decreases s.len() - i,
    {
        let ghost rest = s@.skip(i as int);
        if i + 1 < s.len() && s[i] == ':' && s[i + 1] == ':' {
            assert(rest.skip(2) == s@.skip(i + 2));
            let ghost prev = out@;
            let ghost old_cur = cur@;
            out.push(cur);
            cur = Vec::new();
            proof {
                let tail = split_path_from(rest.skip(2), Seq::empty());
                assert(views(out@) =~= views(prev).push(old_cur));
                assert(views(prev) + (seq![old_cur] + tail) =~= views(out@) + tail);
            }
            i = i + 2;
        } else {
            assert(rest.skip(1) == s@.skip(i + 1));
            assert(rest[0] == s@[i as int]);
            cur.push(s[i]);
            i = i + 1;
        }
    }
    let ghost prev = out@;
    out.push(cur);
    assert(views(out@) =~= views(prev) + seq![cur@]);
    out
}

/// The segments joined with `c` between each two (`[T]::join`).
pub open spec fn join_with(segs: Seq<Seq<char>>, c: char) -> Seq<char>
    decreases segs.len(),
{
    if segs.len() == 0 {
        Seq::empty()
    } else if segs.len() == 1 {
        segs[0]
    } else {
        join_with(segs.drop_last(), c).push(c) + segs.last()
    }
}

/// Joins the segments with `c` between each two.
pub fn join_chars(segs: &Vec<Vec<char>>, c: char) -> (out: Vec<char>)
    ensures
        out@ == join_with(views(segs@), c),
{
    let mut out: Vec<char> = Vec::new();
    if segs.len() == 0 {
        return out;
    }
    extend_chars(&mut out, &segs[0]);
    let mut i: usize = 1;
    assert(views(segs@).take(1).len() == 1);
    while i < segs.len()
        invariant
            1 <= i <= segs.len(),
            out@ == join_with(views(segs@).take(i as int), c),
        decreases segs.len() - i,
    {
        let ghost before = out@;
        out.push(c);
        extend_chars(&mut out, &segs[i]);
        proof {
            let t = views(segs@).take(i + 1);
            assert(t.drop_last() == views(segs@).take(i as int));
            assert(t.last() == segs@[i as int]@);
        }
        i = i + 1;
    }
    assert(views(segs@).take(segs.len() as int) == views(segs@));
    out
}

/// The position of the first occurrence of `pat` in `s`, or `-1`.
pub open spec fn first_match(s: Seq<char>, pat: Seq<char>) -> int
    decreases s.len(),
{
    if s.len() < pat.len() {
        -1
    } else if s.take(pat.len() as int) == pat {
        0
    } else if s.len() == 0 {
        -1
    } else {
        let r = first_match(s.drop_first(), pat);
        if r < 0 {
            -1
        } else {
            r + 1
        }
    }
}

/// `pat` occurs in `s` at position `k`.
pub open spec fn matches_at(s: Seq<char>, pat: Seq<char>, k: int) -> bool {
    0 <= k && k + pat.len() <= s.len() && s.subrange(k, k + pat.len()) == pat
}

pub proof fn lemma_first_match(s: Seq<char>, pat: Seq<char>)
    ensures
        -1 <= first_match(s, pat) < s.len() + 1,
        first_match(s, pat) >= 0 ==> matches_at(s, pat, first_match(s, pat)),
        forall|k: int| 0 <= k < first_match(s, pat) ==> !#[trigger] matches_at(s, pat, k),
        first_match(s, pat) == -1 ==> forall|k: int| !#[trigger] matches_at(s, pat, k),
    decreases s.len(),
{
    if s.len() < pat.len() {
    } else if s.take(pat.len() as int) == pat {
        assert(s.subrange(0, pat.len() as int) == s.take(pat.len() as int));
    } else if s.len() == 0 {
    } else {
        let t = s.drop_first();
        lemma_first_match(t, pat);
        assert(!matches_at(s, pat, 0)) by {
            assert(s.subrange(0, pat.len() as int) == s.take(pat.len() as int));
        }
        assert forall|k: int| 1 <= k implies #[trigger] matches_at(s, pat, k) == matches_at(t, pat, k - 1) by {
            if k + pat.len() <= s.len() {
                assert(s.subrange(k, k + pat.len()) == t.subrange(k - 1, k - 1 + pat.len()));
            }
        }
        let r = first_match(t, pat);
        if r >= 0 {
            assert(matches_at(s, pat, r + 1));
        }
        assert forall|k: int| 0 <= k < first_match(s, pat) implies !#[trigger] matches_at(s, pat, k) by {
            if k >= 1 {
                assert(!matches_at(t, pat, k - 1));
            }
        }
        if r == -1 {
            assert forall|k: int| !#[trigger] matches_at(s, pat, k) by {
                if k >= 1 {
                    assert(!matches_at(t, pat, k - 1));
                }
            }
        }
    }
}

/// The position of the first occurrence of the text `pat` in `s`.
pub fn find_text(s: &Vec<char>, pat: &str) -> (r: Option<usize>)
    ensures
        match r {
            Some(i) => first_match(s@, pat@) == i,
            None => first_match(s@, pat@) == -1,
        },
{
    let p = chars_of(pat);
    proof {
        lemma_first_match(s@, p@);
    }
    if p.len() > s.len() {
        assert forall|k: int| !#[trigger] matches_at(s@, p@, k) by {}
        return None;
    }
    if p.len() == 0 {
        assert(s@.take(0) =~= p@);
        return Some(0);
    }
    let mut i: usize = 0;
    while i <= s.len() - p.len()
        invariant
            p@ == pat@,
            1 <= p.len() <= s.len(),
            i <= s.len() - p.len() + 1,
            forall|k: int| 0 <= k < i ==> !#[trigger] matches_at(s@, p@, k),
            -1 <= first_match(s@, p@),
            first_match(s@, p@) >= 0 ==> matches_at(s@, p@, first_match(s@, p@)),
            forall|k: int| 0 <= k < first_match(s@, p@) ==> !#[trigger] matches_at(s@, p@, k),
            first_match(s@, p@) == -1 ==> forall|k: int| !#[trigger] matches_at(s@, p@, k),
        decreases s.len() - i,
    {
        let mut j: usize = 0;
        let mut same = true;
        while j < p.len() && same
            invariant
                i + p.len() <= s.len(),
                j <= p.len(),
                same ==> forall|m: int| 0 <= m < j ==> s@[i + m] == p@[m],
                !same ==> !matches_at(s@, p@, i as int),
            decreases p.len() - j + (if same { 1int } else { 0int }),
        {
            if s[i + j] != p[j] {
                same = false;
                assert(s@.subrange(i as int, i + p.len())[j as int] == s@[i + j]);
            } else {
                j = j + 1;
            }
        }
        if same {
            assert(s@.subrange(i as int, i + p.len()) =~= p@);
            assert(matches_at(s@, p@, i as int));
            return Some(i);
        }
        i = i + 1;
    }
    assert forall|k: int| !#[trigger] matches_at(s@, p@, k) by {
        if 0 <= k && k < i {
        }
    }
    None
}

/// Whether a character has the Unicode `Lowercase` property (`char::is_lowercase`).
pub uninterp spec fn is_lowercase_char(c: char) -> bool;

/// `char::is_lowercase`. Its result is the Unicode `Lowercase` property of
/// the character, a fixed table; among ASCII characters exactly `a` to `z`
/// have it.
#[verifier::external_body]
pub(crate) fn char_is_lowercase(c: char) -> (r: bool)
    ensures
        r == is_lowercase_char(c),
        (c as u32) < 128 ==> (r <==> ('a' <= c && c <= 'z')),
{
    c.is_lowercase()
}

/// Whether a character is alphabetic or numeric in Unicode (`char::is_alphanumeric`).
pub uninterp spec fn is_alphanumeric_char(c: char) -> bool;

/// `char::is_alphanumeric`. Its result is the Unicode `Alphabetic` or
/// `Numeric` property of the character, a fixed table; among ASCII
/// characters exactly the letters and digits have it.
#[verifier::external_body]
pub(crate) fn char_is_alphanumeric(c: char) -> (r: bool)
    ensures
        r == is_alphanumeric_char(c),
        (c as u32) < 128 ==> (r <==> (('a' <= c && c <= 'z') || ('A' <= c && c <= 'Z') || ('0' <= c
            && c <= '9'))),
{
    c.is_alphanumeric()
}

/// Whether a character has the Unicode `White_Space` property, as
/// `char::is_whitespace` reads it: tab through carriage return, space, next
/// line, no-break space, ogham space mark, the en quad through hair space,
/// the line and paragraph separators, the narrow no-break space, the medium
/// mathematical space and the ideographic space.
pub open spec fn is_whitespace_char(c: char) -> bool {
    let u = c as u32;
    ||| 0x9 <= u <= 0xD
    ||| u == 0x20
    ||| u == 0x85
    ||| u == 0xA0
    ||| u == 0x1680
    ||| 0x2000 <= u <= 0x200A
    ||| u == 0x2028
    ||| u == 0x2029
    ||| u == 0x202F
    ||| u == 0x205F
    ||| u == 0x3000
}

/// Whether a character is white space, by the Unicode `White_Space` table.
pub(crate) fn char_is_whitespace(c: char) -> (r: bool)
    ensures
        r == is_whitespace_char(c),
        (c as u32) < 128 ==> (r <==> (c == ' ' || c == '\t' || c == '\n' || c == '\x0B' || c == '\x0C'
            || c == '\r')),
{
    let u = c as u32;
    (0x9 <= u && u <= 0xD) || u == 0x20 || u == 0x85 || u == 0xA0 || u == 0x1680 || (0x2000 <= u && u <= 0x200A)
        || u == 0x2028 || u == 0x2029 || u == 0x202F || u == 0x205F || u == 0x3000
}

/// The text with leading and trailing white space removed (`str::trim`).
pub open spec fn trim_ws(s: Seq<char>) -> Seq<char> {
    trim_ws_end(trim_ws_start(s))
}

pub open spec fn trim_ws_start(s: Seq<char>) -> Seq<char>
    decreases s.len(),
{
    if s.len() > 0 && is_whitespace_char(s[0]) {
        trim_ws_start(s.drop_first())
    } else {
        s
    }
}

pub open spec fn trim_ws_end(s: Seq<char>) -> Seq<char>
    decreases s.len(),
{
    if s.len() > 0 && is_whitespace_char(s.last()) {
        trim_ws_end(s.drop_last())
    } else {
        s
    }
}

/// The characters of `s` from `lo` (inclusive) to `hi` (exclusive).
pub fn slice_chars(s: &Vec<char>, lo: usize, hi: usize) -> (out: Vec<char>)
    requires
        lo <= hi <= s.len(),
    ensures
        out@ == s@.subrange(lo as int, hi as int),
{
    let mut out: Vec<char> = Vec::new();
    let mut i: usize = lo;
    while i < hi
        invariant
            lo <= i <= hi <= s.len(),
            out@ == s@.subrange(lo as int, i as int),
        decreases hi - i,
    {
        out.push(s[i]);
        i = i + 1;
        assert(out@ =~= s@.subrange(lo as int, i as int));
    }
    out
}

/// Leading and trailing white space removed.
pub fn trim_chars(s: &Vec<char>) -> (out: Vec<char>)
    ensures
        out@ == trim_ws(s@),
{
    let mut lo: usize = 0;
    assert(s@.skip(0) == s@);
    while lo < s.len() && char_is_whitespace(s[lo])
        invariant
            lo <= s.len(),
            trim_ws_start(s@) == trim_ws_start(s@.skip(lo as int)),
        decreases s.len() - lo,
    {
        assert(s@.skip(lo as int).drop_first() == s@.skip(lo + 1));
        lo = lo + 1;
    }
    assert(trim_ws_start(s@.skip(lo as int)) == s@.skip(lo as int));
    let mut hi: usize = s.len();
    assert(s@.subrange(lo as int, hi as int) == s@.skip(lo as int));
    while hi > lo && char_is_whitespace(s[hi - 1])
        invariant
            lo <= hi <= s.len(),
            trim_ws_end(trim_ws_start(s@)) == trim_ws_end(s@.subrange(lo as int, hi as int)),
        decreases hi - lo,
    {
        assert(s@.subrange(lo as int, hi as int).drop_last() == s@.subrange(lo as int, hi - 1));
        hi = hi - 1;
    }
    slice_chars(s, lo, hi)
}

/// Every leading repetition of `p` removed (`str::trim_start_matches` with a
/// string pattern).
pub open spec fn strip_all_prefix(s: Seq<char>, p: Seq<char>) -> Seq<char>
    decreases s.len(),
{
    if p.len() > 0 && starts_with(s, p) {
        strip_all_prefix(s.skip(p.len() as int), p)
    } else {
        s
    }
}

/// Removes every leading repetition of the text `p`.
pub fn strip_prefix_all(s: &Vec<char>, p: &str) -> (out: Vec<char>)
    ensures
        out@ == strip_all_prefix(s@, p@),
{
    let pc = chars_of(p);
    let mut lo: usize = 0;
    assert(s@.skip(0) == s@);
    if pc.len() == 0 {
        return slice_chars(s, 0, s.len());
    }
    loop
        invariant
            lo <= s.len(),
            pc@ == p@,
            pc.len() > 0,
            strip_all_prefix(s@, p@) == strip_all_prefix(s@.skip(lo as int), p@),
        decreases s.len() - lo,
    {
        let rest = slice_chars(s, lo, s.len());
        assert(rest@ == s@.skip(lo as int));
        if has_prefix(&rest, p) {
            assert(s@.skip(lo as int).skip(pc.len() as int) == s@.skip(lo + pc.len()));
            lo = lo + pc.len();
        } else {
            return rest;
        }
    }
}

/// The position of the last occurrence of `pat` in `s` (`str::rfind`), or `-1`.
pub open spec fn last_match(s: Seq<char>, pat: Seq<char>) -> int
    decreases s.len(),
{
    if s.len() < pat.len() {
        -1
    } else if s.skip(s.len() - pat.len()) == pat {
        s.len() - pat.len()
    } else if s.len() == 0 {
        -1
    } else {
        last_match(s.drop_last(), pat)
    }
}

pub proof fn lemma_last_match(s: Seq<char>, pat: Seq<char>)
    ensures
        -1 <= last_match(s, pat),
        last_match(s, pat) >= 0 ==> matches_at(s, pat, last_match(s, pat)),
    decreases s.len(),
{
    if s.len() < pat.len() {
    } else if s.skip(s.len() - pat.len()) == pat {
        assert(s.subrange(s.len() - pat.len(), s.len() as int) == s.skip(s.len() - pat.len()));
    } else if s.len() > 0 {
        let t = s.drop_last();
        lemma_last_match(t, pat);
        let k = last_match(t, pat);
        if k >= 0 {
            assert(s.subrange(k, k + pat.len()) == t.subrange(k, k + pat.len()));
        }
    }
}

/// No occurrence of `pat` starts after the last one.
pub proof fn lemma_last_match_is_last(s: Seq<char>, pat: Seq<char>)
    ensures
        forall|k: int| last_match(s, pat) < k ==> !#[trigger] matches_at(s, pat, k),
    decreases s.len(),
{
    if s.len() < pat.len() {
    } else if s.skip(s.len() - pat.len()) == pat {
    } else if s.len() == 0 {
    } else {
        let t = s.drop_last();
        lemma_last_match_is_last(t, pat);
        assert forall|k: int| last_match(s, pat) < k implies !#[trigger] matches_at(s, pat, k) by {
            if matches_at(s, pat, k) {
                if k + pat.len() == s.len() {
                    assert(s.subrange(k, k + pat.len()) == s.skip(s.len() - pat.len()));
                } else {
                    assert(s.subrange(k, k + pat.len()) == t.subrange(k, k + pat.len()));
                    assert(matches_at(t, pat, k));
                }
            }
        }
    }
}

/// The position of the last occurrence of the text `pat`.
pub fn rfind_text(s: &Vec<char>, pat: &str) -> (r: Option<usize>)
    ensures
        match r {
            Some(i) => last_match(s@, pat@) == i,
            None => last_match(s@, pat@) == -1,
        },
{
    let pc = chars_of(pat);
    let mut n: usize = s.len();
    assert(s@.take(n as int) == s@);
    loop
        invariant
            n <= s.len(),
            pc@ == pat@,
            last_match(s@, pat@) == last_match(s@.take(n as int), pat@),
        decreases n,
    {
        let ghost t = s@.take(n as int);
        if n < pc.len() {
            return None;
        }
        let tail = slice_chars(s, n - pc.len(), n);
        assert(tail@ == t.skip(n - pc.len()));
        let mut same = true;
        let mut j: usize = 0;
        while j < pc.len() && same
            invariant
                j <= pc.len(),
                tail.len() == pc.len(),
                same ==> tail@.take(j as int) == pc@.take(j as int),
                !same ==> tail@ != pc@,
            decreases pc.len() - j + (if same { 1int } else { 0int }),
        {
            if tail[j] != pc[j] {
                same = false;
            } else {
                assert(tail@.take(j + 1) == tail@.take(j as int).push(tail@[j as int]));
                assert(pc@.take(j + 1) == pc@.take(j as int).push(pc@[j as int]));
                j = j + 1;
            }
        }
        if same {
            assert(tail@ == tail@.take(pc.len() as int));
            assert(pc@ == pc@.take(pc.len() as int));
            return Some(n - pc.len());
        }
        if n == 0 {
            return None;
        }
        assert(t.drop_last() == s@.take(n - 1));
        n = n - 1;
    }
}

} // verus!
