//! Path resolution for import specifiers.
//!
//! Resolution consults only the batch's path set: never the filesystem,
//! never a package manifest.
//!
//! Bare and package-absolute specifiers resolve to nothing and produce no
//! diagnostic: diagnosing every third-party import would bury the
//! unresolvable relative imports, which are the ones that actually signal an
//! incomplete batch.

use vstd::prelude::*;

use crate::lang::{
    last_index, last_index_of, lemma_last_index_of, spec_import_extensions, spec_import_index_stems,
    texts, Language,
};
use crate::order::same_text;
use crate::table::TextSet;
use crate::text::{
    char_is_lowercase, chars_of, extend_chars, find_text, first_match, has_prefix, is_lowercase_char,
    join_chars, join_with, lemma_first_match, lemma_split_path_from_nonempty, matches_at, split_chars,
    split_on, split_path, split_path_chars, starts_with, string_of, views,
};

verus! {

/// A specifier is relative: the only kind this library resolves.
pub open spec fn spec_is_relative(specifier: Seq<char>, language: Language) -> bool {
    match language {
        // Rust `use` paths are module paths, not file paths. `self::`,
        // `super::` and `crate::` are the in-crate forms.
        Language::Rust => starts_with(specifier, "self::"@) || starts_with(specifier, "super::"@)
            || starts_with(specifier, "crate::"@),
        Language::TypeScript | Language::Tsx => starts_with(specifier, "./"@) || starts_with(
            specifier,
            "../"@,
        ),
        Language::Python => starts_with(specifier, "."@),
    }
}

/// Whether a specifier is relative.
pub fn is_relative(specifier: &str, language: Language) -> (r: bool)
    ensures
        r == spec_is_relative(specifier@, language),
{
    let s = chars_of(specifier);
    match language {
        Language::Rust => has_prefix(&s, "self::") || has_prefix(&s, "super::") || has_prefix(
            &s,
            "crate::",
        ),
        Language::TypeScript | Language::Tsx => has_prefix(&s, "./") || has_prefix(&s, "../"),
        Language::Python => has_prefix(&s, "."),
    }
}

/// Everything before the last `/`, or nothing when there is no `/`.
pub open spec fn spec_parent_dir(path: Seq<char>) -> Seq<char> {
    let i = last_index_of(path, '/');
    if i < 0 {
        Seq::empty()
    } else {
        path.take(i)
    }
}

fn parent_dir(path: &Vec<char>) -> (out: Vec<char>)
    ensures
        out@ == spec_parent_dir(path@),
{
    proof {
        lemma_last_index_of(path@, '/');
    }
    match last_index(path, '/') {
        Some(i) => {
            let mut out: Vec<char> = Vec::new();
            let mut k: usize = 0;
            while k < i
                invariant
                    k <= i < path.len(),
                    out@ == path@.take(k as int),
                decreases i - k,
            {
                out.push(path[k]);
                k = k + 1;
                assert(out@ =~= path@.take(k as int));
            }
            out
        },
        None => Vec::new(),
    }
}

/// Walking the specifier's parts over the directory's segments: `.` and
/// empty parts stay, `..` climbs (and fails above the root), any other part
/// descends.
pub open spec fn walk_parts(start: Seq<Seq<char>>, parts: Seq<Seq<char>>) -> Option<Seq<Seq<char>>>
    decreases parts.len(),
{
    if parts.len() == 0 {
        Some(start)
    } else {
        match walk_parts(start, parts.drop_last()) {
            None => None,
            Some(segs) => {
                let p = parts.last();
                if p == "."@ || p.len() == 0 {
                    Some(segs)
                } else if p == ".."@ {
                    if segs.len() == 0 {
                        None
                    } else {
                        Some(segs.drop_last())
                    }
                } else {
                    Some(segs.push(p))
                }
            },
        }
    }
}

proof fn lemma_walk_stays_failed(start: Seq<Seq<char>>, parts: Seq<Seq<char>>, k: int)
    requires
        0 <= k <= parts.len(),
        walk_parts(start, parts.take(k)).is_none(),
    ensures
        walk_parts(start, parts).is_none(),
    decreases parts.len(),
{
    if k == parts.len() {
        assert(parts.take(k) == parts);
    } else {
        assert(parts.drop_last().take(k) == parts.take(k));
        lemma_walk_stays_failed(start, parts.drop_last(), k);
    }
}

/// A `./` or `../` specifier joined onto a directory, `.` and `..` collapsed.
pub open spec fn spec_join_relative(dir: Seq<char>, specifier: Seq<char>) -> Option<Seq<char>> {
    let start = if dir.len() == 0 {
        Seq::empty()
    } else {
        split_on(dir, '/')
    };
    match walk_parts(start, split_on(specifier, '/')) {
        Some(segs) => Some(join_with(segs, '/')),
        None => None,
    }
}

fn join_relative(dir: &Vec<char>, specifier: &Vec<char>) -> (out: Option<Vec<char>>)
    ensures
        match out {
            Some(o) => spec_join_relative(dir@, specifier@) == Some(o@),
            None => spec_join_relative(dir@, specifier@).is_none(),
        },
{
    let mut segments: Vec<Vec<char>> = if dir.len() == 0 {
        Vec::new()
    } else {
        split_chars(dir, '/')
    };
    let ghost start = views(segments@);
    assert(start == (if dir@.len() == 0 {
        Seq::<Seq<char>>::empty()
    } else {
        split_on(dir@, '/')
    }));
    let parts = split_chars(specifier, '/');
    let ghost ps = views(parts@);
    let mut i: usize = 0;
    assert(ps.take(0) =~= Seq::<Seq<char>>::empty());
    while i < parts.len()
        invariant
            i <= parts.len(),
            ps == views(parts@),
            ps == split_on(specifier@, '/'),
            start == (if dir@.len() == 0 {
                Seq::<Seq<char>>::empty()
            } else {
                split_on(dir@, '/')
            }),
            walk_parts(start, ps.take(i as int)) == Some(views(segments@)),
        decreases parts.len() - i,
    {
        assert(ps.take(i + 1).drop_last() == ps.take(i as int));
        assert(ps.take(i + 1).last() == parts@[i as int]@);
        let part = string_of(&parts[i]);
        let ghost before = views(segments@);
        if same_text(part.as_str(), ".") || parts[i].len() == 0 {
        } else if same_text(part.as_str(), "..") {
            if segments.len() == 0 {
                proof {
                    assert(walk_parts(start, ps.take(i + 1)).is_none());
                    lemma_walk_stays_failed(start, ps, i + 1);
                }
                return None;
            }
            segments.pop();
            assert(views(segments@) =~= before.drop_last());
        } else {
            let p = string_of(&parts[i]);
            segments.push(chars_of(p.as_str()));
            assert(views(segments@) =~= before.push(ps[i as int]));
        }
        i = i + 1;
    }
    assert(ps.take(parts.len() as int) == ps);
    Some(join_chars(&segments, '/'))
}

/// A segment of a Rust `use` path that may name a module: non-empty and not
/// a glob.
pub open spec fn is_module_segment(s: Seq<char>) -> bool {
    s.len() > 0 && s != "*"@
}

/// The segments that may name modules, in order.
pub open spec fn module_segments(segs: Seq<Seq<char>>) -> Seq<Seq<char>>
    decreases segs.len(),
{
    if segs.len() == 0 {
        Seq::empty()
    } else if is_module_segment(segs.last()) {
        module_segments(segs.drop_last()).push(segs.last())
    } else {
        module_segments(segs.drop_last())
    }
}

/// A segment spelled like a module: it starts lowercase or with `_`.
pub open spec fn module_like(s: Seq<char>) -> bool {
    s.len() > 0 && (is_lowercase_char(s[0]) || s[0] == '_')
}

/// The longest run of module-like segments at the front.
pub open spec fn leading_modules(segs: Seq<Seq<char>>) -> Seq<Seq<char>>
    decreases segs.len(),
{
    if segs.len() == 0 {
        Seq::empty()
    } else {
        let p = leading_modules(segs.drop_last());
        if p.len() == segs.len() - 1 && module_like(segs.last()) {
            p.push(segs.last())
        } else {
            p
        }
    }
}

proof fn lemma_leading_modules_len(segs: Seq<Seq<char>>)
    ensures
        leading_modules(segs).len() <= segs.len(),
    decreases segs.len(),
{
    if segs.len() > 0 {
        lemma_leading_modules_len(segs.drop_last());
    }
}

/// The crate root directory of a Rust file: the `src` it lives beneath.
pub open spec fn spec_crate_root(importer: Seq<char>) -> Seq<char> {
    let i = first_match(importer, "src/"@);
    if i >= 0 {
        importer.take(i) + "src"@
    } else {
        spec_parent_dir(importer)
    }
}

/// `prefix/rest`, or `rest` alone under an empty prefix.
pub open spec fn beneath(prefix: Seq<char>, rest: Seq<char>) -> Seq<char> {
    if prefix.len() == 0 {
        rest
    } else {
        prefix + "/"@ + rest
    }
}

/// Rust `use` paths name modules, not files: `crate::a::b` maps to `a/b`
/// beneath the crate root; `self::x` and `super::x` map beside the importer.
/// A trailing item name is not a file, so only the leading module-like
/// segments count.
pub open spec fn spec_rust_module_path(specifier: Seq<char>, importer: Seq<char>) -> Option<Seq<char>> {
    let segs = split_path(specifier);
    let head = segs[0];
    let modules = leading_modules(module_segments(segs.drop_first()));
    let dir = spec_parent_dir(importer);
    if modules.len() == 0 {
        None
    } else if head == "crate"@ {
        Some(beneath(spec_crate_root(importer), join_with(modules, '/')))
    } else if head == "self"@ || head == "super"@ {
        Some(beneath(dir, join_with(modules, '/')))
    } else {
        None
    }
}

fn crate_root(importer: &Vec<char>) -> (out: Vec<char>)
    ensures
        out@ == spec_crate_root(importer@),
{
    proof {
        lemma_first_match(importer@, "src/"@);
        reveal_strlit("src/");
    }
    match find_text(importer, "src/") {
        Some(i) => {
            let mut out: Vec<char> = Vec::new();
            let mut k: usize = 0;
            while k < i
                invariant
                    k <= i,
                    i + 4 <= importer.len(),
                    out@ == importer@.take(k as int),
                decreases i - k,
            {
                out.push(importer[k]);
                k = k + 1;
                assert(out@ =~= importer@.take(k as int));
            }
            let src = chars_of("src");
            extend_chars(&mut out, &src);
            out
        },
        None => parent_dir(importer),
    }
}

fn beneath_chars(prefix: Vec<char>, rest: &Vec<char>) -> (out: Vec<char>)
    ensures
        out@ == beneath(prefix@, rest@),
{
    if prefix.len() == 0 {
        let mut out: Vec<char> = Vec::new();
        extend_chars(&mut out, rest);
        assert(out@ =~= rest@);
        out
    } else {
        let mut out = prefix;
        out.push('/');
        extend_chars(&mut out, rest);
        proof {
            reveal_strlit("/");
            assert(out@ =~= prefix@ + "/"@ + rest@);
        }
        out
    }
}

fn rust_module_path(specifier: &Vec<char>, importer: &Vec<char>) -> (out: Option<Vec<char>>)
    ensures
        match out {
            Some(o) => spec_rust_module_path(specifier@, importer@) == Some(o@),
            None => spec_rust_module_path(specifier@, importer@).is_none(),
        },
{
    let dir = parent_dir(importer);
    let segments = split_path_chars(specifier);
    proof {
        lemma_split_path_from_nonempty(specifier@, Seq::empty());
    }
    let ghost segs = views(segments@);
    let ghost rest = segs.drop_first();
    // The segments after the head that may name modules.
    let mut kept: Vec<Vec<char>> = Vec::new();
    let mut i: usize = 1;
    assert(rest.take(0) =~= Seq::<Seq<char>>::empty());
    while i < segments.len()
        invariant
            1 <= i <= segments.len(),
            segs == views(segments@),
            rest == segs.drop_first(),
            views(kept@) == module_segments(rest.take(i - 1)),
        decreases segments.len() - i,
    {
        assert(rest.take(i as int).drop_last() == rest.take(i - 1));
        assert(rest.take(i as int).last() == segments@[i as int]@);
        let seg = string_of(&segments[i]);
        if segments[i].len() > 0 && !same_text(seg.as_str(), "*") {
            let ghost before = views(kept@);
            kept.push(chars_of(seg.as_str()));
            assert(views(kept@) =~= before.push(segs[i as int]));
        }
        i = i + 1;
    }
    assert(rest.take(segments.len() - 1) == rest);
    // Everything but a trailing type-like segment is a module path.
    let ghost ks = views(kept@);
    let mut modules: Vec<Vec<char>> = Vec::new();
    let mut leading = true;
    let mut k: usize = 0;
    assert(ks.take(0) =~= Seq::<Seq<char>>::empty());
    while k < kept.len()
        invariant
            k <= kept.len(),
            ks == views(kept@),
            views(modules@) == leading_modules(ks.take(k as int)),
            leading == (modules.len() == k),
        decreases kept.len() - k,
    {
        assert(ks.take(k + 1).drop_last() == ks.take(k as int));
        assert(ks.take(k + 1).last() == kept@[k as int]@);
        proof {
            lemma_leading_modules_len(ks.take(k as int));
        }
        let starts = kept[k].len() > 0 && (char_is_lowercase(kept[k][0]) || kept[k][0] == '_');
        if leading && starts {
            let ghost before = views(modules@);
            let seg = string_of(&kept[k]);
            modules.push(chars_of(seg.as_str()));
            assert(views(modules@) =~= before.push(ks[k as int]));
        } else {
            leading = false;
        }
        k = k + 1;
    }
    assert(ks.take(kept.len() as int) == ks);
    if modules.len() == 0 {
        return None;
    }
    let joined = join_chars(&modules, '/');
    let head = string_of(&segments[0]);
    if same_text(head.as_str(), "crate") {
        Some(beneath_chars(crate_root(importer), &joined))
    } else if same_text(head.as_str(), "self") || same_text(head.as_str(), "super") {
        Some(beneath_chars(dir, &joined))
    } else {
        None
    }
}

/// The number of leading dots.
pub open spec fn leading_dots(s: Seq<char>) -> nat
    decreases s.len(),
{
    if s.len() > 0 && s[0] == '.' {
        1 + leading_dots(s.drop_first())
    } else {
        0
    }
}

/// The directory `n` levels above `path`.
pub open spec fn ancestor(path: Seq<char>, n: nat) -> Seq<char>
    decreases n,
{
    if n == 0 {
        path
    } else {
        spec_parent_dir(ancestor(path, (n - 1) as nat))
    }
}

/// Every `.` replaced by `/`.
pub open spec fn dots_to_slashes(s: Seq<char>) -> Seq<char> {
    s.map_values(|c: char| if c == '.' { '/' } else { c })
}

/// Python relative imports: leading dots count levels up from the importer.
pub open spec fn spec_python_module_path(specifier: Seq<char>, importer: Seq<char>) -> Option<Seq<char>> {
    let dots = leading_dots(specifier);
    if dots == 0 {
        None
    } else {
        let dir = ancestor(importer, dots);
        let tail = dots_to_slashes(specifier.skip(dots as int));
        if tail.len() == 0 {
            Some(dir)
        } else {
            Some(beneath(dir, tail))
        }
    }
}

proof fn lemma_leading_dots(s: Seq<char>, i: int)
    requires
        0 <= i <= s.len(),
        forall|j: int| 0 <= j < i ==> s[j] == '.',
    ensures
        leading_dots(s) == i + leading_dots(s.skip(i)),
    decreases i,
{
    if i > 0 {
        lemma_leading_dots(s.drop_first(), i - 1);
        assert(s.drop_first().skip(i - 1) == s.skip(i));
    } else {
        assert(s.skip(0) == s);
    }
}

fn python_module_path(specifier: &Vec<char>, importer: &Vec<char>) -> (out: Option<Vec<char>>)
    ensures
        match out {
            Some(o) => spec_python_module_path(specifier@, importer@) == Some(o@),
            None => spec_python_module_path(specifier@, importer@).is_none(),
        },
{
    let mut dots: usize = 0;
    while dots < specifier.len() && specifier[dots] == '.'
        invariant
            dots <= specifier.len(),
            forall|j: int| 0 <= j < dots ==> specifier@[j] == '.',
        decreases specifier.len() - dots,
    {
        dots = dots + 1;
    }
    proof {
        lemma_leading_dots(specifier@, dots as int);
        let rest = specifier@.skip(dots as int);
        if rest.len() > 0 {
            assert(rest[0] != '.');
        }
        assert(leading_dots(rest) == 0);
    }
    if dots == 0 {
        return None;
    }
    let mut dir = parent_dir(importer);
    let mut level: usize = 1;
    assert(ancestor(importer@, 0) == importer@);
    while level < dots
        invariant
            1 <= level <= dots,
            dir@ == ancestor(importer@, level as nat),
        decreases dots - level,
    {
        dir = parent_dir(&dir);
        level = level + 1;
    }
    let mut tail: Vec<char> = Vec::new();
    let mut i: usize = dots;
    while i < specifier.len()
        invariant
            dots <= i <= specifier.len(),
            tail@ == dots_to_slashes(specifier@.subrange(dots as int, i as int)),
        decreases specifier.len() - i,
    {
        if specifier[i] == '.' {
            tail.push('/');
        } else {
            tail.push(specifier[i]);
        }
        i = i + 1;
        assert(tail@ =~= dots_to_slashes(specifier@.subrange(dots as int, i as int)));
    }
    assert(specifier@.subrange(dots as int, specifier.len() as int) == specifier@.skip(dots as int));
    if tail.len() == 0 {
        Some(dir)
    } else {
        Some(beneath_chars(dir, &tail))
    }
}

/// The path a relative specifier names before extensions and index stems
/// are tried.
pub open spec fn spec_candidate_stem(specifier: Seq<char>, importer: Seq<char>, language: Language) -> Option<
    Seq<char>,
> {
    match language {
        Language::Rust => spec_rust_module_path(specifier, importer),
        Language::Python => spec_python_module_path(specifier, importer),
        Language::TypeScript | Language::Tsx => spec_join_relative(spec_parent_dir(importer), specifier),
    }
}

/// `prefix` followed by each extension in turn.
pub open spec fn with_each(prefix: Seq<char>, exts: Seq<Seq<char>>) -> Seq<Seq<char>> {
    exts.map_values(|e: Seq<char>| prefix + e)
}

/// For each index stem in turn, `stem/index.ext` for each extension.
pub open spec fn indexed(stem: Seq<char>, stems: Seq<Seq<char>>, exts: Seq<Seq<char>>) -> Seq<Seq<char>>
    decreases stems.len(),
{
    if stems.len() == 0 {
        Seq::empty()
    } else {
        indexed(stem, stems.drop_last(), exts) + with_each(stem + "/"@ + stems.last() + "."@, exts)
    }
}

/// The paths tried for a stem, in order: the stem itself, then each
/// configured extension, then each index stem with each extension.
pub open spec fn import_candidates(stem: Seq<char>, language: Language) -> Seq<Seq<char>> {
    seq![stem] + with_each(stem + "."@, spec_import_extensions(language)) + indexed(
        stem,
        spec_import_index_stems(language),
        spec_import_extensions(language),
    )
}

/// The first candidate present in the batch.
pub open spec fn first_present(cands: Seq<Seq<char>>, batch: Set<Seq<char>>) -> Option<Seq<char>>
    decreases cands.len(),
{
    if cands.len() == 0 {
        None
    } else if batch.contains(cands[0]) {
        Some(cands[0])
    } else {
        first_present(cands.drop_first(), batch)
    }
}

/// Where a specifier resolves within the batch, if anywhere.
pub open spec fn spec_resolve(
    specifier: Seq<char>,
    importer: Seq<char>,
    language: Language,
    batch: Set<Seq<char>>,
) -> Option<Seq<char>> {
    if !spec_is_relative(specifier, language) {
        None
    } else {
        match spec_candidate_stem(specifier, importer, language) {
            Some(stem) => first_present(import_candidates(stem, language), batch),
            None => None,
        }
    }
}

fn push_with_each(out: &mut Vec<Vec<char>>, prefix: &Vec<char>, exts: &Vec<&'static str>)
    ensures
        views(final(out)@) == views(old(out)@) + with_each(prefix@, texts(exts@)),
{
    let ghost start = views(out@);
    let mut i: usize = 0;
    while i < exts.len()
        invariant
            i <= exts.len(),
            views(out@) == start + with_each(prefix@, texts(exts@).take(i as int)),
        decreases exts.len() - i,
    {
        let mut c: Vec<char> = Vec::new();
        extend_chars(&mut c, prefix);
        let e = chars_of(exts[i]);
        extend_chars(&mut c, &e);
        let ghost before = views(out@);
        out.push(c);
        proof {
            assert(views(out@) =~= before.push(prefix@ + exts@[i as int]@));
            assert(with_each(prefix@, texts(exts@).take(i + 1)) =~= with_each(
                prefix@,
                texts(exts@).take(i as int),
            ).push(prefix@ + exts@[i as int]@));
        }
        i = i + 1;
    }
    assert(texts(exts@).take(exts.len() as int) == texts(exts@));
}

fn candidates(stem: &Vec<char>, language: Language) -> (out: Vec<Vec<char>>)
    ensures
        views(out@) == import_candidates(stem@, language),
{
    let config = language.config();
    proof {
        reveal_strlit("/");
        reveal_strlit(".");
    }
    let mut out: Vec<Vec<char>> = Vec::new();
    let mut first: Vec<char> = Vec::new();
    extend_chars(&mut first, stem);
    out.push(first);
    assert(views(out@) =~= seq![stem@]);
    let mut dotted: Vec<char> = Vec::new();
    extend_chars(&mut dotted, stem);
    dotted.push('.');
    assert(dotted@ =~= stem@ + "."@);
    push_with_each(&mut out, &dotted, &config.import_extensions);
    let ghost exts = texts(config.import_extensions@);
    let ghost stems = texts(config.import_index_stems@);
    let ghost head = views(out@);
    let mut i: usize = 0;
    assert(head + indexed(stem@, stems.take(0), exts) =~= head);
    while i < config.import_index_stems.len()
        invariant
            i <= config.import_index_stems.len(),
            exts == texts(config.import_extensions@),
            stems == texts(config.import_index_stems@),
            views(out@) == head + indexed(stem@, stems.take(i as int), exts),
        decreases config.import_index_stems.len() - i,
    {
        let mut prefix: Vec<char> = Vec::new();
        extend_chars(&mut prefix, stem);
        prefix.push('/');
        let s = chars_of(config.import_index_stems[i]);
        extend_chars(&mut prefix, &s);
        prefix.push('.');
        push_with_each(&mut out, &prefix, &config.import_extensions);
        proof {
            assert(stems.take(i + 1).drop_last() == stems.take(i as int));
            assert(stems.take(i + 1).last() == stems[i as int]);
            reveal_strlit("/");
            reveal_strlit(".");
            assert(stems[i as int] == config.import_index_stems@[i as int]@);
            assert(prefix@ =~= stem@ + "/"@ + stems[i as int] + "."@);
        }
        i = i + 1;
    }
    assert(stems.take(config.import_index_stems.len() as int) == stems);
    out
}

/// Resolve a relative specifier against the importing file's path, returning a
/// path present in `batch_paths`, or `None`.
pub fn resolve(specifier: &str, importer_path: &str, language: Language, batch_paths: &TextSet) -> (r: Option<
    String,
>)
    ensures
        match r {
            Some(p) => spec_resolve(specifier@, importer_path@, language, batch_paths@) == Some(p@),
            None => spec_resolve(specifier@, importer_path@, language, batch_paths@).is_none(),
        },
{
    if !is_relative(specifier, language) {
        return None;
    }
    let spec_chars = chars_of(specifier);
    let importer = chars_of(importer_path);
    let stem = match language {
        Language::Rust => rust_module_path(&spec_chars, &importer),
        Language::Python => python_module_path(&spec_chars, &importer),
        Language::TypeScript | Language::Tsx => join_relative(&parent_dir(&importer), &spec_chars),
    };
    let stem = match stem {
        Some(s) => s,
        None => {
            return None;
        },
    };
    // Exact path, then each configured extension, then each index stem.
    let cands = candidates(&stem, language);
    let ghost cs = views(cands@);
    let ghost target = spec_resolve(specifier@, importer_path@, language, batch_paths@);
    assert(target == first_present(cs, batch_paths@));
    let mut i: usize = 0;
    assert(cs.skip(0) == cs);
    while i < cands.len()
        invariant
            i <= cands.len(),
            cs == views(cands@),
            target == spec_resolve(specifier@, importer_path@, language, batch_paths@),
            target == first_present(cs.skip(i as int), batch_paths@),
        decreases cands.len() - i,
    {
        let c = string_of(&cands[i]);
        assert(cs.skip(i as int)[0] == cs[i as int]);
        if batch_paths.contains(c.as_str()) {
            return Some(c);
        }
        assert(cs.skip(i as int).drop_first() == cs.skip(i + 1));
        i = i + 1;
    }
    None
}

proof fn lemma_first_present(cands: Seq<Seq<char>>, batch: Set<Seq<char>>)
    ensures
        first_present(cands, batch) matches Some(p) ==> batch.contains(p) && cands.contains(p),
    decreases cands.len(),
{
    if cands.len() > 0 && !batch.contains(cands[0]) {
        lemma_first_present(cands.drop_first(), batch);
        if first_present(cands.drop_first(), batch).is_some() {
            let p = first_present(cands.drop_first(), batch).unwrap();
            let j = choose|j: int| 0 <= j < cands.drop_first().len() && cands.drop_first()[j] == p;
            assert(cands[j + 1] == p);
        }
    } else if cands.len() > 0 {
        assert(cands[0] == cands[0]);
    }
}

/// Resolution consults only the batch: a specifier resolves to a path the
/// batch holds, or to nothing.
pub proof fn law_resolved_paths_are_in_the_batch(
    specifier: Seq<char>,
    importer: Seq<char>,
    language: Language,
    batch: Set<Seq<char>>,
)
    requires
        spec_resolve(specifier, importer, language, batch).is_some(),
    ensures
        batch.contains(spec_resolve(specifier, importer, language, batch).unwrap()),
{
    let stem = spec_candidate_stem(specifier, importer, language).unwrap();
    lemma_first_present(import_candidates(stem, language), batch);
}

/// The part of a path that follows the last `/`, which holds no `/`, plays
/// no part in its parent directory.
proof fn lemma_parent_of_child(dir: Seq<char>, x: Seq<char>)
    requires
        forall|j: int| 0 <= j < x.len() ==> x[j] != '/',
    ensures
        spec_parent_dir(dir + "/"@ + x) == dir,
{
    reveal_strlit("/");
    let s = dir + "/"@ + x;
    lemma_last_index_of(s, '/');
    let i = last_index_of(s, '/');
    assert(s[dir.len() as int] == '/');
    if i > dir.len() {
        assert(s[i] == x[i - dir.len() - 1]);
    }
    assert(i == dir.len());
    assert(s.take(i) =~= dir);
}

/// In a Python relative specifier, each `.` after the leading dots is a
/// path separator: beneath the directory the dots climb to, the stem
/// carries the rest of the specifier character for character, with every
/// `.` turned into `/`, so no `.` of that rest survives in it.
pub proof fn law_python_dots_become_separators(specifier: Seq<char>, importer: Seq<char>, dots: nat)
    requires
        0 < dots < specifier.len(),
        forall|j: int| 0 <= j < dots ==> specifier[j] == '.',
        specifier[dots as int] != '.',
    ensures
        spec_candidate_stem(specifier, importer, Language::Python) is Some,
        ({
            let stem = spec_candidate_stem(specifier, importer, Language::Python)->0;
            let dir = ancestor(importer, dots);
            let rest = (specifier.len() - dots) as int;
            let at = stem.len() - rest;
            &&& at == (if dir.len() == 0 { 0 } else { dir.len() + 1 })
            &&& dir.len() > 0 ==> stem.take(dir.len() as int) == dir && stem[dir.len() as int] == '/'
            &&& forall|i: int| 0 <= i < rest ==> #[trigger] stem[at + i] != '.'
            &&& forall|i: int|
                0 <= i < rest && specifier[dots + i] == '.' ==> #[trigger] stem[at + i] == '/'
            &&& forall|i: int|
                0 <= i < rest && specifier[dots + i] != '.' ==> #[trigger] stem[at + i] == specifier[dots + i]
        }),
{
    reveal_strlit("/");
    lemma_leading_dots(specifier, dots as int);
    let after = specifier.skip(dots as int);
    assert(after[0] != '.');
    assert(leading_dots(specifier) == dots);
    let dir = ancestor(importer, dots);
    let tail = dots_to_slashes(after);
    assert(tail.len() == after.len());
    let stem = spec_candidate_stem(specifier, importer, Language::Python)->0;
    assert(stem == beneath(dir, tail));
    let rest = (specifier.len() - dots) as int;
    let at = stem.len() - rest;
    assert forall|i: int| 0 <= i < rest implies #[trigger] stem[at + i] == tail[i] by {
        if dir.len() > 0 {
            assert(stem[at + i] == (dir + "/"@ + tail)[dir.len() + 1 + i]);
        }
    }
    assert forall|i: int| 0 <= i < rest implies #[trigger] stem[at + i] != '.' by {
        assert(stem[at + i] == tail[i]);
        assert(after[i] == specifier[dots + i]);
    }
    if dir.len() > 0 {
        assert(stem.take(dir.len() as int) =~= dir);
    }
}

/// `from .a.b import …` in `dir/x.py` names the module `dir/a/b`: the
/// stem is `dir/a/b`, and where the batch holds `dir/a/b.py` (and no file
/// at the bare stem) the import resolves to it.
pub proof fn law_python_submodule_beside_importer(
    dir: Seq<char>,
    x: Seq<char>,
    a: Seq<char>,
    b: Seq<char>,
    batch: Set<Seq<char>>,
)
    requires
        dir.len() > 0,
        forall|j: int| 0 <= j < x.len() ==> x[j] != '/',
        a.len() > 0,
        b.len() > 0,
        forall|j: int| 0 <= j < a.len() ==> a[j] != '.',
        forall|j: int| 0 <= j < b.len() ==> b[j] != '.',
    ensures
        spec_candidate_stem("."@ + a + "."@ + b, dir + "/"@ + x, Language::Python) == Some(
            dir + "/"@ + a + "/"@ + b,
        ),
        batch.contains(dir + "/"@ + a + "/"@ + b + ".py"@) && !batch.contains(dir + "/"@ + a + "/"@ + b)
            ==> spec_resolve("."@ + a + "."@ + b, dir + "/"@ + x, Language::Python, batch) == Some(
            dir + "/"@ + a + "/"@ + b + ".py"@,
        ),
{
    reveal_strlit(".");
    reveal_strlit("/");
    reveal_strlit(".py");
    reveal_strlit("py");
    let specifier = "."@ + a + "."@ + b;
    let importer = dir + "/"@ + x;
    law_python_dots_become_separators(specifier, importer, 1);
    lemma_parent_of_child(dir, x);
    assert(ancestor(importer, 0) == importer);
    assert(ancestor(importer, 1) == dir);
    let stem = spec_candidate_stem(specifier, importer, Language::Python)->0;
    let want = dir + "/"@ + a + "/"@ + b;
    let rest = specifier.len() - 1;
    let at = stem.len() - rest;
    assert(at == dir.len() + 1);
    assert forall|k: int| 0 <= k < want.len() implies stem[k] == want[k] by {
        if k < dir.len() {
            assert(stem.take(dir.len() as int)[k] == stem[k]);
        } else if k > dir.len() {
            let i = k - at;
            assert(stem[at + i] == stem[k]);
            if i < a.len() {
                assert(specifier[1 + i] == a[i]);
            } else if i == a.len() {
                assert(specifier[1 + i] == '.');
            } else {
                assert(specifier[1 + i] == b[i - a.len() - 1]);
            }
        }
    }
    assert(stem =~= want);
    assert(starts_with(specifier, "."@)) by {
        assert(specifier.take(1) =~= "."@);
    }
    let cands = import_candidates(want, Language::Python);
    assert(cands[0] == want);
    assert(cands.drop_first()[0] == want + "."@ + "py"@);
    assert(want + "."@ + "py"@ =~= want + ".py"@);
    if batch.contains(want + ".py"@) && !batch.contains(want) {
        assert(spec_is_relative(specifier, Language::Python));
        assert(spec_candidate_stem(specifier, importer, Language::Python) == Some(want));
        assert(!batch.contains(cands[0]));
        assert(batch.contains(cands.drop_first()[0]));
        assert(first_present(cands.drop_first(), batch) == Some(want + ".py"@));
        assert(first_present(cands, batch) == Some(want + ".py"@));
    }
}

/// A bare or package-absolute specifier never resolves.
pub proof fn law_bare_specifiers_resolve_to_nothing(
    specifier: Seq<char>,
    importer: Seq<char>,
    language: Language,
    batch: Set<Seq<char>>,
)
    requires
        !spec_is_relative(specifier, language),
    ensures
        spec_resolve(specifier, importer, language, batch).is_none(),
{
}

} // verus!
