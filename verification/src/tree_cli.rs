//! The tree extractor's command line, and which directory entries it never
//! reads.

use vstd::prelude::*;

use crate::order::same_text;
use crate::typeenv::opt_string;
use crate::text::{chars_of, extend_chars, has_prefix, starts_with, string_of};

verus! {

/// The tree extractor's usage line.
pub const TREE_USAGE: &'static str = "usage: extract_tree --org <org> --repo <repo> <dir>";

/// What the tree extractor was asked to do.
#[derive(Debug, Clone, PartialEq, Eq)]
pub enum TreeCommand {
    /// Print the usage line and succeed.
    Help,
    /// Extract the tree under `root`, naming it `org`/`repo`.
    Run { org: String, repo: String, root: String },
}

/// What the scan has gathered so far: the organization, repository and root.
pub type TreeScan = (Option<Seq<char>>, Option<Seq<char>>, Option<Seq<char>>);

/// The outcome of reading the arguments from position `i` on, with `acc`
/// gathered before it: `--org` and `--repo` take the next argument (nothing,
/// when none is left), `-h` or `--help` asks for help, any other flag is
/// refused, and any other word is the root (the last one counts).
pub open spec fn tree_scan(args: Seq<Seq<char>>, i: int, acc: TreeScan) -> Result<Option<TreeScan>, Seq<char>>
    decreases args.len() + 1 - i,
{
    if i < 0 || i >= args.len() {
        Ok(Some(acc))
    } else {
        let a = args[i];
        let next = if i + 1 < args.len() { Some(args[i + 1]) } else { None };
        if a == "--org"@ {
            tree_scan(args, i + 2, (next, acc.1, acc.2))
        } else if a == "--repo"@ {
            tree_scan(args, i + 2, (acc.0, next, acc.2))
        } else if a == "-h"@ || a == "--help"@ {
            Ok(None)
        } else if starts_with(a, "-"@) {
            Err("unknown flag "@ + a)
        } else {
            tree_scan(args, i + 1, (acc.0, acc.1, Some(a)))
        }
    }
}

/// The command a tree extractor's arguments ask for, or why they are refused.
pub open spec fn spec_tree_command(args: Seq<Seq<char>>) -> Result<Option<(Seq<char>, Seq<char>, Seq<char>)>, Seq<char>> {
    match tree_scan(args, 0, (None, None, None)) {
        Err(e) => Err(e),
        Ok(None) => Ok(None),
        Ok(Some((Some(org), Some(repo), Some(root)))) => Ok(Some((org, repo, root))),
        Ok(Some(_)) => Err(TREE_USAGE@),
    }
}

fn text_of(s: &String) -> (r: String)
    ensures
        r@ == s@,
{
    string_of(&chars_of(s.as_str()))
}

/// Reads the tree extractor's arguments: `--org <org> --repo <repo> <dir>`,
/// or `-h`/`--help`.
pub fn parse_tree_args(args: Vec<String>) -> (r: Result<TreeCommand, String>)
    ensures
        match r {
            Ok(TreeCommand::Help) => spec_tree_command(args@.map_values(|s: String| s@)) == Ok::<
                Option<(Seq<char>, Seq<char>, Seq<char>)>,
                Seq<char>,
            >(None),
            Ok(TreeCommand::Run { org, repo, root }) => spec_tree_command(
                args@.map_values(|s: String| s@),
            ) == Ok::<Option<(Seq<char>, Seq<char>, Seq<char>)>, Seq<char>>(
                Some((org@, repo@, root@)),
            ),
            Err(e) => spec_tree_command(args@.map_values(|s: String| s@)) == Err::<
                Option<(Seq<char>, Seq<char>, Seq<char>)>,
                Seq<char>,
            >(e@),
        },
{
    let ghost a = args@.map_values(|s: String| s@);
    let mut org: Option<String> = None;
    let mut repo: Option<String> = None;
    let mut root: Option<String> = None;
    let mut i: usize = 0;
    while i < args.len()
        invariant
            a == args@.map_values(|s: String| s@),
            i <= args.len(),
            tree_scan(a, 0, (None, None, None)) == tree_scan(
                a,
                i as int,
                (
                    opt_string(org),
                    opt_string(repo),
                    opt_string(root),
                ),
            ),
        decreases args.len() - i,
    {
        let word = args[i].as_str();
        assert(word@ == a[i as int]);
        let next: Option<String> = if i + 1 < args.len() {
            assert(args[i + 1 as int]@ == a[i + 1]);
            Some(text_of(&args[i + 1]))
        } else {
            None
        };
        let after = if i + 1 < args.len() {
            i + 2
        } else {
            args.len()
        };
        let ghost nv: Option<Seq<char>> = if i + 1 < args.len() { Some(a[i + 1]) } else { None };
        assert(opt_string(next) == nv);
        if same_text(word, "--org") {
            proof {
                let acc2 = (nv, opt_string(repo),
                    opt_string(root));
                assert(tree_scan(a, i + 2, acc2) == tree_scan(a, after as int, acc2));
            }
            org = next;
            i = after;
        } else if same_text(word, "--repo") {
            proof {
                let acc2 = (opt_string(org), nv,
                    opt_string(root));
                assert(tree_scan(a, i + 2, acc2) == tree_scan(a, after as int, acc2));
            }
            repo = next;
            i = after;
        } else if same_text(word, "-h") || same_text(word, "--help") {
            return Ok(TreeCommand::Help);
        } else {
            let w = chars_of(word);
            if has_prefix(&w, "-") {
                let mut e = chars_of("unknown flag ");
                extend_chars(&mut e, &w);
                return Err(string_of(&e));
            }
            root = Some(text_of(&args[i]));
            i = i + 1;
        }
    }
    match (org, repo, root) {
        (Some(org), Some(repo), Some(root)) => Ok(TreeCommand::Run { org, repo, root }),
        _ => Err(string_of(&chars_of(TREE_USAGE))),
    }
}

/// A directory entry the tree extractor never reads: hidden entries, build
/// output and installed packages.
pub open spec fn spec_skipped_entry(name: Seq<char>) -> bool {
    starts_with(name, "."@) || name == "target"@ || name == "node_modules"@
}

/// Whether the tree extractor skips a directory entry by its name.
pub fn skipped_entry(name: &str) -> (r: bool)
    ensures
        r == spec_skipped_entry(name@),
{
    let n = chars_of(name);
    has_prefix(&n, ".") || same_text(name, "target") || same_text(name, "node_modules")
}

} // verus!
