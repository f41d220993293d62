//! The shared parse layer: syntax errors, their positions, and the error a
//! caller gets when no tree exists at all.

use vstd::prelude::*;

use crate::naming::{decimal, decimal_chars};
use crate::lang::Language;
use crate::syntax::{arena_of, depths_valid, grammar_nodes, syntax_tree, SyntaxNode, SyntaxTree};
use crate::text::{chars_of, extend_chars, string_of};

verus! {

/// A parse failure.
#[derive(Debug, Clone, PartialEq, Eq)]
pub enum ParseError {
    /// The tree's declaration structure could not be recovered.
    Syntax { file: String, line: u32, column: u32 },
    /// The parser produced no syntax tree.
    NoTree { file: String, line: u32 },
}

/// The message of a parse failure: `{file}:{line}: syntax error` or
/// `{file}:{line}: parser produced no syntax tree`.
pub open spec fn spec_parse_error_message(e: ParseError) -> Seq<char> {
    match e {
        ParseError::Syntax { file, line, .. } => file@ + ":"@ + decimal(line as nat) + ": syntax error"@,
        ParseError::NoTree { file, line } => file@ + ":"@ + decimal(line as nat)
            + ": parser produced no syntax tree"@,
    }
}

impl ParseError {
    /// The file the failure is about.
    pub fn file(&self) -> (f: &str)
        ensures
            f@ == (match self {
                ParseError::Syntax { file, .. } => file@,
                ParseError::NoTree { file, .. } => file@,
            }),
    {
        match self {
            ParseError::Syntax { file, .. } => file.as_str(),
            ParseError::NoTree { file, .. } => file.as_str(),
        }
    }

    /// The one-based line the failure is about.
    pub fn line(&self) -> (l: u32)
        ensures
            l == (match self {
                ParseError::Syntax { line, .. } => *line,
                ParseError::NoTree { line, .. } => *line,
            }),
    {
        match self {
            ParseError::Syntax { line, .. } => *line,
            ParseError::NoTree { line, .. } => *line,
        }
    }

    /// The human-readable message.
    pub fn to_string(&self) -> (s: String)
        ensures
            s@ == spec_parse_error_message(*self),
    {
        proof {
            reveal_strlit(":");
        }
        let mut v = chars_of(self.file());
        v.push(':');
        let d = decimal_chars(self.line() as usize);
        extend_chars(&mut v, &d);
        let tail = match self {
            ParseError::Syntax { .. } => chars_of(": syntax error"),
            ParseError::NoTree { .. } => chars_of(": parser produced no syntax tree"),
        };
        extend_chars(&mut v, &tail);
        proof {
            assert(":"@ =~= seq![':']);
        }
        string_of(&v)
    }
}

/// A zero-based row as a one-based line, saturating at `u32::MAX`.
pub open spec fn spec_line_number(row: usize) -> u32 {
    if row < u32::MAX {
        (row + 1) as u32
    } else {
        u32::MAX
    }
}

/// A zero-based row as a one-based line, saturating at `u32::MAX`.
pub fn line_number(row: usize) -> (l: u32)
    ensures
        l == spec_line_number(row),
{
    if row < 4294967295usize {
        (row + 1) as u32
    } else {
        u32::MAX
    }
}

/// A zero-based column, saturating at `u32::MAX`.
pub fn column_number(column: usize) -> (c: u32)
    ensures
        c == (if column <= u32::MAX {
            column as u32
        } else {
            u32::MAX
        }),
{
    if column <= 4294967295usize {
        column as u32
    } else {
        u32::MAX
    }
}

/// A node is an error or a missing node.
pub open spec fn is_flawed(t: SyntaxTree, n: int) -> bool {
    t.nodes[n].is_error || t.nodes[n].is_missing
}

/// The first error or missing node in preorder, descending only into nodes
/// that contain one.
pub open spec fn first_flaw(t: SyntaxTree, n: int) -> Option<int>
    decreases t.nodes.len() - n, 1int, 0int,
{
    if n < 0 || n >= t.nodes.len() {
        None
    } else if is_flawed(t, n) {
        Some(n)
    } else if t.nodes[n].has_error {
        first_flaw_among(t, n, 0)
    } else {
        None
    }
}

/// The first flaw beneath the children of `n` from the `j`-th on.
pub open spec fn first_flaw_among(t: SyntaxTree, n: int, j: int) -> Option<int>
    decreases t.nodes.len() - n, 0int, t.nodes[n].children.len() - j,
{
    if n < 0 || n >= t.nodes.len() || j < 0 || j >= t.nodes[n].children.len() {
        None
    } else {
        let c = t.nodes[n].children[j] as int;
        if c <= n || c >= t.nodes.len() {
            None
        } else {
            match first_flaw(t, c) {
                Some(e) => Some(e),
                None => first_flaw_among(t, n, j + 1),
            }
        }
    }
}

fn first_flaw_at(t: &SyntaxTree, n: usize) -> (r: Option<usize>)
    requires
        t.wf(),
        n < t.nodes.len(),
    ensures
        match r {
            Some(e) => first_flaw(*t, n as int) == Some(e as int) && e < t.nodes.len(),
            None => first_flaw(*t, n as int).is_none(),
        },
    decreases t.nodes.len() - n, 1int,
{
    let node = &t.nodes[n];
    if node.is_error || node.is_missing {
        return Some(n);
    }
    if !node.has_error {
        return None;
    }
    let mut j: usize = 0;
    while j < node.children.len()
        invariant
            t.wf(),
            n < t.nodes.len(),
            node == &t.nodes[n as int],
            !is_flawed(*t, n as int),
            node.has_error,
            j <= node.children.len(),
            first_flaw(*t, n as int) == first_flaw_among(*t, n as int, j as int),
        decreases node.children.len() - j,
    {
        let c = node.children[j];
        match first_flaw_at(t, c) {
            Some(e) => {
                return Some(e);
            },
            None => {},
        }
        j = j + 1;
    }
    None
}

/// One-based line and zero-based column of the first error node, if any.
pub fn first_error_position(t: &SyntaxTree) -> (r: Option<(u32, u32)>)
    requires
        t.wf(),
    ensures
        match first_flaw(*t, 0) {
            Some(e) => r == Some(
                (
                    spec_line_number(t.nodes[e].start_row),
                    if t.nodes[e].start_column <= u32::MAX {
                        t.nodes[e].start_column as u32
                    } else {
                        u32::MAX
                    },
                ),
            ),
            None => r.is_none(),
        },
{
    match first_flaw_at(t, 0) {
        Some(e) => Some(
            (line_number(t.nodes[e].start_row), column_number(t.nodes[e].start_column)),
        ),
        None => None,
    }
}

/// The root, or one of its own children, is an error or missing node.
pub open spec fn spec_has_declaration_structure_error(t: SyntaxTree) -> bool {
    is_flawed(t, 0) || exists|j: int|
        0 <= j < t.nodes[0].children.len() && is_flawed(t, #[trigger] t.nodes[0].children[j] as int)
}

/// Whether the root or one of its direct children is an error or missing
/// node.
pub fn has_declaration_structure_error(t: &SyntaxTree) -> (r: bool)
    requires
        t.wf(),
    ensures
        r == spec_has_declaration_structure_error(*t),
{
    let root = &t.nodes[0];
    if root.is_error || root.is_missing {
        return true;
    }
    let mut j: usize = 0;
    while j < root.children.len()
        invariant
            t.wf(),
            root == &t.nodes[0],
            j <= root.children.len(),
            forall|i: int| 0 <= i < j ==> !is_flawed(*t, #[trigger] root.children[i] as int),
        decreases root.children.len() - j,
    {
        let c = root.children[j];
        if t.nodes[c].is_error || t.nodes[c].is_missing {
            return true;
        }
        j = j + 1;
    }
    false
}

/// The position a syntax error is reported at: the first error or missing
/// node's line and column, or line 1, column 0 when there is none.
pub open spec fn error_position(t: SyntaxTree) -> (u32, u32) {
    match first_flaw(t, 0) {
        Some(e) => (
            spec_line_number(t.nodes[e].start_row),
            if t.nodes[e].start_column <= u32::MAX {
                t.nodes[e].start_column as u32
            } else {
                u32::MAX
            },
        ),
        None => (1, 0),
    }
}

/// A file whose syntax tree kept its declaration structure.
#[derive(Debug)]
pub struct ParsedFile {
    tree: SyntaxTree,
    source: String,
    file: String,
    language: Language,
}

impl ParsedFile {
    #[verifier::type_invariant]
    spec fn tree_is_well_formed(&self) -> bool {
        self.tree.wf()
    }

    /// The file's syntax tree.
    pub closed spec fn syntax(&self) -> SyntaxTree {
        self.tree
    }

    /// The source text the tree was parsed from.
    pub closed spec fn source_text(&self) -> Seq<char> {
        self.source@
    }

    /// The file name the tree was parsed under.
    pub closed spec fn file_name(&self) -> Seq<char> {
        self.file@
    }

    /// The language the tree was parsed as.
    pub closed spec fn language_of(&self) -> Language {
        self.language
    }

    /// The syntax tree.
    pub fn tree(&self) -> (t: &SyntaxTree)
        ensures
            *t == self.syntax(),
            t.wf(),
    {
        proof {
            use_type_invariant(self);
        }
        &self.tree
    }

    /// The root of the syntax tree.
    pub fn root_node(&self) -> (n: &SyntaxNode)
        ensures
            *n == self.syntax().nodes[0],
    {
        proof {
            use_type_invariant(self);
        }
        &self.tree.nodes[0]
    }

    /// The source text.
    pub fn source(&self) -> (s: &str)
        ensures
            s@ == self.source_text(),
    {
        self.source.as_str()
    }

    /// The file name.
    pub fn file(&self) -> (f: &str)
        ensures
            f@ == self.file_name(),
    {
        self.file.as_str()
    }

    /// The language.
    pub fn language(&self) -> (l: Language)
        ensures
            l == self.language_of(),
    {
        self.language
    }
}

/// What parsing gives for the grammar's tree `t`: a syntax error at the
/// first error's position when the declaration structure could not be
/// recovered, else the parsed file holding the tree, the source, the file
/// name and the language.
pub open spec fn parse_outcome(
    t: SyntaxTree,
    language: Language,
    file: Seq<char>,
    source: Seq<char>,
    r: Result<ParsedFile, ParseError>,
) -> bool {
    match r {
        Ok(p) => !spec_has_declaration_structure_error(t) && p.syntax() == t && p.source_text() == source
            && p.file_name() == file && p.language_of() == language,
        Err(ParseError::Syntax { file: f, line, column }) => spec_has_declaration_structure_error(t) && f@ == file
            && error_position(t) == (line, column),
        Err(ParseError::NoTree { .. }) => false,
    }
}

/// Parses a file, refusing a tree whose declaration structure could not be
/// recovered: a syntax error names the file and the first error's position,
/// and a parse that produced no tree names the file at line 1.
pub fn parse_file(language: Language, file: &str, source: &str) -> (r: Result<ParsedFile, ParseError>)
    ensures
        match grammar_nodes(source@, language) {
            Some(es) => if depths_valid(es) {
                exists|t: SyntaxTree| t.wf() && #[trigger] arena_of(t, es) && parse_outcome(t, language, file@, source@, r)
            } else {
                r matches Err(ParseError::NoTree { file: f, line }) && f@ == file@ && line == 1
            },
            None => r matches Err(ParseError::NoTree { file: f, line }) && f@ == file@ && line == 1,
        },
{
    let name = string_of(&chars_of(file));
    let tree = match syntax_tree(source, language) {
        Some(t) => t,
        None => {
            return Err(ParseError::NoTree { file: name, line: 1 });
        },
    };
    if has_declaration_structure_error(&tree) {
        let (line, column) = match first_error_position(&tree) {
            Some(position) => position,
            None => (1, 0),
        };
        assert(error_position(tree) == (line, column));
        let e = ParseError::Syntax { file: name, line, column };
        proof {
            let es = grammar_nodes(source@, language)->0;
            assert(tree.wf() && arena_of(tree, es) && parse_outcome(tree, language, file@, source@, Err(e)));
        }
        return Err(e);
    }
    let parsed = ParsedFile { tree, source: string_of(&chars_of(source)), file: name, language };
    proof {
        let es = grammar_nodes(source@, language)->0;
        assert(parsed.syntax() == tree);
        assert(tree.wf() && arena_of(tree, es) && parse_outcome(tree, language, file@, source@, Ok(parsed)));
    }
    Ok(parsed)
}

} // verus!
