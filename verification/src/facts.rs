//! The structural fact model and per-file extraction diagnostics.

use vstd::prelude::*;

use crate::text::{chars_of, extend_chars, string_of};

verus! {

/// The canonical object type of a structural fact.
#[derive(Debug, Clone, Copy, PartialEq, Eq, PartialOrd, Ord, Hash, Structural)]
pub enum ObjectType {
    CodeFile,
    Module,
    Function,
    Type,
}

/// The wire name of an object type.
pub open spec fn spec_object_type_name(t: ObjectType) -> Seq<char> {
    match t {
        ObjectType::CodeFile => "code_file"@,
        ObjectType::Module => "code_module"@,
        ObjectType::Function => "code_function"@,
        ObjectType::Type => "code_type"@,
    }
}

impl ObjectType {
    /// The wire name, matching the node types consumers register.
    pub fn as_str(self) -> (r: &'static str)
        ensures
            r@ == spec_object_type_name(self),
    {
        match self {
            ObjectType::CodeFile => "code_file",
            ObjectType::Module => "code_module",
            ObjectType::Function => "code_function",
            ObjectType::Type => "code_type",
        }
    }
}

/// How widely a declaration is visible, as its own language expresses it.
///
/// Three values rather than a boolean because the middle tier is real in
/// every language this library parses.
#[derive(Debug, Clone, Copy, PartialEq, Eq, PartialOrd, Ord, Hash, Structural)]
pub enum Visibility {
    /// Visible outside the defining module.
    Public,
    /// Visible within the defining unit only.
    Crate,
    /// Not visible outside its declaration.
    Private,
}

/// The wire name of a visibility.
pub open spec fn spec_visibility_name(v: Visibility) -> Seq<char> {
    match v {
        Visibility::Public => "public"@,
        Visibility::Crate => "crate"@,
        Visibility::Private => "private"@,
    }
}

impl Visibility {
    /// The wire name.
    pub fn as_str(self) -> (r: &'static str)
        ensures
            r@ == spec_visibility_name(self),
    {
        match self {
            Visibility::Public => "public",
            Visibility::Crate => "crate",
            Visibility::Private => "private",
        }
    }

    /// Whether a consumer outside the defining module can refer to this
    /// declaration.
    pub fn is_exported(self) -> (r: bool)
        ensures
            r == (self == Visibility::Public),
    {
        matches!(self, Visibility::Public)
    }
}

impl Default for Visibility {
    /// A record carrying no visibility reads back as `public`, so an old
    /// record never silently loses a dependent.
    fn default() -> (r: Self)
        ensures
            r == Visibility::Public,
    {
        Visibility::Public
    }
}

/// A one-based, inclusive line span.
#[derive(Debug, Clone, Copy, PartialEq, Eq, PartialOrd, Ord)]
pub struct LineSpan {
    pub start: u32,
    pub end: u32,
}

/// One structural declaration recovered from a file.
#[derive(Debug, Clone, PartialEq, Eq)]
pub struct CodeFact {
    /// Canonical object type.
    pub object_type: ObjectType,
    /// The concrete declaration form, e.g. `struct`, `class`, `method`.
    pub kind: &'static str,
    /// Fully qualified name.
    pub qualified_name: String,
    /// The declaration's own simple name, as written.
    pub simple_name: String,
    /// Repository-relative, forward-slash separated path of the owning file.
    pub path: String,
    /// One-based inclusive line span.
    pub span: LineSpan,
    /// Qualified name of the immediately enclosing fact, if any.
    pub parent: Option<String>,
    /// How widely this declaration is visible.
    pub visibility: Visibility,
    /// Normalized parameter/return summary for a callable.
    pub signature: Option<String>,
}

/// Severity of an extraction diagnostic.
#[derive(Debug, Clone, Copy, PartialEq, Eq, Structural)]
pub enum Severity {
    Error,
    Warning,
}

/// A per-file extraction diagnostic. Never a panic.
#[derive(Debug, Clone, PartialEq, Eq)]
pub struct Diagnostic {
    pub code: String,
    pub message: String,
    pub path: String,
    pub line: Option<u32>,
    pub column: Option<u32>,
    pub severity: Severity,
}

/// A diagnostic as plain values: code, message, path, line, column,
/// severity.
pub type DiagnosticView = (Seq<char>, Seq<char>, Seq<char>, Option<u32>, Option<u32>, Severity);

impl View for Diagnostic {
    type V = DiagnosticView;

    open spec fn view(&self) -> DiagnosticView {
        (self.code@, self.message@, self.path@, self.line, self.column, self.severity)
    }
}

/// The message of an unresolved-import diagnostic.
pub open spec fn spec_unresolved_import_message(specifier: Seq<char>) -> Seq<char> {
    "relative import `"@ + specifier + "` names no file in the batch"@
}

impl Diagnostic {
    /// A syntax error at a one-based line and zero-based column.
    pub fn parse_error(path: &str, message: String, line: u32, column: u32) -> (d: Self)
        ensures
            d.code@ == "parse_error"@,
            d.message@ == message@,
            d.path@ == path@,
            d.line == Some(line),
            d.column == Some(column),
            d.severity == Severity::Error,
    {
        Diagnostic {
            code: "parse_error".to_owned(),
            message,
            path: path.to_owned(),
            line: Some(line),
            column: Some(column),
            severity: Severity::Error,
        }
    }

    /// A whole-file error with no position.
    pub fn file_error(path: &str, code: &str, message: String) -> (d: Self)
        ensures
            d.code@ == code@,
            d.message@ == message@,
            d.path@ == path@,
            d.line.is_none(),
            d.column.is_none(),
            d.severity == Severity::Error,
    {
        Diagnostic {
            code: code.to_owned(),
            message,
            path: path.to_owned(),
            line: None,
            column: None,
            severity: Severity::Error,
        }
    }

    /// A relative import that names no file in the batch.
    pub fn unresolved_import(path: &str, specifier: &str, line: u32) -> (d: Self)
        ensures
            d.code@ == "unresolved_import"@,
            d.message@ == spec_unresolved_import_message(specifier@),
            d.path@ == path@,
            d.line == Some(line),
            d.column.is_none(),
            d.severity == Severity::Warning,
    {
        let mut v = chars_of("relative import `");
        let s = chars_of(specifier);
        extend_chars(&mut v, &s);
        let tail = chars_of("` names no file in the batch");
        extend_chars(&mut v, &tail);
        Diagnostic {
            code: "unresolved_import".to_owned(),
            message: string_of(&v),
            path: path.to_owned(),
            line: Some(line),
            column: None,
            severity: Severity::Warning,
        }
    }
}

} // verus!
