//! Language selection and per-language node-kind configuration.
//!
//! Languages are added by describing their grammar's node kinds here, never
//! by forking the extraction engine. Everything downstream (naming, edges,
//! mentions, resolution) reads this table and stays language-agnostic.

use vstd::prelude::*;

use crate::facts::ObjectType;
use crate::order::same_text;
use crate::text::chars_of;

verus! {

/// A source language this library can extract.
#[derive(Debug, Clone, Copy, PartialEq, Eq, PartialOrd, Ord, Hash, Structural)]
pub enum Language {
    Rust,
    TypeScript,
    Tsx,
    Python,
}

/// The canonical lowercase name of a language.
pub open spec fn spec_language_name(lang: Language) -> Seq<char> {
    match lang {
        Language::Rust => "rust"@,
        Language::TypeScript => "typescript"@,
        Language::Tsx => "tsx"@,
        Language::Python => "python"@,
    }
}

/// The language a consumer-supplied name selects.
pub open spec fn spec_language_named(name: Seq<char>) -> Option<Language> {
    if name == "rust"@ {
        Some(Language::Rust)
    } else if name == "typescript"@ || name == "ts"@ {
        Some(Language::TypeScript)
    } else if name == "tsx"@ {
        Some(Language::Tsx)
    } else if name == "python"@ || name == "py"@ {
        Some(Language::Python)
    } else {
        None
    }
}

/// The position of the last `c` in `s`, or `-1` when there is none.
pub open spec fn last_index_of(s: Seq<char>, c: char) -> int
    decreases s.len(),
{
    if s.len() == 0 {
        -1
    } else if s.last() == c {
        s.len() - 1
    } else {
        last_index_of(s.drop_last(), c)
    }
}

/// What follows the last `.` of a path, if it has one.
pub open spec fn spec_extension(path: Seq<char>) -> Option<Seq<char>> {
    let i = last_index_of(path, '.');
    if i < 0 {
        None
    } else {
        Some(path.skip(i + 1))
    }
}

/// The language a file extension selects.
pub open spec fn spec_language_of_extension(ext: Seq<char>) -> Option<Language> {
    if ext == "rs"@ {
        Some(Language::Rust)
    } else if ext == "ts"@ || ext == "mts"@ || ext == "cts"@ {
        Some(Language::TypeScript)
    } else if ext == "tsx"@ {
        Some(Language::Tsx)
    } else if ext == "py"@ || ext == "pyi"@ {
        Some(Language::Python)
    } else {
        None
    }
}

/// The language a path selects by its extension; `None` without one.
pub open spec fn spec_language_of_path(path: Seq<char>) -> Option<Language> {
    match spec_extension(path) {
        Some(ext) => spec_language_of_extension(ext),
        None => None,
    }
}

/// A path's extension is what follows its last `.`: whatever comes before
/// that dot, dots included (`app.test.ts`, `v1.2/x.py`), plays no part, so
/// `p.e` with a dot-free `e` selects exactly the language `e` selects.
pub proof fn law_extension_follows_the_last_dot(p: Seq<char>, e: Seq<char>)
    requires
        forall|j: int| 0 <= j < e.len() ==> e[j] != '.',
    ensures
        spec_extension(p + "."@ + e) == Some(e),
        spec_language_of_path(p + "."@ + e) == spec_language_of_extension(e),
{
    reveal_strlit(".");
    let s = p + "."@ + e;
    lemma_last_index_of(s, '.');
    let i = last_index_of(s, '.');
    assert(s[p.len() as int] == '.');
    if i > p.len() {
        assert(s[i] == e[i - p.len() - 1]);
    }
    assert(i == p.len());
    assert(s.skip(i + 1) =~= e);
}

/// A language's canonical name selects that language again.
pub proof fn law_language_names_round_trip(lang: Language)
    ensures
        spec_language_named(spec_language_name(lang)) == Some(lang),
{
    reveal_strlit("rust");
    reveal_strlit("typescript");
    reveal_strlit("ts");
    reveal_strlit("tsx");
    reveal_strlit("python");
    reveal_strlit("py");
    assert("rust"@.len() == 4 && "typescript"@.len() == 10 && "tsx"@.len() == 3);
    assert("ts"@.len() == 2 && "python"@.len() == 6 && "py"@.len() == 2);
    assert("rust"@[0] == 'r' && "tsx"@[0] == 't' && "python"@[0] == 'p');
}

pub proof fn lemma_last_index_of(s: Seq<char>, c: char)
    ensures
        -1 <= last_index_of(s, c) < s.len(),
        last_index_of(s, c) >= 0 ==> s[last_index_of(s, c)] == c,
        forall|j: int| last_index_of(s, c) < j < s.len() ==> s[j] != c,
    decreases s.len(),
{
    if s.len() > 0 && s.last() != c {
        lemma_last_index_of(s.drop_last(), c);
        assert forall|j: int| last_index_of(s, c) < j < s.len() implies s[j] != c by {
            if j < s.len() - 1 {
                assert(s.drop_last()[j] == s[j]);
            }
        }
    }
}

/// The position of the last `c` in a character vector.
pub fn last_index(chars: &Vec<char>, c: char) -> (r: Option<usize>)
    ensures
        match r {
            Some(i) => last_index_of(chars@, c) == i,
            None => last_index_of(chars@, c) == -1,
        },
{
    let mut i: usize = chars.len();
    assert(chars@.take(i as int) == chars@);
    while i > 0
        invariant
            i <= chars.len(),
            last_index_of(chars@, c) == last_index_of(chars@.take(i as int), c),
        decreases i,
    {
        assert(chars@.take(i as int).drop_last() == chars@.take(i - 1));
        if chars[i - 1] == c {
            return Some(i - 1);
        }
        i = i - 1;
    }
    None
}

impl Language {
    /// The language's canonical lowercase name, as consumers pass it.
    pub fn as_str(self) -> (r: &'static str)
        ensures
            r@ == spec_language_name(self),
    {
        match self {
            Language::Rust => "rust",
            Language::TypeScript => "typescript",
            Language::Tsx => "tsx",
            Language::Python => "python",
        }
    }

    /// Parse a consumer-supplied language name.
    pub fn from_name(name: &str) -> (r: Option<Self>)
        ensures
            r == spec_language_named(name@),
    {
        if same_text(name, "rust") {
            Some(Language::Rust)
        } else if same_text(name, "typescript") || same_text(name, "ts") {
            Some(Language::TypeScript)
        } else if same_text(name, "tsx") {
            Some(Language::Tsx)
        } else if same_text(name, "python") || same_text(name, "py") {
            Some(Language::Python)
        } else {
            None
        }
    }

    /// Best-effort language selection from a path's extension.
    ///
    /// Consumers own language selection; this is a convenience for the common
    /// case, not a requirement.
    pub fn from_path(path: &str) -> (r: Option<Self>)
        ensures
            r == spec_language_of_path(path@),
    {
        let chars = chars_of(path);
        let dot = match last_index(&chars, '.') {
            Some(i) => i,
            None => {
                return None;
            },
        };
        proof {
            lemma_last_index_of(chars@, '.');
            assert(last_index_of(chars@, '.') == dot as int);
        }
        assert(dot < chars.len());
        let mut ext: Vec<char> = Vec::new();
        let mut i: usize = dot + 1;
        while i < chars.len()
            invariant
                dot < i <= chars.len(),
                ext@ == chars@.subrange(dot + 1, i as int),
            decreases chars.len() - i,
        {
            ext.push(chars[i]);
            i = i + 1;
        }
        assert(ext@ == path@.skip(dot + 1));
        let ext = crate::text::string_of(&ext);
        let e = ext.as_str();
        if same_text(e, "rs") {
            Some(Language::Rust)
        } else if same_text(e, "ts") || same_text(e, "mts") || same_text(e, "cts") {
            Some(Language::TypeScript)
        } else if same_text(e, "tsx") {
            Some(Language::Tsx)
        } else if same_text(e, "py") || same_text(e, "pyi") {
            Some(Language::Python)
        } else {
            None
        }
    }

    /// The node-kind configuration driving structural extraction.
    pub fn config(self) -> (c: LanguageConfig)
        ensures
            c.describes(self),
    {
        LanguageConfig {
            visibility_style: visibility_style_of(self),
            visibility_nodes: visibility_nodes_of(self),
            visibility_inheriting_nodes: visibility_inheriting_nodes_of(self),
            parameter_list_nodes: parameter_list_nodes_of(self),
            return_type_fields: return_type_fields_of(),
            decls: decls_of(self),
            name_fields: name_fields_of(self),
            comment_nodes: comment_nodes_of(self),
            attribute_nodes: attribute_nodes_of(self),
            string_nodes: string_nodes_of(self),
            import_nodes: import_nodes_of(self),
            import_extensions: import_extensions_of(self),
            import_index_stems: import_index_stems_of(self),
            binding_nodes: binding_nodes_of(self),
            call_nodes: call_nodes_of(self),
            member_nodes: member_nodes_of(self),
            parameter_nodes: parameter_nodes_of(self),
            field_nodes: field_nodes_of(self),
        }
    }
}

/// One declaration form the grammar exposes, and how to treat it.
#[derive(Debug, Clone, Copy, PartialEq, Eq)]
pub struct DeclKind {
    /// The grammar's node kind, e.g. `function_item`.
    pub node: &'static str,
    /// The canonical object type this declaration becomes.
    pub object_type: ObjectType,
    /// The `kind` discriminator carried in node data.
    pub kind: &'static str,
    /// Whether this declaration contributes a `::` segment to the qualified
    /// names of declarations nested inside it.
    pub names_children: bool,
}

/// How a language spells visibility. Classification stays in this table so
/// a new language is added by describing its grammar, never by branching the
/// extraction engine on `Language`.
#[derive(Debug, Clone, Copy, PartialEq, Eq, Structural)]
pub enum VisibilityStyle {
    /// A `visibility_modifier` child whose text is `pub` or `pub(…)`.
    RustModifier,
    /// An enclosing `export_statement`, plus per-member accessibility
    /// modifiers inside a class body.
    TypeScriptExport,
    /// No keyword: the underscore-prefix naming convention.
    PythonUnderscore,
}

/// Per-language configuration. Adding a language means adding one of these.
#[derive(Debug)]
pub struct LanguageConfig {
    /// How this language expresses visibility.
    pub visibility_style: VisibilityStyle,
    /// Grammar node kinds holding an explicit visibility/accessibility
    /// modifier, if the language has one.
    pub visibility_nodes: Vec<&'static str>,
    /// Grammar node kinds that declare a trait-like body whose associated
    /// items inherit the declaration's own visibility.
    pub visibility_inheriting_nodes: Vec<&'static str>,
    /// Grammar node kinds of a callable's parameter list.
    pub parameter_list_nodes: Vec<&'static str>,
    /// Field names holding a declaration's return type, tried in order.
    pub return_type_fields: Vec<&'static str>,
    pub decls: Vec<DeclKind>,
    /// Field names holding a declaration's name, tried in order.
    pub name_fields: Vec<&'static str>,
    /// Grammar node kinds that are comments.
    pub comment_nodes: Vec<&'static str>,
    /// Grammar node kinds that are attributes carrying harvestable text.
    pub attribute_nodes: Vec<&'static str>,
    /// Grammar node kinds that are string literals, never harvested.
    pub string_nodes: Vec<&'static str>,
    /// Grammar node kinds holding an import statement.
    pub import_nodes: Vec<&'static str>,
    /// File extensions tried when resolving an extensionless specifier.
    pub import_extensions: Vec<&'static str>,
    /// Index file stems tried when a specifier names a directory.
    pub import_index_stems: Vec<&'static str>,
    /// Node kinds declaring a local binding (`let`, `const`, assignment).
    pub binding_nodes: Vec<&'static str>,
    /// Node kinds for a call expression.
    pub call_nodes: Vec<&'static str>,
    /// Node kinds for a member/field access used as a call receiver.
    pub member_nodes: Vec<&'static str>,
    /// Node kinds for a callable parameter carrying a declared type.
    pub parameter_nodes: Vec<&'static str>,
    /// Node kinds declaring a field on a type.
    pub field_nodes: Vec<&'static str>,
}

/// The texts of a list of names.
pub open spec fn texts(s: Seq<&'static str>) -> Seq<Seq<char>> {
    s.map_values(|x: &'static str| x@)
}

pub open spec fn spec_visibility_style(lang: Language) -> VisibilityStyle {
    match lang {
        Language::Rust => VisibilityStyle::RustModifier,
        Language::TypeScript | Language::Tsx => VisibilityStyle::TypeScriptExport,
        Language::Python => VisibilityStyle::PythonUnderscore,
    }
}

pub open spec fn spec_visibility_nodes(lang: Language) -> Seq<Seq<char>> {
    match lang {
        Language::Rust => seq!["visibility_modifier"@],
        Language::TypeScript | Language::Tsx => seq!["accessibility_modifier"@],
        Language::Python => seq![],
    }
}

pub open spec fn spec_visibility_inheriting_nodes(lang: Language) -> Seq<Seq<char>> {
    match lang {
        Language::Rust => seq!["trait_item"@],
        Language::TypeScript | Language::Tsx => seq!["interface_declaration"@],
        Language::Python => seq![],
    }
}

pub open spec fn spec_parameter_list_nodes(lang: Language) -> Seq<Seq<char>> {
    match lang {
        Language::TypeScript | Language::Tsx => seq!["formal_parameters"@],
        _ => seq!["parameters"@],
    }
}

/// A declaration form as text: node kind, object type, kind, names children.
pub open spec fn decl_text(d: DeclKind) -> (Seq<char>, ObjectType, Seq<char>, bool) {
    (d.node@, d.object_type, d.kind@, d.names_children)
}

pub open spec fn spec_decls(lang: Language) -> Seq<(Seq<char>, ObjectType, Seq<char>, bool)> {
    match lang {
        Language::Rust => seq![
            ("mod_item"@, ObjectType::Module, "module"@, true),
            ("function_item"@, ObjectType::Function, "function"@, true),
            ("function_signature_item"@, ObjectType::Function, "function"@, true),
            ("struct_item"@, ObjectType::Type, "struct"@, true),
            ("enum_item"@, ObjectType::Type, "enum"@, true),
            ("trait_item"@, ObjectType::Type, "trait"@, true),
            ("type_item"@, ObjectType::Type, "type_alias"@, false),
            ("union_item"@, ObjectType::Type, "union"@, true),
        ],
        Language::TypeScript | Language::Tsx => seq![
            ("internal_module"@, ObjectType::Module, "namespace"@, true),
            ("module"@, ObjectType::Module, "namespace"@, true),
            ("function_declaration"@, ObjectType::Function, "function"@, true),
            ("generator_function_declaration"@, ObjectType::Function, "generator_function"@, true),
            ("method_definition"@, ObjectType::Function, "method"@, true),
            ("class_declaration"@, ObjectType::Type, "class"@, true),
            ("abstract_class_declaration"@, ObjectType::Type, "class"@, true),
            ("interface_declaration"@, ObjectType::Type, "interface"@, true),
            ("enum_declaration"@, ObjectType::Type, "enum"@, true),
            ("type_alias_declaration"@, ObjectType::Type, "type_alias"@, false),
        ],
        Language::Python => seq![
            ("function_definition"@, ObjectType::Function, "function"@, true),
            ("class_definition"@, ObjectType::Type, "class"@, true),
        ],
    }
}

pub open spec fn spec_name_fields(lang: Language) -> Seq<Seq<char>> {
    match lang {
        Language::Rust => seq!["name"@, "type"@],
        _ => seq!["name"@],
    }
}

pub open spec fn spec_comment_nodes(lang: Language) -> Seq<Seq<char>> {
    match lang {
        Language::Rust => seq!["line_comment"@, "block_comment"@, "doc_comment"@],
        _ => seq!["comment"@],
    }
}

pub open spec fn spec_attribute_nodes(lang: Language) -> Seq<Seq<char>> {
    match lang {
        Language::Rust => seq!["attribute_item"@, "inner_attribute_item"@],
        _ => seq!["decorator"@],
    }
}

pub open spec fn spec_string_nodes(lang: Language) -> Seq<Seq<char>> {
    match lang {
        Language::Rust => seq!["string_literal"@, "raw_string_literal"@, "char_literal"@],
        Language::TypeScript | Language::Tsx => seq!["string"@, "template_string"@],
        Language::Python => seq!["string"@],
    }
}

pub open spec fn spec_import_nodes(lang: Language) -> Seq<Seq<char>> {
    match lang {
        Language::Rust => seq!["use_declaration"@],
        Language::TypeScript | Language::Tsx => seq!["import_statement"@, "export_statement"@],
        Language::Python => seq!["import_statement"@, "import_from_statement"@],
    }
}

pub open spec fn spec_import_extensions(lang: Language) -> Seq<Seq<char>> {
    match lang {
        Language::Rust => seq!["rs"@],
        Language::TypeScript | Language::Tsx => seq!["ts"@, "tsx"@, "d.ts"@, "js"@, "jsx"@],
        Language::Python => seq!["py"@, "pyi"@],
    }
}

pub open spec fn spec_import_index_stems(lang: Language) -> Seq<Seq<char>> {
    match lang {
        Language::Rust => seq!["mod"@],
        Language::TypeScript | Language::Tsx => seq!["index"@],
        Language::Python => seq!["__init__"@],
    }
}

pub open spec fn spec_binding_nodes(lang: Language) -> Seq<Seq<char>> {
    match lang {
        Language::Rust => seq!["let_declaration"@, "const_item"@, "static_item"@],
        Language::TypeScript | Language::Tsx => seq![
            "variable_declarator"@,
            "lexical_declaration"@,
            "public_field_definition"@,
        ],
        Language::Python => seq!["assignment"@],
    }
}

pub open spec fn spec_call_nodes(lang: Language) -> Seq<Seq<char>> {
    match lang {
        Language::Rust => seq!["call_expression"@],
        Language::TypeScript | Language::Tsx => seq!["call_expression"@, "new_expression"@],
        Language::Python => seq!["call"@],
    }
}

pub open spec fn spec_member_nodes(lang: Language) -> Seq<Seq<char>> {
    match lang {
        Language::Rust => seq!["field_expression"@],
        Language::TypeScript | Language::Tsx => seq!["member_expression"@],
        Language::Python => seq!["attribute"@],
    }
}

pub open spec fn spec_parameter_nodes(lang: Language) -> Seq<Seq<char>> {
    match lang {
        Language::Rust => seq!["parameter"@, "self_parameter"@],
        Language::TypeScript | Language::Tsx => seq!["required_parameter"@, "optional_parameter"@],
        Language::Python => seq!["typed_parameter"@, "identifier"@],
    }
}

pub open spec fn spec_field_nodes(lang: Language) -> Seq<Seq<char>> {
    match lang {
        Language::Rust => seq!["field_declaration"@],
        Language::TypeScript | Language::Tsx => seq!["property_signature"@, "public_field_definition"@],
        Language::Python => seq!["assignment"@],
    }
}

impl LanguageConfig {
    /// This configuration is the one `lang` is described by.
    pub open spec fn describes(&self, lang: Language) -> bool {
        &&& self.visibility_style == spec_visibility_style(lang)
        &&& texts(self.visibility_nodes@) == spec_visibility_nodes(lang)
        &&& texts(self.visibility_inheriting_nodes@) == spec_visibility_inheriting_nodes(lang)
        &&& texts(self.parameter_list_nodes@) == spec_parameter_list_nodes(lang)
        &&& texts(self.return_type_fields@) == seq!["return_type"@]
        &&& self.decls@.map_values(|d: DeclKind| decl_text(d)) == spec_decls(lang)
        &&& texts(self.name_fields@) == spec_name_fields(lang)
        &&& texts(self.comment_nodes@) == spec_comment_nodes(lang)
        &&& texts(self.attribute_nodes@) == spec_attribute_nodes(lang)
        &&& texts(self.string_nodes@) == spec_string_nodes(lang)
        &&& texts(self.import_nodes@) == spec_import_nodes(lang)
        &&& texts(self.import_extensions@) == spec_import_extensions(lang)
        &&& texts(self.import_index_stems@) == spec_import_index_stems(lang)
        &&& texts(self.binding_nodes@) == spec_binding_nodes(lang)
        &&& texts(self.call_nodes@) == spec_call_nodes(lang)
        &&& texts(self.member_nodes@) == spec_member_nodes(lang)
        &&& texts(self.parameter_nodes@) == spec_parameter_nodes(lang)
        &&& texts(self.field_nodes@) == spec_field_nodes(lang)
    }

    /// The declaration form for a grammar node kind, if it is one: the first
    /// whose node kind matches.
    pub fn decl_for(&self, node_kind: &str) -> (r: Option<DeclKind>)
        ensures
            match r {
                Some(d) => exists|i: int|
                    0 <= i < self.decls.len() && self.decls[i] == d && d.node@ == node_kind@ && forall|j: int|
                        0 <= j < i ==> (#[trigger] self.decls[j]).node@ != node_kind@,
                None => forall|i: int| 0 <= i < self.decls.len() ==> (#[trigger] self.decls[i]).node@ != node_kind@,
            },
            r == first_decl(self.decls@, node_kind@),
    {
        let mut i: usize = 0;
        while i < self.decls.len()
            invariant
                i <= self.decls.len(),
                forall|j: int| 0 <= j < i ==> (#[trigger] self.decls[j]).node@ != node_kind@,
                first_decl(self.decls@, node_kind@) == first_decl_from(self.decls@, node_kind@, i as nat),
            decreases self.decls.len() - i,
        {
            if same_text(self.decls[i].node, node_kind) {
                return Some(self.decls[i]);
            }
            i = i + 1;
        }
        None
    }

    pub fn is_comment(&self, node_kind: &str) -> (r: bool)
        ensures
            r == texts(self.comment_nodes@).contains(node_kind@),
    {
        holds(&self.comment_nodes, node_kind)
    }

    pub fn is_attribute(&self, node_kind: &str) -> (r: bool)
        ensures
            r == texts(self.attribute_nodes@).contains(node_kind@),
    {
        holds(&self.attribute_nodes, node_kind)
    }

    pub fn is_string(&self, node_kind: &str) -> (r: bool)
        ensures
            r == texts(self.string_nodes@).contains(node_kind@),
    {
        holds(&self.string_nodes, node_kind)
    }

    pub fn is_import(&self, node_kind: &str) -> (r: bool)
        ensures
            r == texts(self.import_nodes@).contains(node_kind@),
    {
        holds(&self.import_nodes, node_kind)
    }
}

/// The first declaration form, from the `i`-th on, for a grammar node kind.
pub open spec fn first_decl_from(decls: Seq<DeclKind>, kind: Seq<char>, i: nat) -> Option<DeclKind>
    decreases decls.len() - i,
{
    if i >= decls.len() {
        None
    } else if decls[i as int].node@ == kind {
        Some(decls[i as int])
    } else {
        first_decl_from(decls, kind, i + 1)
    }
}

/// The first declaration form for a grammar node kind.
pub open spec fn first_decl(decls: Seq<DeclKind>, kind: Seq<char>) -> Option<DeclKind> {
    first_decl_from(decls, kind, 0)
}

/// Whether a list of names holds `x`.
pub fn holds(list: &Vec<&'static str>, x: &str) -> (r: bool)
    ensures
        r == texts(list@).contains(x@),
{
    let mut i: usize = 0;
    while i < list.len()
        invariant
            i <= list.len(),
            forall|j: int| 0 <= j < i ==> #[trigger] list[j]@ != x@,
        decreases list.len() - i,
    {
        if same_text(list[i], x) {
            assert(texts(list@)[i as int] == x@);
            return true;
        }
        i = i + 1;
    }
    proof {
        if texts(list@).contains(x@) {
            let j = choose|j: int| 0 <= j < texts(list@).len() && texts(list@)[j] == x@;
            assert(list[j]@ == x@);
        }
    }
    false
}

fn visibility_style_of(lang: Language) -> (r: VisibilityStyle)
    ensures
        r == spec_visibility_style(lang),
{
    match lang {
        Language::Rust => VisibilityStyle::RustModifier,
        Language::TypeScript | Language::Tsx => VisibilityStyle::TypeScriptExport,
        Language::Python => VisibilityStyle::PythonUnderscore,
    }
}

fn visibility_nodes_of(lang: Language) -> (r: Vec<&'static str>)
    ensures
        texts(r@) == spec_visibility_nodes(lang),
{
    let r = match lang {
        Language::Rust => vec!["visibility_modifier"],
        Language::TypeScript | Language::Tsx => vec!["accessibility_modifier"],
        Language::Python => vec![],
    };
    assert(texts(r@) =~= spec_visibility_nodes(lang));
    r
}

fn visibility_inheriting_nodes_of(lang: Language) -> (r: Vec<&'static str>)
    ensures
        texts(r@) == spec_visibility_inheriting_nodes(lang),
{
    let r = match lang {
        Language::Rust => vec!["trait_item"],
        Language::TypeScript | Language::Tsx => vec!["interface_declaration"],
        Language::Python => vec![],
    };
    assert(texts(r@) =~= spec_visibility_inheriting_nodes(lang));
    r
}

fn parameter_list_nodes_of(lang: Language) -> (r: Vec<&'static str>)
    ensures
        texts(r@) == spec_parameter_list_nodes(lang),
{
    let r = match lang {
        Language::TypeScript | Language::Tsx => vec!["formal_parameters"],
        _ => vec!["parameters"],
    };
    assert(texts(r@) =~= spec_parameter_list_nodes(lang));
    r
}

fn return_type_fields_of() -> (r: Vec<&'static str>)
    ensures
        texts(r@) == seq!["return_type"@],
{
    let r = vec!["return_type"];
    assert(texts(r@) =~= seq!["return_type"@]);
    r
}

fn decls_of(lang: Language) -> (r: Vec<DeclKind>)
    ensures
        r@.map_values(|d: DeclKind| decl_text(d)) == spec_decls(lang),
{
    let r = match lang {
        Language::Rust => vec![
            DeclKind { node: "mod_item", object_type: ObjectType::Module, kind: "module", names_children: true },
            DeclKind { node: "function_item", object_type: ObjectType::Function, kind: "function", names_children: true },
            DeclKind {
                node: "function_signature_item",
                object_type: ObjectType::Function,
                kind: "function",
                names_children: true,
            },
            DeclKind { node: "struct_item", object_type: ObjectType::Type, kind: "struct", names_children: true },
            DeclKind { node: "enum_item", object_type: ObjectType::Type, kind: "enum", names_children: true },
            DeclKind { node: "trait_item", object_type: ObjectType::Type, kind: "trait", names_children: true },
            DeclKind { node: "type_item", object_type: ObjectType::Type, kind: "type_alias", names_children: false },
            DeclKind { node: "union_item", object_type: ObjectType::Type, kind: "union", names_children: true },
        ],
        Language::TypeScript | Language::Tsx => vec![
            DeclKind { node: "internal_module", object_type: ObjectType::Module, kind: "namespace", names_children: true },
            DeclKind { node: "module", object_type: ObjectType::Module, kind: "namespace", names_children: true },
            DeclKind { node: "function_declaration", object_type: ObjectType::Function, kind: "function", names_children: true },
            DeclKind {
                node: "generator_function_declaration",
                object_type: ObjectType::Function,
                kind: "generator_function",
                names_children: true,
            },
            DeclKind { node: "method_definition", object_type: ObjectType::Function, kind: "method", names_children: true },
            DeclKind { node: "class_declaration", object_type: ObjectType::Type, kind: "class", names_children: true },
            DeclKind { node: "abstract_class_declaration", object_type: ObjectType::Type, kind: "class", names_children: true },
            DeclKind { node: "interface_declaration", object_type: ObjectType::Type, kind: "interface", names_children: true },
            DeclKind { node: "enum_declaration", object_type: ObjectType::Type, kind: "enum", names_children: true },
            DeclKind { node: "type_alias_declaration", object_type: ObjectType::Type, kind: "type_alias", names_children: false },
        ],
        Language::Python => vec![
            DeclKind { node: "function_definition", object_type: ObjectType::Function, kind: "function", names_children: true },
            DeclKind { node: "class_definition", object_type: ObjectType::Type, kind: "class", names_children: true },
        ],
    };
    assert(r@.map_values(|d: DeclKind| decl_text(d)) =~= spec_decls(lang));
    r
}

fn name_fields_of(lang: Language) -> (r: Vec<&'static str>)
    ensures
        texts(r@) == spec_name_fields(lang),
{
    let r = match lang {
        Language::Rust => vec!["name", "type"],
        _ => vec!["name"],
    };
    assert(texts(r@) =~= spec_name_fields(lang));
    r
}

fn comment_nodes_of(lang: Language) -> (r: Vec<&'static str>)
    ensures
        texts(r@) == spec_comment_nodes(lang),
{
    let r = match lang {
        Language::Rust => vec!["line_comment", "block_comment", "doc_comment"],
        _ => vec!["comment"],
    };
    assert(texts(r@) =~= spec_comment_nodes(lang));
    r
}

fn attribute_nodes_of(lang: Language) -> (r: Vec<&'static str>)
    ensures
        texts(r@) == spec_attribute_nodes(lang),
{
    let r = match lang {
        Language::Rust => vec!["attribute_item", "inner_attribute_item"],
        _ => vec!["decorator"],
    };
    assert(texts(r@) =~= spec_attribute_nodes(lang));
    r
}

fn string_nodes_of(lang: Language) -> (r: Vec<&'static str>)
    ensures
        texts(r@) == spec_string_nodes(lang),
{
    let r = match lang {
        Language::Rust => vec!["string_literal", "raw_string_literal", "char_literal"],
        Language::TypeScript | Language::Tsx => vec!["string", "template_string"],
        Language::Python => vec!["string"],
    };
    assert(texts(r@) =~= spec_string_nodes(lang));
    r
}

fn import_nodes_of(lang: Language) -> (r: Vec<&'static str>)
    ensures
        texts(r@) == spec_import_nodes(lang),
{
    let r = match lang {
        Language::Rust => vec!["use_declaration"],
        Language::TypeScript | Language::Tsx => vec!["import_statement", "export_statement"],
        Language::Python => vec!["import_statement", "import_from_statement"],
    };
    assert(texts(r@) =~= spec_import_nodes(lang));
    r
}

fn import_extensions_of(lang: Language) -> (r: Vec<&'static str>)
    ensures
        texts(r@) == spec_import_extensions(lang),
{
    let r = match lang {
        Language::Rust => vec!["rs"],
        Language::TypeScript | Language::Tsx => vec!["ts", "tsx", "d.ts", "js", "jsx"],
        Language::Python => vec!["py", "pyi"],
    };
    assert(texts(r@) =~= spec_import_extensions(lang));
    r
}

fn import_index_stems_of(lang: Language) -> (r: Vec<&'static str>)
    ensures
        texts(r@) == spec_import_index_stems(lang),
{
    let r = match lang {
        Language::Rust => vec!["mod"],
        Language::TypeScript | Language::Tsx => vec!["index"],
        Language::Python => vec!["__init__"],
    };
    assert(texts(r@) =~= spec_import_index_stems(lang));
    r
}

fn binding_nodes_of(lang: Language) -> (r: Vec<&'static str>)
    ensures
        texts(r@) == spec_binding_nodes(lang),
{
    let r = match lang {
        Language::Rust => vec!["let_declaration", "const_item", "static_item"],
        Language::TypeScript | Language::Tsx => vec![
            "variable_declarator",
            "lexical_declaration",
            "public_field_definition",
        ],
        Language::Python => vec!["assignment"],
    };
    assert(texts(r@) =~= spec_binding_nodes(lang));
    r
}

fn call_nodes_of(lang: Language) -> (r: Vec<&'static str>)
    ensures
        texts(r@) == spec_call_nodes(lang),
{
    let r = match lang {
        Language::Rust => vec!["call_expression"],
        Language::TypeScript | Language::Tsx => vec!["call_expression", "new_expression"],
        Language::Python => vec!["call"],
    };
    assert(texts(r@) =~= spec_call_nodes(lang));
    r
}

fn member_nodes_of(lang: Language) -> (r: Vec<&'static str>)
    ensures
        texts(r@) == spec_member_nodes(lang),
{
    let r = match lang {
        Language::Rust => vec!["field_expression"],
        Language::TypeScript | Language::Tsx => vec!["member_expression"],
        Language::Python => vec!["attribute"],
    };
    assert(texts(r@) =~= spec_member_nodes(lang));
    r
}

fn parameter_nodes_of(lang: Language) -> (r: Vec<&'static str>)
    ensures
        texts(r@) == spec_parameter_nodes(lang),
{
    let r = match lang {
        Language::Rust => vec!["parameter", "self_parameter"],
        Language::TypeScript | Language::Tsx => vec!["required_parameter", "optional_parameter"],
        Language::Python => vec!["typed_parameter", "identifier"],
    };
    assert(texts(r@) =~= spec_parameter_nodes(lang));
    r
}

fn field_nodes_of(lang: Language) -> (r: Vec<&'static str>)
    ensures
        texts(r@) == spec_field_nodes(lang),
{
    let r = match lang {
        Language::Rust => vec!["field_declaration"],
        Language::TypeScript | Language::Tsx => vec!["property_signature", "public_field_definition"],
        Language::Python => vec!["assignment"],
    };
    assert(texts(r@) =~= spec_field_nodes(lang));
    r
}

} // verus!
