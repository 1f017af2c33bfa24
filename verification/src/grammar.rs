//! The supported languages and their grammars, and for each language the
//! table that sorts the kinds of its syntax nodes into language-independent
//! classes.

use crate::error::PrismError;
use vstd::prelude::*;
use vstd::string::*;

verus! {

/// The language-independent class of a syntax node.
#[derive(Debug, Clone, Copy, PartialEq, Eq)]
pub enum NodeClass {
    FunctionLike,
    ClassLike,
    ImportLike,
    Other,
}

/// A supported language.
#[derive(Debug, Clone, Copy, PartialEq, Eq)]
pub enum LanguageId {
    TypeScript,
    JavaScript,
    Python,
    Rust,
    Go,
    Java,
}

/// Whether two texts hold the same characters.
pub fn same_text(a: &str, b: &str) -> (r: bool)
    ensures
        r == (a@ == b@),
{
    let x = String::from_str(a);
    let y = String::from_str(b);
    x == y
}

impl LanguageId {
    /// The identifier by which a language is asked for.
    pub open spec fn spec_name(self) -> Seq<char> {
        match self {
            LanguageId::TypeScript => "typescript"@,
            LanguageId::JavaScript => "javascript"@,
            LanguageId::Python => "python"@,
            LanguageId::Rust => "rust"@,
            LanguageId::Go => "go"@,
            LanguageId::Java => "java"@,
        }
    }

    /// The language that an identifier names, if it names one.
    pub open spec fn spec_parse(name: Seq<char>) -> Option<LanguageId> {
        if name == "typescript"@ {
            Some(LanguageId::TypeScript)
        } else if name == "javascript"@ {
            Some(LanguageId::JavaScript)
        } else if name == "python"@ {
            Some(LanguageId::Python)
        } else if name == "rust"@ {
            Some(LanguageId::Rust)
        } else if name == "go"@ {
            Some(LanguageId::Go)
        } else if name == "java"@ {
            Some(LanguageId::Java)
        } else {
            None
        }
    }

    /// The identifier by which a language is asked for.
    pub fn name(self) -> (r: &'static str)
        ensures
            r@ == self.spec_name(),
    {
        match self {
            LanguageId::TypeScript => "typescript",
            LanguageId::JavaScript => "javascript",
            LanguageId::Python => "python",
            LanguageId::Rust => "rust",
            LanguageId::Go => "go",
            LanguageId::Java => "java",
        }
    }

    /// Finds the language that an identifier names. Only the six exact
    /// identifiers are known.
    pub fn parse(name: &str) -> (r: Option<LanguageId>)
        ensures
            r == Self::spec_parse(name@),
    {
        if same_text(name, "typescript") {
            Some(LanguageId::TypeScript)
        } else if same_text(name, "javascript") {
            Some(LanguageId::JavaScript)
        } else if same_text(name, "python") {
            Some(LanguageId::Python)
        } else if same_text(name, "rust") {
            Some(LanguageId::Rust)
        } else if same_text(name, "go") {
            Some(LanguageId::Go)
        } else if same_text(name, "java") {
            Some(LanguageId::Java)
        } else {
            None
        }
    }
}

/// Every language has an identifier of its own, and `spec_parse` finds each
/// language from its identifier.
pub proof fn lemma_language_names(id: LanguageId)
    ensures
        LanguageId::spec_parse(id.spec_name()) == Some(id),
{
    reveal_strlit("typescript");
    reveal_strlit("javascript");
    reveal_strlit("python");
    reveal_strlit("rust");
    reveal_strlit("go");
    reveal_strlit("java");
    let t = "typescript"@;
    let j = "javascript"@;
    let p = "python"@;
    let r = "rust"@;
    let g = "go"@;
    let v = "java"@;
    assert(t[0] == 't' && j[0] == 'j' && p[0] == 'p' && r[0] == 'r' && g[0] == 'g' && v[0]
        == 'j');
    assert(j.len() == 10 && v.len() == 4);
}

/// The identifiers of the supported languages, in a fixed order.
pub open spec fn spec_supported_languages() -> Seq<Seq<char>> {
    seq!["typescript"@, "javascript"@, "python"@, "rust"@, "go"@, "java"@]
}

/// The characters of each label of a list.
pub open spec fn labels_model(v: Seq<String>) -> Seq<Seq<char>> {
    Seq::new(v.len(), |i: int| v[i]@)
}

/// The identifiers of the supported languages, in a fixed order.
pub fn get_supported_languages() -> (r: Vec<String>)
    ensures
        labels_model(r@) == spec_supported_languages(),
{
    let mut r: Vec<String> = Vec::new();
    r.push(String::from_str("typescript"));
    r.push(String::from_str("javascript"));
    r.push(String::from_str("python"));
    r.push(String::from_str("rust"));
    r.push(String::from_str("go"));
    r.push(String::from_str("java"));
    assert(labels_model(r@) =~= spec_supported_languages());
    r
}

/// What a classification table holds: the kinds of each class, and the
/// labels by which the parts of a function, class or import are found.
pub struct TableModel {
    pub function_kinds: Seq<Seq<char>>,
    pub class_kinds: Seq<Seq<char>>,
    pub import_kinds: Seq<Seq<char>>,
    pub name: Seq<char>,
    pub parameters: Seq<char>,
    pub body: Seq<char>,
    pub return_type: Seq<char>,
    pub parameter_name: Seq<char>,
    pub name_kinds: Seq<Seq<char>>,
    pub type_name_kinds: Seq<Seq<char>>,
    pub superclass: Seq<Seq<char>>,
    pub interfaces: Seq<Seq<char>>,
    pub interface_list: Seq<Seq<char>>,
    pub async_marker: Seq<Seq<char>>,
    pub export_marker: Seq<Seq<char>>,
    pub import_source: Seq<Seq<char>>,
    pub import_name: Seq<char>,
    pub type_only_marker: Seq<char>,
}

/// The classification table of one language. A label picks a node by the
/// name of the field that holds it, or by its kind; a list of labels picks
/// what any of them picks.
#[derive(Debug, Clone)]
pub struct ClassificationTable {
    pub function_kinds: Vec<String>,
    pub class_kinds: Vec<String>,
    pub import_kinds: Vec<String>,
    /// Picks, among the children of a function or class, its name.
    pub name: String,
    /// Picks, among the children of a function, its parameter list.
    pub parameters: String,
    /// Picks, among the children of a function or class, its body.
    pub body: String,
    /// Picks, among the children of a function, its return type.
    pub return_type: String,
    /// Picks, among the children of one parameter, what it declares.
    pub parameter_name: String,
    /// Pick the nodes that are the names of parameters.
    pub name_kinds: Vec<String>,
    /// Pick the nodes that are the names of types. Where the list is empty,
    /// a type is named by its whole text.
    pub type_name_kinds: Vec<String>,
    /// Pick, in the head of a class, the clause that says what it extends.
    pub superclass: Vec<String>,
    /// Pick, in the head of a class, the clause that says what it implements.
    pub interfaces: Vec<String>,
    /// Pick, within that clause, the list of the interfaces, where the
    /// clause is not itself the list.
    pub interface_list: Vec<String>,
    /// Pick, in the head of a function, the mark of an asynchronous function.
    pub async_marker: Vec<String>,
    /// Pick the mark of an exported function: in the head of the function,
    /// or the node that holds the function.
    pub export_marker: Vec<String>,
    /// Pick, within an import, the module that it names.
    pub import_source: Vec<String>,
    /// Picks, anywhere within an import, the names that it brings in.
    pub import_name: String,
    /// Picks, among the children of an import, the mark of an import of
    /// types only.
    pub type_only_marker: String,
}

impl View for ClassificationTable {
    type V = TableModel;

    open spec fn view(&self) -> TableModel {
        TableModel {
            function_kinds: labels_model(self.function_kinds@),
            class_kinds: labels_model(self.class_kinds@),
            import_kinds: labels_model(self.import_kinds@),
            name: self.name@,
            parameters: self.parameters@,
            body: self.body@,
            return_type: self.return_type@,
            parameter_name: self.parameter_name@,
            name_kinds: labels_model(self.name_kinds@),
            type_name_kinds: labels_model(self.type_name_kinds@),
            superclass: labels_model(self.superclass@),
            interfaces: labels_model(self.interfaces@),
            interface_list: labels_model(self.interface_list@),
            async_marker: labels_model(self.async_marker@),
            export_marker: labels_model(self.export_marker@),
            import_source: labels_model(self.import_source@),
            import_name: self.import_name@,
            type_only_marker: self.type_only_marker@,
        }
    }
}

impl TableModel {
    /// The class of a kind of node: the first of function-like, class-like
    /// and import-like whose list holds the kind, else `Other`.
    pub open spec fn classify(self, kind: Seq<char>) -> NodeClass {
        if self.function_kinds.contains(kind) {
            NodeClass::FunctionLike
        } else if self.class_kinds.contains(kind) {
            NodeClass::ClassLike
        } else if self.import_kinds.contains(kind) {
            NodeClass::ImportLike
        } else {
            NodeClass::Other
        }
    }
}

/// Whether a list of labels holds a label.
pub fn holds_label(list: &Vec<String>, label: &String) -> (r: bool)
    ensures
        r == labels_model(list@).contains(label@),
{
    let mut i: usize = 0;
    while i < list.len()
        invariant
            i <= list.len(),
            forall|k: int| 0 <= k < i ==> labels_model(list@)[k] != label@,
        decreases list.len() - i,
    {
        if list[i] == *label {
            assert(labels_model(list@)[i as int] == label@);
            return true;
        }
        i = i + 1;
    }
    false
}

impl ClassificationTable {
    /// The class of a kind of node.
    pub fn classify(&self, kind: &String) -> (r: NodeClass)
        ensures
            r == self@.classify(kind@),
    {
        if holds_label(&self.function_kinds, kind) {
            NodeClass::FunctionLike
        } else if holds_label(&self.class_kinds, kind) {
            NodeClass::ClassLike
        } else if holds_label(&self.import_kinds, kind) {
            NodeClass::ImportLike
        } else {
            NodeClass::Other
        }
    }
}

/// The kinds of function-like nodes of a language.
pub open spec fn spec_function_kinds(id: LanguageId) -> Seq<Seq<char>> {
    match id {
        LanguageId::TypeScript => seq![
            "function_declaration"@,
            "generator_function_declaration"@,
            "method_definition"@,
            "function_expression"@,
            "generator_function"@,
            "arrow_function"@,
            "function_signature"@,
            "method_signature"@,
            "abstract_method_signature"@,
        ],
        LanguageId::JavaScript => seq![
            "function_declaration"@,
            "generator_function_declaration"@,
            "method_definition"@,
            "function_expression"@,
            "generator_function"@,
            "arrow_function"@,
        ],
        LanguageId::Python => seq!["function_definition"@],
        LanguageId::Rust => seq!["function_item"@, "function_signature_item"@],
        LanguageId::Go => seq!["function_declaration"@, "method_declaration"@],
        LanguageId::Java => seq!["method_declaration"@, "constructor_declaration"@],
    }
}

/// The kinds of class-like nodes of a language.
pub open spec fn spec_class_kinds(id: LanguageId) -> Seq<Seq<char>> {
    match id {
        LanguageId::TypeScript => seq![
            "class_declaration"@,
            "abstract_class_declaration"@,
            "interface_declaration"@,
        ],
        LanguageId::JavaScript => seq!["class_declaration"@],
        LanguageId::Python => seq!["class_definition"@],
        LanguageId::Rust => seq!["struct_item"@, "enum_item"@, "trait_item"@, "impl_item"@],
        LanguageId::Go => seq!["type_spec"@],
        LanguageId::Java => seq![
            "class_declaration"@,
            "interface_declaration"@,
            "enum_declaration"@,
            "record_declaration"@,
        ],
    }
}

/// The kinds of import-like nodes of a language.
pub open spec fn spec_import_kinds(id: LanguageId) -> Seq<Seq<char>> {
    match id {
        LanguageId::TypeScript => seq!["import_statement"@],
        LanguageId::JavaScript => seq!["import_statement"@],
        LanguageId::Python => seq![
            "import_statement"@,
            "import_from_statement"@,
            "future_import_statement"@,
        ],
        LanguageId::Rust => seq!["use_declaration"@],
        LanguageId::Go => seq!["import_spec"@],
        LanguageId::Java => seq!["import_declaration"@],
    }
}

/// The classification table of a language.
pub open spec fn spec_table(id: LanguageId) -> TableModel {
    TableModel {
        function_kinds: spec_function_kinds(id),
        class_kinds: spec_class_kinds(id),
        import_kinds: spec_import_kinds(id),
        name: "name"@,
        parameters: "parameters"@,
        body: "body"@,
        return_type: match id {
            LanguageId::Go => "result"@,
            LanguageId::Java => "type"@,
            _ => "return_type"@,
        },
        parameter_name: match id {
            LanguageId::JavaScript => "left"@,
            LanguageId::TypeScript => "pattern"@,
            LanguageId::Rust => "pattern"@,
            _ => "name"@,
        },
        name_kinds: match id {
            LanguageId::Rust => seq!["identifier"@, "self"@],
            _ => seq!["identifier"@],
        },
        type_name_kinds: match id {
            LanguageId::TypeScript => seq!["type_identifier"@],
            LanguageId::Rust => seq!["type_identifier"@],
            LanguageId::Java => seq!["type_identifier"@],
            _ => seq![],
        },
        superclass: match id {
            LanguageId::TypeScript => seq!["extends_clause"@, "extends_type_clause"@],
            LanguageId::JavaScript => seq!["class_heritage"@],
            LanguageId::Python => seq!["superclasses"@],
            LanguageId::Rust => seq!["bounds"@],
            LanguageId::Go => seq![],
            LanguageId::Java => seq!["superclass"@, "extends_interfaces"@],
        },
        interfaces: match id {
            LanguageId::TypeScript => seq!["implements_clause"@],
            LanguageId::Java => seq!["interfaces"@],
            _ => seq![],
        },
        interface_list: match id {
            LanguageId::Java => seq!["type_list"@],
            _ => seq![],
        },
        async_marker: match id {
            LanguageId::Go => seq![],
            LanguageId::Java => seq![],
            _ => seq!["async"@],
        },
        export_marker: match id {
            LanguageId::TypeScript => seq!["export_statement"@],
            LanguageId::JavaScript => seq!["export_statement"@],
            LanguageId::Rust => seq!["visibility_modifier"@],
            LanguageId::Java => seq!["public"@],
            _ => seq![],
        },
        import_source: match id {
            LanguageId::Python => seq!["module_name"@, "dotted_name"@],
            LanguageId::Rust => seq!["argument"@],
            LanguageId::Go => seq!["path"@],
            LanguageId::Java => seq!["scoped_identifier"@, "identifier"@],
            _ => seq!["source"@],
        },
        import_name: match id {
            LanguageId::Go => "package_identifier"@,
            _ => "identifier"@,
        },
        type_only_marker: "type"@,
    }
}

fn no_labels() -> (r: Vec<String>)
    ensures
        labels_model(r@) == Seq::<Seq<char>>::empty(),
{
    let r: Vec<String> = Vec::new();
    assert(labels_model(r@) =~= Seq::<Seq<char>>::empty());
    r
}

fn one_label(a: &str) -> (r: Vec<String>)
    ensures
        labels_model(r@) == seq![a@],
{
    let mut r: Vec<String> = Vec::new();
    r.push(String::from_str(a));
    assert(labels_model(r@) =~= seq![a@]);
    r
}

fn two_labels(a: &str, b: &str) -> (r: Vec<String>)
    ensures
        labels_model(r@) == seq![a@, b@],
{
    let mut r: Vec<String> = Vec::new();
    r.push(String::from_str(a));
    r.push(String::from_str(b));
    assert(labels_model(r@) =~= seq![a@, b@]);
    r
}

fn labels(names: &[&str]) -> (r: Vec<String>)
    ensures
        r@.len() == names@.len(),
        forall|i: int| 0 <= i < names@.len() ==> (#[trigger] r@[i])@ == names@[i]@,
{
    let mut r: Vec<String> = Vec::new();
    let mut i: usize = 0;
    while i < names.len()
        invariant
            i <= names@.len(),
            r@.len() == i,
            forall|k: int| 0 <= k < i ==> (#[trigger] r@[k])@ == names@[k]@,
        decreases names@.len() - i,
    {
        r.push(String::from_str(names[i]));
        i = i + 1;
    }
    r
}

fn function_kinds(id: LanguageId) -> (r: Vec<String>)
    ensures
        labels_model(r@) == spec_function_kinds(id),
{
    let r = match id {
        LanguageId::TypeScript => labels(
            &[
                "function_declaration",
                "generator_function_declaration",
                "method_definition",
                "function_expression",
                "generator_function",
                "arrow_function",
                "function_signature",
                "method_signature",
                "abstract_method_signature",
            ],
        ),
        LanguageId::JavaScript => labels(
            &[
                "function_declaration",
                "generator_function_declaration",
                "method_definition",
                "function_expression",
                "generator_function",
                "arrow_function",
            ],
        ),
        LanguageId::Python => labels(&["function_definition"]),
        LanguageId::Rust => labels(&["function_item", "function_signature_item"]),
        LanguageId::Go => labels(&["function_declaration", "method_declaration"]),
        LanguageId::Java => labels(&["method_declaration", "constructor_declaration"]),
    };
    assert(labels_model(r@) =~= spec_function_kinds(id));
    r
}

fn class_kinds(id: LanguageId) -> (r: Vec<String>)
    ensures
        labels_model(r@) == spec_class_kinds(id),
{
    let r = match id {
        LanguageId::TypeScript => labels(
            &["class_declaration", "abstract_class_declaration", "interface_declaration"],
        ),
        LanguageId::JavaScript => labels(&["class_declaration"]),
        LanguageId::Python => labels(&["class_definition"]),
        LanguageId::Rust => labels(&["struct_item", "enum_item", "trait_item", "impl_item"]),
        LanguageId::Go => labels(&["type_spec"]),
        LanguageId::Java => labels(
            &[
                "class_declaration",
                "interface_declaration",
                "enum_declaration",
                "record_declaration",
            ],
        ),
    };
    assert(labels_model(r@) =~= spec_class_kinds(id));
    r
}

fn import_kinds(id: LanguageId) -> (r: Vec<String>)
    ensures
        labels_model(r@) == spec_import_kinds(id),
{
    let r = match id {
        LanguageId::TypeScript => labels(&["import_statement"]),
        LanguageId::JavaScript => labels(&["import_statement"]),
        LanguageId::Python => labels(
            &["import_statement", "import_from_statement", "future_import_statement"],
        ),
        LanguageId::Rust => labels(&["use_declaration"]),
        LanguageId::Go => labels(&["import_spec"]),
        LanguageId::Java => labels(&["import_declaration"]),
    };
    assert(labels_model(r@) =~= spec_import_kinds(id));
    r
}

/// Builds the classification table of a language.
pub fn classification_table(id: LanguageId) -> (table: ClassificationTable)
    ensures
        table@ == spec_table(id),
{
    ClassificationTable {
        function_kinds: function_kinds(id),
        class_kinds: class_kinds(id),
        import_kinds: import_kinds(id),
        name: String::from_str("name"),
        parameters: String::from_str("parameters"),
        body: String::from_str("body"),
        return_type: String::from_str(
            match id {
                LanguageId::Go => "result",
                LanguageId::Java => "type",
                _ => "return_type",
            },
        ),
        parameter_name: String::from_str(
            match id {
                LanguageId::JavaScript => "left",
                LanguageId::TypeScript => "pattern",
                LanguageId::Rust => "pattern",
                _ => "name",
            },
        ),
        name_kinds: match id {
            LanguageId::Rust => two_labels("identifier", "self"),
            _ => one_label("identifier"),
        },
        type_name_kinds: match id {
            LanguageId::TypeScript => one_label("type_identifier"),
            LanguageId::Rust => one_label("type_identifier"),
            LanguageId::Java => one_label("type_identifier"),
            _ => no_labels(),
        },
        superclass: match id {
            LanguageId::TypeScript => two_labels("extends_clause", "extends_type_clause"),
            LanguageId::JavaScript => one_label("class_heritage"),
            LanguageId::Python => one_label("superclasses"),
            LanguageId::Rust => one_label("bounds"),
            LanguageId::Go => no_labels(),
            LanguageId::Java => two_labels("superclass", "extends_interfaces"),
        },
        interfaces: match id {
            LanguageId::TypeScript => one_label("implements_clause"),
            LanguageId::Java => one_label("interfaces"),
            _ => no_labels(),
        },
        interface_list: match id {
            LanguageId::Java => one_label("type_list"),
            _ => no_labels(),
        },
        async_marker: match id {
            LanguageId::Go => no_labels(),
            LanguageId::Java => no_labels(),
            _ => one_label("async"),
        },
        export_marker: match id {
            LanguageId::TypeScript => one_label("export_statement"),
            LanguageId::JavaScript => one_label("export_statement"),
            LanguageId::Rust => one_label("visibility_modifier"),
            LanguageId::Java => one_label("public"),
            _ => no_labels(),
        },
        import_source: match id {
            LanguageId::Python => two_labels("module_name", "dotted_name"),
            LanguageId::Rust => one_label("argument"),
            LanguageId::Go => one_label("path"),
            LanguageId::Java => two_labels("scoped_identifier", "identifier"),
            _ => one_label("source"),
        },
        import_name: String::from_str(
            match id {
                LanguageId::Go => "package_identifier",
                _ => "identifier",
            },
        ),
        type_only_marker: String::from_str("type"),
    }
}

/// The parsing library's `Language`: its definition of one language.
#[verifier::external_type_specification]
#[verifier::external_body]
pub struct ExLanguage(tree_sitter::Language);

/// Makes a `Language` of `tree_sitter_typescript::LANGUAGE_TYPESCRIPT`.
#[verifier::external_body]
fn language_typescript() -> (language: tree_sitter::Language) {
    tree_sitter::Language::new(tree_sitter_typescript::LANGUAGE_TYPESCRIPT)
}

/// Makes a `Language` of `tree_sitter_javascript::LANGUAGE`.
#[verifier::external_body]
fn language_javascript() -> (language: tree_sitter::Language) {
    tree_sitter::Language::new(tree_sitter_javascript::LANGUAGE)
}

/// Makes a `Language` of `tree_sitter_python::LANGUAGE`.
#[verifier::external_body]
fn language_python() -> (language: tree_sitter::Language) {
    tree_sitter::Language::new(tree_sitter_python::LANGUAGE)
}

/// Makes a `Language` of `tree_sitter_rust::LANGUAGE`.
#[verifier::external_body]
fn language_rust() -> (language: tree_sitter::Language) {
    tree_sitter::Language::new(tree_sitter_rust::LANGUAGE)
}

/// Makes a `Language` of `tree_sitter_go::LANGUAGE`.
#[verifier::external_body]
fn language_go() -> (language: tree_sitter::Language) {
    tree_sitter::Language::new(tree_sitter_go::LANGUAGE)
}

/// Makes a `Language` of `tree_sitter_java::LANGUAGE`.
#[verifier::external_body]
fn language_java() -> (language: tree_sitter::Language) {
    tree_sitter::Language::new(tree_sitter_java::LANGUAGE)
}

/// The grammar of a language: the parser's own definition of the language,
/// and the table that sorts its kinds of nodes into classes.
pub struct Grammar {
    pub id: LanguageId,
    pub language: tree_sitter::Language,
    pub table: ClassificationTable,
}

/// Finds the grammar that a language identifier names. Fails with
/// `UnsupportedLanguage` exactly for an identifier that names none.
pub fn resolve(language: &str) -> (r: Result<Grammar, PrismError>)
    ensures
        match r {
            Ok(grammar) => LanguageId::spec_parse(language@) == Some(grammar.id) && grammar.table@
                == spec_table(grammar.id),
            Err(e) => LanguageId::spec_parse(language@) is None && e
                == PrismError::UnsupportedLanguage(e->UnsupportedLanguage_0) && e->UnsupportedLanguage_0@
                == language@,
        },
{
    let id = match LanguageId::parse(language) {
        Some(id) => id,
        None => {
            return Err(PrismError::UnsupportedLanguage(String::from_str(language)));
        },
    };
    let handle = match id {
        LanguageId::TypeScript => language_typescript(),
        LanguageId::JavaScript => language_javascript(),
        LanguageId::Python => language_python(),
        LanguageId::Rust => language_rust(),
        LanguageId::Go => language_go(),
        LanguageId::Java => language_java(),
    };
    Ok(Grammar { id, language: handle, table: classification_table(id) })
}

} // verus!
