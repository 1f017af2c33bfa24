//! The records that indexing produces, and the mathematical value of each.

use crate::text::text_bytes;
use vstd::prelude::*;

verus! {

/// Location in source code: rows and columns counted from zero.
#[derive(Debug, Clone, Copy, PartialEq, Eq)]
pub struct SourceLocation {
    pub start_row: usize,
    pub start_column: usize,
    pub end_row: usize,
    pub end_column: usize,
}

impl SourceLocation {
    /// The start is not after the end, rows compared first, then columns.
    pub open spec fn ordered(self) -> bool {
        self.start_row < self.end_row || (self.start_row == self.end_row && self.start_column
            <= self.end_column)
    }

    /// This location begins no later than the other, rows compared first,
    /// then columns.
    pub open spec fn begins_by(self, other: SourceLocation) -> bool {
        self.start_row < other.start_row || (self.start_row == other.start_row
            && self.start_column <= other.start_column)
    }
}

/// Function information extracted from code. Lines are counted from one and
/// `end_line` is the last line of the function.
#[derive(Debug, Clone)]
pub struct FunctionInfo {
    pub name: String,
    pub signature: String,
    pub start_line: usize,
    pub end_line: usize,
    pub parameters: Vec<String>,
    pub return_type: Option<String>,
    pub is_async: bool,
    pub is_exported: bool,
}

/// Class information extracted from code.
#[derive(Debug, Clone)]
pub struct ClassInfo {
    pub name: String,
    pub extends: Option<String>,
    pub implements: Vec<String>,
    pub methods: Vec<FunctionInfo>,
    pub start_line: usize,
    pub end_line: usize,
}

/// Import information.
#[derive(Debug, Clone)]
pub struct ImportInfo {
    pub source: String,
    pub imported_names: Vec<String>,
    pub is_type_only: bool,
    pub location: SourceLocation,
}

/// A code chunk for indexing. `start_line..=end_line` are the lines that the
/// chunk owns; `text` holds them, preceded by the lines it shares with the
/// chunk before it.
#[derive(Debug, Clone)]
pub struct CodeChunk {
    pub id: String,
    pub text: String,
    pub start_line: usize,
    pub end_line: usize,
    pub tokens: usize,
    pub language: String,
    pub functions: Vec<FunctionInfo>,
    pub classes: Vec<ClassInfo>,
    pub imports: Vec<ImportInfo>,
    pub dependencies: Vec<String>,
}

/// Error node information.
#[derive(Debug, Clone)]
pub struct ErrorNode {
    pub message: String,
    pub location: SourceLocation,
    pub text: String,
}

/// Result of parsing code.
#[derive(Debug, Clone)]
pub struct ParseResult {
    pub has_errors: bool,
    pub error_nodes: Vec<ErrorNode>,
    pub chunks: Vec<CodeChunk>,
    pub functions: Vec<FunctionInfo>,
    pub classes: Vec<ClassInfo>,
}

/// The bytes of each text of a list.
pub open spec fn texts_model(v: Seq<String>) -> Seq<Seq<u8>> {
    Seq::new(v.len(), |i: int| text_bytes(v[i]@))
}

/// The bytes of an optional text.
pub open spec fn option_text_model(t: Option<String>) -> Option<Seq<u8>> {
    match t {
        Some(s) => Some(text_bytes(s@)),
        None => None,
    }
}

/// What a `FunctionInfo` holds.
pub struct FunctionModel {
    pub name: Seq<u8>,
    pub signature: Seq<u8>,
    pub start_line: int,
    pub end_line: int,
    pub parameters: Seq<Seq<u8>>,
    pub return_type: Option<Seq<u8>>,
    pub is_async: bool,
    pub is_exported: bool,
}

/// What a `ClassInfo` holds.
pub struct ClassModel {
    pub name: Seq<u8>,
    pub extends: Option<Seq<u8>>,
    pub implements: Seq<Seq<u8>>,
    pub methods: Seq<FunctionModel>,
    pub start_line: int,
    pub end_line: int,
}

/// What an `ImportInfo` holds.
pub struct ImportModel {
    pub source: Seq<u8>,
    pub imported_names: Seq<Seq<u8>>,
    pub is_type_only: bool,
    pub location: SourceLocation,
}

/// What a `CodeChunk` holds.
pub struct ChunkModel {
    pub id: Seq<char>,
    pub text: Seq<u8>,
    pub start_line: int,
    pub end_line: int,
    pub tokens: int,
    pub language: Seq<char>,
    pub functions: Seq<FunctionModel>,
    pub classes: Seq<ClassModel>,
    pub imports: Seq<ImportModel>,
    pub dependencies: Seq<Seq<u8>>,
}

/// What an `ErrorNode` holds.
pub struct ErrorModel {
    pub message: Seq<char>,
    pub location: SourceLocation,
    pub text: Seq<u8>,
}

impl View for FunctionInfo {
    type V = FunctionModel;

    open spec fn view(&self) -> FunctionModel {
        FunctionModel {
            name: text_bytes(self.name@),
            signature: text_bytes(self.signature@),
            start_line: self.start_line as int,
            end_line: self.end_line as int,
            parameters: texts_model(self.parameters@),
            return_type: option_text_model(self.return_type),
            is_async: self.is_async,
            is_exported: self.is_exported,
        }
    }
}

/// The value of each function record of a list.
pub open spec fn functions_model(v: Seq<FunctionInfo>) -> Seq<FunctionModel> {
    Seq::new(v.len(), |i: int| v[i]@)
}

impl View for ClassInfo {
    type V = ClassModel;

    open spec fn view(&self) -> ClassModel {
        ClassModel {
            name: text_bytes(self.name@),
            extends: option_text_model(self.extends),
            implements: texts_model(self.implements@),
            methods: functions_model(self.methods@),
            start_line: self.start_line as int,
            end_line: self.end_line as int,
        }
    }
}

/// The value of each class record of a list.
pub open spec fn classes_model(v: Seq<ClassInfo>) -> Seq<ClassModel> {
    Seq::new(v.len(), |i: int| v[i]@)
}

impl View for ImportInfo {
    type V = ImportModel;

    open spec fn view(&self) -> ImportModel {
        ImportModel {
            source: text_bytes(self.source@),
            imported_names: texts_model(self.imported_names@),
            is_type_only: self.is_type_only,
            location: self.location,
        }
    }
}

/// The value of each import record of a list.
pub open spec fn imports_model(v: Seq<ImportInfo>) -> Seq<ImportModel> {
    Seq::new(v.len(), |i: int| v[i]@)
}

impl View for CodeChunk {
    type V = ChunkModel;

    open spec fn view(&self) -> ChunkModel {
        ChunkModel {
            id: self.id@,
            text: text_bytes(self.text@),
            start_line: self.start_line as int,
            end_line: self.end_line as int,
            tokens: self.tokens as int,
            language: self.language@,
            functions: functions_model(self.functions@),
            classes: classes_model(self.classes@),
            imports: imports_model(self.imports@),
            dependencies: texts_model(self.dependencies@),
        }
    }
}

/// The id of each chunk of a list.
pub open spec fn chunk_ids(v: Seq<CodeChunk>) -> Seq<Seq<char>> {
    Seq::new(v.len(), |i: int| v[i].id@)
}

/// The value of each chunk of a list.
pub open spec fn chunks_model(v: Seq<CodeChunk>) -> Seq<ChunkModel> {
    Seq::new(v.len(), |i: int| v[i]@)
}

impl View for ErrorNode {
    type V = ErrorModel;

    open spec fn view(&self) -> ErrorModel {
        ErrorModel {
            message: self.message@,
            location: self.location,
            text: text_bytes(self.text@),
        }
    }
}

/// The value of each error record of a list.
pub open spec fn errors_model(v: Seq<ErrorNode>) -> Seq<ErrorModel> {
    Seq::new(v.len(), |i: int| v[i]@)
}

impl FunctionModel {
    /// A function does not end before it begins.
    pub open spec fn wf(self) -> bool {
        1 <= self.start_line <= self.end_line
    }
}

impl ClassModel {
    /// A class does not end before it begins, and holds each of its methods
    /// within its own lines.
    pub open spec fn wf(self) -> bool {
        &&& 1 <= self.start_line <= self.end_line
        &&& forall|i: int|
            0 <= i < self.methods.len() ==> {
                let m = #[trigger] self.methods[i];
                m.wf() && self.start_line <= m.start_line && m.end_line <= self.end_line
            }
    }
}

/// Copies a list of texts.
pub fn clone_texts(v: &Vec<String>) -> (r: Vec<String>)
    ensures
        r@.len() == v@.len(),
        forall|i: int| 0 <= i < v@.len() ==> (#[trigger] r@[i])@ == v@[i]@,
        texts_model(r@) == texts_model(v@),
{
    let mut r: Vec<String> = Vec::new();
    let mut i: usize = 0;
    while i < v.len()
        invariant
            i <= v.len(),
            r@.len() == i,
            forall|k: int| 0 <= k < i ==> (#[trigger] r@[k])@ == v@[k]@,
        decreases v.len() - i,
    {
        r.push(v[i].clone());
        i = i + 1;
    }
    assert(texts_model(r@) =~= texts_model(v@));
    r
}

/// Copies an optional text.
pub fn clone_option_text(t: &Option<String>) -> (r: Option<String>)
    ensures
        r.is_some() == t.is_some(),
        r matches Some(s) ==> s@ == t->0@,
        option_text_model(r) == option_text_model(*t),
{
    match t {
        Some(s) => Some(s.clone()),
        None => None,
    }
}

/// Copies a function record.
pub fn clone_function(f: &FunctionInfo) -> (r: FunctionInfo)
    ensures
        r@ == f@,
{
    FunctionInfo {
        name: f.name.clone(),
        signature: f.signature.clone(),
        start_line: f.start_line,
        end_line: f.end_line,
        parameters: clone_texts(&f.parameters),
        return_type: clone_option_text(&f.return_type),
        is_async: f.is_async,
        is_exported: f.is_exported,
    }
}

/// Copies a list of function records.
pub fn clone_functions(v: &Vec<FunctionInfo>) -> (r: Vec<FunctionInfo>)
    ensures
        functions_model(r@) == functions_model(v@),
{
    let mut r: Vec<FunctionInfo> = Vec::new();
    let mut i: usize = 0;
    while i < v.len()
        invariant
            i <= v.len(),
            r@.len() == i,
            forall|k: int| 0 <= k < i ==> (#[trigger] r@[k])@ == v@[k]@,
        decreases v.len() - i,
    {
        r.push(clone_function(&v[i]));
        i = i + 1;
    }
    assert(functions_model(r@) =~= functions_model(v@));
    r
}

/// Copies a class record.
pub fn clone_class(c: &ClassInfo) -> (r: ClassInfo)
    ensures
        r@ == c@,
{
    ClassInfo {
        name: c.name.clone(),
        extends: clone_option_text(&c.extends),
        implements: clone_texts(&c.implements),
        methods: clone_functions(&c.methods),
        start_line: c.start_line,
        end_line: c.end_line,
    }
}

/// Copies an import record.
pub fn clone_import(m: &ImportInfo) -> (r: ImportInfo)
    ensures
        r@ == m@,
{
    ImportInfo {
        source: m.source.clone(),
        imported_names: clone_texts(&m.imported_names),
        is_type_only: m.is_type_only,
        location: m.location,
    }
}

/// Copies a list of class records.
pub fn clone_classes(v: &Vec<ClassInfo>) -> (r: Vec<ClassInfo>)
    ensures
        classes_model(r@) == classes_model(v@),
{
    let mut r: Vec<ClassInfo> = Vec::new();
    let mut i: usize = 0;
    while i < v.len()
        invariant
            i <= v.len(),
            r@.len() == i,
            forall|k: int| 0 <= k < i ==> (#[trigger] r@[k])@ == v@[k]@,
        decreases v.len() - i,
    {
        r.push(clone_class(&v[i]));
        i = i + 1;
    }
    assert(classes_model(r@) =~= classes_model(v@));
    r
}

/// Copies a list of import records.
pub fn clone_imports(v: &Vec<ImportInfo>) -> (r: Vec<ImportInfo>)
    ensures
        imports_model(r@) == imports_model(v@),
{
    let mut r: Vec<ImportInfo> = Vec::new();
    let mut i: usize = 0;
    while i < v.len()
        invariant
            i <= v.len(),
            r@.len() == i,
            forall|k: int| 0 <= k < i ==> (#[trigger] r@[k])@ == v@[k]@,
        decreases v.len() - i,
    {
        r.push(clone_import(&v[i]));
        i = i + 1;
    }
    assert(imports_model(r@) =~= imports_model(v@));
    r
}

/// Copies a chunk, its id included.
pub fn clone_chunk(c: &CodeChunk) -> (r: CodeChunk)
    ensures
        r@ == c@,
        r.id@ == c.id@,
{
    CodeChunk {
        id: c.id.clone(),
        text: c.text.clone(),
        start_line: c.start_line,
        end_line: c.end_line,
        tokens: c.tokens,
        language: c.language.clone(),
        functions: clone_functions(&c.functions),
        classes: clone_classes(&c.classes),
        imports: clone_imports(&c.imports),
        dependencies: clone_texts(&c.dependencies),
    }
}

} // verus!
