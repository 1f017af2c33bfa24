//! The parser of one language: it has the text parsed, reads the tree and
//! assembles the records and chunks of the file.

use crate::chunker::{
    build_chunks, ids_drawn, spec_build, spec_default_sizes, spec_oversized_line, spec_records, Sizes,
    DEFAULT_CHUNK_SIZE, DEFAULT_OVERLAP, MAX_CHUNK_SIZE,
};
use crate::error::PrismError;
use crate::extractor::{
    classes_with, find_error_nodes, functions_with, imports_with, outline, spec_classes,
    spec_errors, spec_functions,
};
use crate::grammar::{classification_table, resolve, spec_table, Grammar, LanguageId};
use crate::pack::line_tokens;
use crate::syntax::lower_tree;
use crate::text::{spec_offsets, text_bytes};
use crate::tree::{SyntaxNode, SyntaxTree};
use crate::types::{
    chunk_ids, chunks_model, classes_model, errors_model, functions_model, ParseResult,
};
use vstd::prelude::*;
use vstd::string::*;

verus! {

/// The parsing library's `Parser`.
#[verifier::external_type_specification]
#[verifier::external_body]
pub struct ExParser(tree_sitter::Parser);

/// The parsing library's `LanguageError`: why a parser refused a language.
#[verifier::external_type_specification]
#[verifier::external_body]
pub struct ExLanguageError(tree_sitter::LanguageError);

/// Calls `Parser::new`.
#[verifier::external_body]
fn parser_new() -> (parser: tree_sitter::Parser) {
    tree_sitter::Parser::new()
}

/// Calls `Parser::set_language`, which refuses a language made for another
/// version of the parser. Nothing is claimed of the outcome.
#[verifier::external_body]
fn parser_set_language(parser: &mut tree_sitter::Parser, language: &tree_sitter::Language) -> (r:
    Result<(), tree_sitter::LanguageError>) {
    parser.set_language(language)
}

/// Writes a `LanguageError` out as its `Debug` form does.
#[verifier::external_body]
fn language_error_text(error: &tree_sitter::LanguageError) -> (text: String) {
    format!("{:?}", error)
}

/// Calls `Parser::parse` on the text, with no earlier tree. It gives `None`
/// where the parser has no language or gave up. The parsing library counts
/// bytes in 32 bits, so longer texts are kept from it. Nothing is claimed
/// of the tree.
#[verifier::external_body]
fn parser_parse(parser: &mut tree_sitter::Parser, code: &str) -> (tree: Option<tree_sitter::Tree>)
    requires
        text_bytes(code@).len() <= u32::MAX,
{
    parser.parse(code, None)
}

/// Main parser struct: a parser bound to one language for as long as it lives.
pub struct PrismParser {
    parser: tree_sitter::Parser,
    id: LanguageId,
    target_tokens: usize,
    max_tokens: usize,
    overlap_tokens: usize,
}

/// Whether `result` is what indexing makes of a tree and the text it was
/// parsed from: every function and class of the tree, every syntax error
/// with the flag that says whether there is one, and the chunks built from
/// them within the given sizes, each under an id of 36 characters.
pub open spec fn spec_assembled(
    result: ParseResult,
    nodes: Seq<SyntaxNode>,
    source: Seq<char>,
    id: LanguageId,
    sizes: Sizes,
) -> bool {
    let bytes = text_bytes(source);
    let table = spec_table(id);
    let n = nodes.len() as int;
    &&& functions_model(result.functions@) == spec_functions(nodes, bytes, table, n)
    &&& classes_model(result.classes@) == spec_classes(nodes, bytes, table, n)
    &&& errors_model(result.error_nodes@) == spec_errors(nodes, bytes, n)
    &&& result.has_errors == (spec_errors(nodes, bytes, n).len() > 0)
    &&& chunks_model(result.chunks@) == spec_build(
        nodes,
        bytes,
        table,
        spec_records(nodes, bytes, table, id.spec_name()),
        sizes,
        chunk_ids(result.chunks@),
    )
    &&& ids_drawn(chunk_ids(result.chunks@))
}

/// Whether `error` says that line `l` of the text is too long for any chunk
/// of at most `max` tokens.
pub open spec fn spec_too_large(error: PrismError, source: Seq<char>, l: int, max: usize) -> bool {
    error == (PrismError::ChunkTooLarge {
        actual: line_tokens(spec_offsets(text_bytes(source)), l) as usize,
        max,
    })
}

/// Assembles the result for one file from its tree and its text. Syntax
/// errors in the tree do not make it fail: they are listed. It fails exactly
/// when a single line is too long for any chunk.
pub fn assemble(
    tree: &SyntaxTree,
    code: &str,
    id: LanguageId,
    target_tokens: usize,
    max_tokens: usize,
    overlap_tokens: usize,
) -> (r: Result<ParseResult, PrismError>)
    requires
        tree.wf(),
        overlap_tokens < target_tokens <= max_tokens,
    ensures
        match r {
            Ok(result) => spec_oversized_line(text_bytes(code@), max_tokens) is None
                && spec_assembled(
                result,
                tree@,
                code@,
                id,
                Sizes { target: target_tokens, max: max_tokens, overlap: overlap_tokens },
            ),
            Err(e) => spec_oversized_line(text_bytes(code@), max_tokens) matches Some(l)
                && spec_too_large(e, code@, l, max_tokens),
        },
{
    let table = classification_table(id);
    let o = outline(tree, &table);
    let functions = functions_with(tree, code, &table, &o);
    let classes = classes_with(tree, code, &table, &o);
    let imports = imports_with(tree, code, &table, &o);
    let chunks = match build_chunks(
        tree,
        code,
        &table,
        id.name(),
        &functions,
        &classes,
        &imports,
        target_tokens,
        max_tokens,
        overlap_tokens,
    ) {
        Ok(chunks) => chunks,
        Err(e) => {
            return Err(e);
        },
    };
    let error_nodes = find_error_nodes(tree, code);
    Ok(ParseResult { has_errors: error_nodes.len() > 0, error_nodes, chunks, functions, classes })
}

impl PrismParser {
    /// The language that the parser is bound to.
    pub closed spec fn spec_language(&self) -> LanguageId {
        self.id
    }

    /// The sizes within which the parser builds chunks.
    pub closed spec fn spec_sizes(&self) -> Sizes {
        Sizes { target: self.target_tokens, max: self.max_tokens, overlap: self.overlap_tokens }
    }

    /// The sizes of a parser are always in order.
    pub open spec fn wf(&self) -> bool {
        self.spec_sizes().wf()
    }

    /// The language that the parser is bound to.
    pub fn language(&self) -> (id: LanguageId)
        ensures
            id == self.spec_language(),
    {
        self.id
    }

    /// Create a new parser for the specified language, with the default
    /// sizes. Fails with `UnsupportedLanguage` exactly for an identifier
    /// that names no supported language; for a supported one, with a parse
    /// error where the parsing library refuses its own grammar.
    pub fn new(language: &str) -> (r: Result<PrismParser, PrismError>)
        ensures
            match r {
                Ok(parser) => LanguageId::spec_parse(language@) == Some(parser.spec_language())
                    && parser.spec_sizes() == spec_default_sizes() && parser.wf(),
                Err(e) => match LanguageId::spec_parse(language@) {
                    None => e == PrismError::UnsupportedLanguage(e->UnsupportedLanguage_0)
                        && e->UnsupportedLanguage_0@ == language@,
                    Some(_) => e is ParseError,
                },
            },
    {
        match resolve(language) {
            Ok(grammar) => PrismParser::with_grammar(&grammar),
            Err(e) => Err(e),
        }
    }

    /// Create a new parser for a grammar that is at hand, with the default
    /// sizes. Fails with a parse error where the parsing library refuses
    /// the grammar.
    pub fn with_grammar(grammar: &Grammar) -> (r: Result<PrismParser, PrismError>)
        ensures
            match r {
                Ok(parser) => parser.spec_language() == grammar.id && parser.spec_sizes()
                    == spec_default_sizes() && parser.wf(),
                Err(e) => e is ParseError,
            },
    {
        let mut parser = parser_new();
        match parser_set_language(&mut parser, &grammar.language) {
            Ok(_) => {},
            Err(e) => {
                let text = String::from_str("Failed to set language: ").concat(
                    language_error_text(&e).as_str(),
                );
                return Err(PrismError::ParseError(text));
            },
        }
        Ok(
            PrismParser {
                parser,
                id: grammar.id,
                target_tokens: DEFAULT_CHUNK_SIZE,
                max_tokens: MAX_CHUNK_SIZE,
                overlap_tokens: DEFAULT_OVERLAP,
            },
        )
    }

    /// Sets the sizes within which chunks are built: what a chunk is filled
    /// up to, what no chunk may exceed, and what a chunk may repeat of the
    /// one before it. Sizes that are not in order (`overlap_tokens <
    /// target_tokens <= max_tokens`) are refused and change nothing.
    pub fn set_sizes(&mut self, target_tokens: usize, max_tokens: usize, overlap_tokens: usize) -> (r:
        bool)
        requires
            old(self).wf(),
        ensures
            final(self).wf(),
            final(self).spec_language() == old(self).spec_language(),
            r == (overlap_tokens < target_tokens <= max_tokens),
            r ==> final(self).spec_sizes() == (Sizes {
                target: target_tokens,
                max: max_tokens,
                overlap: overlap_tokens,
            }),
            !r ==> final(self).spec_sizes() == old(self).spec_sizes(),
    {
        if overlap_tokens < target_tokens && target_tokens <= max_tokens {
            self.target_tokens = target_tokens;
            self.max_tokens = max_tokens;
            self.overlap_tokens = overlap_tokens;
            true
        } else {
            false
        }
    }

    /// Parse code and return structured result. Whatever tree the parsing
    /// library hands over, a result that comes back is what `assemble` makes
    /// of some well-formed tree and the code; the parser stays bound to its
    /// language and keeps its sizes. Fails with a parse error where no tree
    /// can be had at all (the parsing library gives none, or the code is
    /// longer than it can address), and with `ChunkTooLarge` where a single
    /// line is too long for any chunk.
    pub fn parse(&mut self, code: &str) -> (r: Result<ParseResult, PrismError>)
        requires
            old(self).wf(),
        ensures
            final(self).wf(),
            final(self).spec_language() == old(self).spec_language(),
            final(self).spec_sizes() == old(self).spec_sizes(),
            text_bytes(code@).len() > u32::MAX ==> r is Err && r->Err_0 is ParseError,
            match r {
                Ok(result) => spec_oversized_line(text_bytes(code@), old(self).spec_sizes().max)
                    is None && exists|nodes: Seq<SyntaxNode>|
                    crate::tree::tree_wf(nodes) && #[trigger] spec_assembled(
                        result,
                        nodes,
                        code@,
                        old(self).spec_language(),
                        old(self).spec_sizes(),
                    ),
                Err(e) => e is ParseError || (spec_oversized_line(
                    text_bytes(code@),
                    old(self).spec_sizes().max,
                ) matches Some(l) && spec_too_large(e, code@, l, old(self).spec_sizes().max)),
            },
    {
        if code.as_bytes().len() > 0xffff_ffff {
            return Err(
                PrismError::ParseError(String::from_str("Code is longer than the parser can address")),
            );
        }
        let parsed = match parser_parse(&mut self.parser, code) {
            Some(parsed) => parsed,
            None => {
                return Err(PrismError::ParseError(String::from_str("Failed to parse code")));
            },
        };
        let tree = match lower_tree(&parsed) {
            Ok(tree) => tree,
            Err(e) => {
                return Err(e);
            },
        };
        let r = assemble(
            &tree,
            code,
            self.id,
            self.target_tokens,
            self.max_tokens,
            self.overlap_tokens,
        );
        proof {
            if r is Ok {
                assert(spec_assembled(r->Ok_0, tree@, code@, self.id, self.spec_sizes()));
            }
        }
        r
    }

    /// Clean up resources. The parser holds none that outlive it, so this
    /// changes nothing.
    pub fn free(&mut self)
        ensures
            final(self).wf() == old(self).wf(),
            final(self).spec_language() == old(self).spec_language(),
            final(self).spec_sizes() == old(self).spec_sizes(),
    {
    }
}

} // verus!
