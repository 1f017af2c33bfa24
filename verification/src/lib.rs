//! Turns source text into retrieval-ready chunks: token-bounded spans of
//! whole lines that begin and end at syntax boundaries, with the functions,
//! classes and imports that start in each, and a list of the syntax errors
//! of the file.

use vstd::prelude::*;
use vstd::string::*;

use chunker::spec_oversized_line;
use text::text_bytes;

pub mod chunker;
pub mod deps;
pub mod error;
pub mod extractor;
pub mod grammar;
pub mod levels;
pub mod pack;
pub mod parser;
pub mod plan;
pub mod syntax;
pub mod text;
pub mod tree;
pub mod types;

pub use chunker::{
    build_chunks, chunk_code, split_large_chunk, DEFAULT_CHUNK_SIZE, DEFAULT_OVERLAP,
    MAX_CHUNK_SIZE,
};
pub use error::PrismError;
pub use extractor::{extract_classes, extract_functions, extract_imports, find_error_nodes};
pub use grammar::{
    classification_table, get_supported_languages, resolve, ClassificationTable, Grammar,
    LanguageId, NodeClass,
};
pub use parser::{assemble, PrismParser};
pub use text::estimate_tokens;
pub use tree::{SyntaxNode, SyntaxTree};
pub use types::{
    ClassInfo, CodeChunk, ErrorNode, FunctionInfo, ImportInfo, ParseResult, SourceLocation,
};

verus! {

/// The version of this library.
pub const VERSION: &'static str = "0.1.0";

/// Create a new parser instance. Fails with `UnsupportedLanguage` exactly
/// for an identifier that names no supported language.
pub fn create_parser(language: &str) -> (r: Result<PrismParser, PrismError>)
    ensures
        match r {
            Ok(parser) => LanguageId::spec_parse(language@) == Some(parser.spec_language())
                && parser.spec_sizes() == chunker::spec_default_sizes() && parser.wf(),
            Err(e) => match LanguageId::spec_parse(language@) {
                None => e == PrismError::UnsupportedLanguage(e->UnsupportedLanguage_0)
                    && e->UnsupportedLanguage_0@ == language@,
                Some(_) => e is ParseError,
            },
        },
{
    PrismParser::new(language)
}

/// Parse code and extract chunks (convenience function): makes a parser for
/// the language, has the code parsed once with the default sizes and lets
/// the parser go. Fails with `UnsupportedLanguage` exactly for an
/// identifier that names no supported language; for a supported one, with a
/// parse error where no tree can be had (always so for code longer than the
/// parsing library can address), and with `ChunkTooLarge` where a single
/// line is too long for any chunk.
pub fn parse_code(code: &str, language: &str) -> (r: Result<ParseResult, PrismError>)
    ensures
        text_bytes(code@).len() > u32::MAX ==> r is Err,
        match LanguageId::spec_parse(language@) {
            None => r matches Err(e) && e == PrismError::UnsupportedLanguage(
                e->UnsupportedLanguage_0,
            ) && e->UnsupportedLanguage_0@ == language@,
            Some(id) => match r {
                Ok(result) => spec_oversized_line(text_bytes(code@), MAX_CHUNK_SIZE) is None
                    && exists|nodes: Seq<SyntaxNode>|
                    tree::tree_wf(nodes) && #[trigger] parser::spec_assembled(
                        result,
                        nodes,
                        code@,
                        id,
                        chunker::spec_default_sizes(),
                    ),
                Err(e) => {
                    &&& text_bytes(code@).len() > u32::MAX ==> e is ParseError
                    &&& e is ParseError || (spec_oversized_line(
                        text_bytes(code@),
                        MAX_CHUNK_SIZE,
                    ) matches Some(l) && parser::spec_too_large(e, code@, l, MAX_CHUNK_SIZE))
                },
            },
        },
{
    let mut parser = match PrismParser::new(language) {
        Ok(parser) => parser,
        Err(e) => {
            return Err(e);
        },
    };
    parser.parse(code)
}

/// Get version information.
pub fn get_version() -> (r: String)
    ensures
        r@ == VERSION@,
{
    String::from_str(VERSION)
}

} // verus!
