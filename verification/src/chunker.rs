//! Builds the chunks of a file: token-bounded spans of whole lines that
//! begin and end at syntax boundaries, each with the records that start in it.

use crate::deps::{
    all_reference_lines, dependencies_in, import_names, spec_dependencies, spec_import_names,
    spec_references,
};
use crate::error::PrismError;
use crate::extractor::{
    classes_with, functions_with, imports_with, outline, spec_classes, spec_functions,
    spec_imports,
};
use crate::grammar::{
    classification_table, labels_model, spec_table, ClassificationTable, LanguageId, TableModel,
};
use crate::levels::{
    cut_levels, lemma_cut_levels, spec_bounds, spec_cut_levels, spec_last_row, spec_level,
};
use crate::pack::{
    lemma_long_line, lemma_overlap_start, lemma_pack, lemma_pack_greedy, line_tokens, long_line,
    overlap_start, pack, spec_all_filled, spec_all_full, spec_chunk_ends, spec_filled,
    spec_long_line, spec_text_start,
};
use crate::plan::{
    as_ints, increasing, lemma_pieces_clear, lemma_plan, lemma_rest, lemma_tile_holds, pieces,
    plan_span,
    span_tokens, spec_begin, spec_clear, spec_is_cut,
    spec_bounded, spec_pieces, spec_plan, spec_tiles, tokens_between, Span,
};
use crate::text::{
    lemma_line_offsets, line_offsets, offsets_match, slice_text, spec_line_offsets, spec_offsets,
    spec_tokens, text_bytes,
};
use crate::tree::{SyntaxNode, SyntaxTree};
use crate::types::{
    chunk_ids, chunks_model, classes_model, clone_chunk, clone_class, clone_function, clone_import,
    clone_texts, functions_model, imports_model, texts_model, ChunkModel, ClassInfo, ClassModel,
    CodeChunk, FunctionInfo, FunctionModel, ImportInfo, ImportModel,
};
use vstd::prelude::*;
use vstd::string::*;

verus! {

/// Default chunk size (in tokens)
pub const DEFAULT_CHUNK_SIZE: usize = 512;

/// Default number of tokens that a chunk may repeat from the one before it.
pub const DEFAULT_OVERLAP: usize = 128;

/// Default largest chunk (in tokens).
pub const MAX_CHUNK_SIZE: usize = 1000;

/// Of the first `k` functions, those that start on one of the lines
/// `first..=last`.
pub open spec fn spec_functions_in(
    all: Seq<FunctionModel>,
    first: int,
    last: int,
    k: int,
) -> Seq<FunctionModel>
    decreases k,
{
    if k <= 0 {
        Seq::empty()
    } else {
        let before = spec_functions_in(all, first, last, k - 1);
        if first <= all[k - 1].start_line <= last {
            before.push(all[k - 1])
        } else {
            before
        }
    }
}

/// Of the first `k` classes, those that start on one of the lines
/// `first..=last`.
pub open spec fn spec_classes_in(all: Seq<ClassModel>, first: int, last: int, k: int) -> Seq<
    ClassModel,
>
    decreases k,
{
    if k <= 0 {
        Seq::empty()
    } else {
        let before = spec_classes_in(all, first, last, k - 1);
        if first <= all[k - 1].start_line <= last {
            before.push(all[k - 1])
        } else {
            before
        }
    }
}

/// Of the first `k` imports, those that start on one of the lines
/// `first..=last`.
pub open spec fn spec_imports_in(all: Seq<ImportModel>, first: int, last: int, k: int) -> Seq<
    ImportModel,
>
    decreases k,
{
    if k <= 0 {
        Seq::empty()
    } else {
        let before = spec_imports_in(all, first, last, k - 1);
        if first <= all[k - 1].location.start_row + 1 <= last {
            before.push(all[k - 1])
        } else {
            before
        }
    }
}

/// The functions that start on one of the lines `first..=last`.
pub fn functions_in(all: &Vec<FunctionInfo>, first: usize, last: usize) -> (r: Vec<FunctionInfo>)
    ensures
        functions_model(r@) == spec_functions_in(
            functions_model(all@),
            first as int,
            last as int,
            all@.len() as int,
        ),
{
    let mut r: Vec<FunctionInfo> = Vec::new();
    let mut k: usize = 0;
    assert(functions_model(r@) =~= Seq::<FunctionModel>::empty());
    while k < all.len()
        invariant
            k <= all@.len(),
            functions_model(r@) == spec_functions_in(
                functions_model(all@),
                first as int,
                last as int,
                k as int,
            ),
        decreases all@.len() - k,
    {
        if first <= all[k].start_line && all[k].start_line <= last {
            let ghost before = r@;
            let f = clone_function(&all[k]);
            r.push(f);
            assert(functions_model(r@) =~= functions_model(before).push(all@[k as int]@));
        }
        k = k + 1;
    }
    r
}

/// The classes that start on one of the lines `first..=last`.
pub fn classes_in(all: &Vec<ClassInfo>, first: usize, last: usize) -> (r: Vec<ClassInfo>)
    ensures
        classes_model(r@) == spec_classes_in(
            classes_model(all@),
            first as int,
            last as int,
            all@.len() as int,
        ),
{
    let mut r: Vec<ClassInfo> = Vec::new();
    let mut k: usize = 0;
    assert(classes_model(r@) =~= Seq::<ClassModel>::empty());
    while k < all.len()
        invariant
            k <= all@.len(),
            classes_model(r@) == spec_classes_in(
                classes_model(all@),
                first as int,
                last as int,
                k as int,
            ),
        decreases all@.len() - k,
    {
        if first <= all[k].start_line && all[k].start_line <= last {
            let ghost before = r@;
            let c = clone_class(&all[k]);
            r.push(c);
            assert(classes_model(r@) =~= classes_model(before).push(all@[k as int]@));
        }
        k = k + 1;
    }
    r
}

/// The imports that start on one of the lines `first..=last`.
pub fn imports_in(all: &Vec<ImportInfo>, first: usize, last: usize) -> (r: Vec<ImportInfo>)
    ensures
        imports_model(r@) == spec_imports_in(
            imports_model(all@),
            first as int,
            last as int,
            all@.len() as int,
        ),
{
    let mut r: Vec<ImportInfo> = Vec::new();
    let mut k: usize = 0;
    assert(imports_model(r@) =~= Seq::<ImportModel>::empty());
    while k < all.len()
        invariant
            k <= all@.len(),
            imports_model(r@) == spec_imports_in(
                imports_model(all@),
                first as int,
                last as int,
                k as int,
            ),
        decreases all@.len() - k,
    {
        let row = all[k].location.start_row;
        if row < usize::MAX && first <= row + 1 && row + 1 <= last {
            let ghost before = r@;
            let m = clone_import(&all[k]);
            r.push(m);
            assert(imports_model(r@) =~= imports_model(before).push(all@[k as int]@));
        }
        k = k + 1;
    }
    r
}

/// The language of a file and the records found in it.
pub struct Records {
    pub language: Seq<char>,
    pub functions: Seq<FunctionModel>,
    pub classes: Seq<ClassModel>,
    pub imports: Seq<ImportModel>,
}

/// The sizes, in tokens, that bound the chunks of a file: what a chunk is
/// filled up to, what no chunk may exceed, and what a chunk may repeat of
/// the chunk before it.
pub struct Sizes {
    pub target: usize,
    pub max: usize,
    pub overlap: usize,
}

impl Sizes {
    /// The overlap is under the target, and the target is at most the maximum.
    pub open spec fn wf(self) -> bool {
        self.overlap < self.target <= self.max
    }
}

/// The records as the chunk builder is handed them.
pub open spec fn records_model(
    language: Seq<char>,
    functions: Seq<FunctionInfo>,
    classes: Seq<ClassInfo>,
    imports: Seq<ImportInfo>,
) -> Records {
    Records {
        language,
        functions: functions_model(functions),
        classes: classes_model(classes),
        imports: imports_model(imports),
    }
}

/// The chunk that owns the lines `s..e` (counted from zero) and whose text
/// begins at line `t`: its lines are numbered from one, its text is cut from
/// the source without change, and it holds the records that start in it,
/// the given dependencies and the given id.
pub open spec fn spec_chunk(
    bytes: Seq<u8>,
    offs: Seq<usize>,
    t: int,
    s: int,
    e: int,
    records: Records,
    dependencies: Seq<Seq<u8>>,
    id: Seq<char>,
) -> ChunkModel {
    ChunkModel {
        id,
        text: bytes.subrange(offs[t] as int, offs[e] as int),
        start_line: s + 1,
        end_line: e,
        tokens: span_tokens(offs, t, e),
        language: records.language,
        functions: spec_functions_in(records.functions, s + 1, e, records.functions.len() as int),
        classes: spec_classes_in(records.classes, s + 1, e, records.classes.len() as int),
        imports: spec_imports_in(records.imports, s + 1, e, records.imports.len() as int),
        dependencies,
    }
}

/// The imported names that the code on the lines `s..e` (counted from zero)
/// refers to.
pub open spec fn spec_chunk_dependencies(
    nodes: Seq<SyntaxNode>,
    bytes: Seq<u8>,
    table: TableModel,
    records: Records,
    s: int,
    e: int,
) -> Seq<Seq<u8>> {
    let names = spec_import_names(records.imports, records.imports.len() as int);
    spec_dependencies(nodes, bytes, table, names, s + 1, e, names.len() as int)
}

/// The chunks whose ends are `chunk_ends`: chunk `i` goes under the `i`-th
/// of the ids.
pub open spec fn spec_chunks(
    nodes: Seq<SyntaxNode>,
    bytes: Seq<u8>,
    table: TableModel,
    offs: Seq<usize>,
    chunk_ends: Seq<int>,
    records: Records,
    overlap: usize,
    max: usize,
    ids: Seq<Seq<char>>,
) -> Seq<ChunkModel> {
    Seq::new(
        chunk_ends.len(),
        |i: int|
            spec_chunk(
                bytes,
                offs,
                spec_text_start(offs, chunk_ends, i, overlap, max),
                spec_begin(chunk_ends, 0, i),
                chunk_ends[i],
                records,
                spec_chunk_dependencies(
                    nodes,
                    bytes,
                    table,
                    records,
                    spec_begin(chunk_ends, 0, i),
                    chunk_ends[i],
                ),
                ids[i],
            ),
    )
}

/// The ends of the chunks of a file: its lines are cut into pieces along
/// the syntax boundaries that the tree gives, and the pieces are packed.
pub open spec fn spec_build_ends(
    nodes: Seq<SyntaxNode>,
    bytes: Seq<u8>,
    table: TableModel,
    target: usize,
    max: usize,
) -> Seq<int> {
    let offs = spec_offsets(bytes);
    let levels = spec_cut_levels(nodes, table, offs.len() - 1, nodes.len() as int);
    spec_chunk_ends(offs, spec_pieces(offs, levels, max), target)
}

/// The chunks of a file, under the given ids.
pub open spec fn spec_build(
    nodes: Seq<SyntaxNode>,
    bytes: Seq<u8>,
    table: TableModel,
    records: Records,
    sizes: Sizes,
    ids: Seq<Seq<char>>,
) -> Seq<ChunkModel> {
    spec_chunks(
        nodes,
        bytes,
        table,
        spec_offsets(bytes),
        spec_build_ends(nodes, bytes, table, sizes.target, sizes.max),
        records,
        sizes.overlap,
        sizes.max,
        ids,
    )
}

/// The first line of a file that alone is estimated over `max`.
pub open spec fn spec_oversized_line(bytes: Seq<u8>, max: usize) -> Option<int> {
    spec_long_line(spec_offsets(bytes), max, spec_offsets(bytes).len() - 1)
}

/// The line offsets of a text that a machine can hold begin at zero,
/// strictly increase, end at the length of the text, and each lies between
/// two characters.
pub proof fn lemma_offsets(bytes: Seq<u8>)
    requires
        bytes.len() <= usize::MAX,
        vstd::utf8::valid_utf8(bytes),
    ensures
        increasing(spec_offsets(bytes)),
        spec_offsets(bytes)[spec_offsets(bytes).len() - 1] == bytes.len(),
        bytes.len() > 0 ==> spec_offsets(bytes).len() >= 2,
        bytes.len() == 0 ==> spec_offsets(bytes).len() == 1,
        forall|i: int|
            0 <= i < spec_offsets(bytes).len() ==> vstd::utf8::is_char_boundary(
                bytes,
                (#[trigger] spec_offsets(bytes)[i]) as int,
            ),
{
    lemma_line_offsets(bytes);
    let ints = spec_line_offsets(bytes);
    let offs = spec_offsets(bytes);
    assert forall|i: int| 0 <= i < offs.len() implies (#[trigger] offs[i]) as int == ints[i] by {
        assert(ints[0] <= ints[i]);
        assert(ints[i] <= ints[ints.len() - 1]);
    }
    assert forall|i: int, j: int| 0 <= i < j < offs.len() implies #[trigger] offs[i]
        < #[trigger] offs[j] by {
        assert(ints[i] < ints[j]);
    }
}

/// A vector that holds the line offsets of a text holds them as machine
/// numbers, and the text is no longer than a machine can count.
pub proof fn lemma_offsets_match(offs: Seq<usize>, bytes: Seq<u8>)
    requires
        offsets_match(offs, spec_line_offsets(bytes)),
    ensures
        offs == spec_offsets(bytes),
        bytes.len() <= usize::MAX,
{
    lemma_line_offsets(bytes);
    assert(offs[offs.len() - 1] as int == bytes.len());
    assert(offs =~= spec_offsets(bytes));
}

/// Makes the chunk that owns the lines `s..e` (counted from zero) and whose
/// text begins at line `t`, with the given dependencies and under the given id.
pub fn make_chunk(
    source: &str,
    offs: &Vec<usize>,
    t: usize,
    s: usize,
    e: usize,
    language: &str,
    functions: &Vec<FunctionInfo>,
    classes: &Vec<ClassInfo>,
    imports: &Vec<ImportInfo>,
    dependencies: Vec<String>,
    id: String,
) -> (r: CodeChunk)
    requires
        offsets_match(offs@, spec_line_offsets(text_bytes(source@))),
        t <= s < e < offs@.len(),
    ensures
        r.id@ == id@,
        r@ == spec_chunk(
            text_bytes(source@),
            offs@,
            t as int,
            s as int,
            e as int,
            records_model(language@, functions@, classes@, imports@),
            texts_model(dependencies@),
            id@,
        ),
{
    proof {
        vstd::utf8::encode_utf8_valid_utf8(source@);
        lemma_offsets_match(offs@, text_bytes(source@));
        lemma_offsets(text_bytes(source@));
        assert(offs@[t as int] <= offs@[e as int]);
        assert(offs@[e as int] <= offs@[offs@.len() - 1]);
    }
    let text = match slice_text(source, offs[t], offs[e]) {
        Some(text) => text,
        None => String::new(),
    };
    CodeChunk {
        id,
        text,
        start_line: s + 1,
        end_line: e,
        tokens: tokens_between(offs, t, e),
        language: String::from_str(language),
        functions: functions_in(functions, s + 1, e),
        classes: classes_in(classes, s + 1, e),
        imports: imports_in(imports, s + 1, e),
        dependencies,
    }
}

/// Calls `Uuid::new_v4` of the uuid crate and writes the result out as its
/// `Display` does: in the hyphenated form, which is 36 characters long. The
/// id is random, so nothing else is claimed of it.
#[verifier::external_body]
fn fresh_id() -> (id: String)
    ensures
        id@.len() == 36,
{
    uuid::Uuid::new_v4().to_string()
}

/// Whether every id of a list is 36 characters long.
pub open spec fn ids_drawn(ids: Seq<Seq<char>>) -> bool {
    forall|i: int| 0 <= i < ids.len() ==> (#[trigger] ids[i]).len() == 36
}

/// Draws `count` fresh ids.
pub fn draw_ids(count: usize) -> (ids: Vec<String>)
    ensures
        ids@.len() == count,
        ids_drawn(labels_model(ids@)),
{
    let mut ids: Vec<String> = Vec::new();
    let mut i: usize = 0;
    while i < count
        invariant
            i <= count,
            ids@.len() == i,
            forall|k: int| 0 <= k < i ==> (#[trigger] ids@[k])@.len() == 36,
        decreases count - i,
    {
        ids.push(fresh_id());
        i = i + 1;
    }
    ids
}

/// Finds where the chunks of a file end: its lines are cut into pieces
/// along the syntax boundaries that the tree gives, and the pieces are
/// packed. Fails exactly when a single line is over `max_tokens`, and
/// reports the first such line's estimate.
pub fn chunk_ends(
    tree: &SyntaxTree,
    source: &str,
    table: &ClassificationTable,
    target_tokens: usize,
    max_tokens: usize,
) -> (r: Result<Vec<usize>, PrismError>)
    requires
        tree.wf(),
        target_tokens <= max_tokens,
    ensures
        match r {
            Ok(ends) => spec_oversized_line(text_bytes(source@), max_tokens) is None && as_ints(
                ends@,
            ) == spec_build_ends(tree@, text_bytes(source@), table@, target_tokens, max_tokens)
                && (ends@.len() > 0 ==> spec_tiles(
                as_ints(ends@),
                0,
                spec_offsets(text_bytes(source@)).len() - 1,
            )),
            Err(e) => spec_oversized_line(text_bytes(source@), max_tokens) matches Some(l) && e
                == (PrismError::ChunkTooLarge {
                actual: line_tokens(spec_offsets(text_bytes(source@)), l) as usize,
                max: max_tokens,
            }),
        },
{
    let ghost bytes = text_bytes(source@);
    let offs = line_offsets(source);
    proof {
        vstd::utf8::encode_utf8_valid_utf8(source@);
        lemma_offsets_match(offs@, bytes);
        lemma_offsets(bytes);
    }
    match long_line(&offs, max_tokens) {
        Some((l, tokens)) => {
            return Err(PrismError::ChunkTooLarge { actual: tokens, max: max_tokens });
        },
        None => {},
    }
    let lines = offs.len() - 1;
    let o = outline(tree, table);
    let levels = cut_levels(tree, table, &o, lines);
    let parts = pieces(&offs, &levels, max_tokens);
    proof {
        if lines > 0 {
            lemma_rest(offs@, levels@, 0, lines as int, 0, max_tokens);
        }
    }
    let ends = pack(&offs, &parts, target_tokens);
    proof {
        if lines > 0 {
            let p = as_ints(parts@);
            assert(spec_begin(p, 0, 0) == 0);
            lemma_pack(offs@, p, 1, 0, target_tokens, max_tokens);
        }
    }
    Ok(ends)
}

/// Makes the chunks that end at the given lines, chunk `i` under the `i`-th
/// of the given ids. A chunk's text begins with the last lines of the chunk
/// before it, as many as stay at or under `overlap_tokens` without lifting
/// the text over `max_tokens`.
pub fn chunks_with_ids(
    tree: &SyntaxTree,
    source: &str,
    table: &ClassificationTable,
    language: &str,
    functions: &Vec<FunctionInfo>,
    classes: &Vec<ClassInfo>,
    imports: &Vec<ImportInfo>,
    ends: &Vec<usize>,
    max_tokens: usize,
    overlap_tokens: usize,
    ids: &Vec<String>,
) -> (chunks: Vec<CodeChunk>)
    requires
        tree.wf(),
        ends@.len() > 0 ==> spec_tiles(
            as_ints(ends@),
            0,
            spec_offsets(text_bytes(source@)).len() - 1,
        ),
        ids@.len() == ends@.len(),
    ensures
        chunks_model(chunks@) == spec_chunks(
            tree@,
            text_bytes(source@),
            table@,
            spec_offsets(text_bytes(source@)),
            as_ints(ends@),
            records_model(language@, functions@, classes@, imports@),
            overlap_tokens,
            max_tokens,
            labels_model(ids@),
        ),
        chunk_ids(chunks@) == labels_model(ids@),
{
    let ghost bytes = text_bytes(source@);
    let ghost records = records_model(language@, functions@, classes@, imports@);
    let ghost e = as_ints(ends@);
    let offs = line_offsets(source);
    proof {
        vstd::utf8::encode_utf8_valid_utf8(source@);
        lemma_offsets_match(offs@, bytes);
        lemma_offsets(bytes);
    }
    let lines = offs.len() - 1;
    let o = outline(tree, table);
    let names = import_names(imports);
    let references = all_reference_lines(tree, source, table, &o, &names);
    let count = ends.len();
    let mut chunks: Vec<CodeChunk> = Vec::new();
    let mut i: usize = 0;
    while i < count
        invariant
            i <= count,
            count == ends@.len(),
            count == ids@.len(),
            count > 0 ==> spec_tiles(e, 0, lines as int),
            texts_model(names@) == spec_import_names(
                imports_model(imports@),
                imports@.len() as int,
            ),
            spec_references(references@, tree@, bytes, table@, texts_model(names@)),
            e == as_ints(ends@),
            offs@ == spec_offsets(bytes),
            offsets_match(offs@, spec_line_offsets(bytes)),
            bytes == text_bytes(source@),
            lines == offs@.len() - 1,
            increasing(offs@),
            records == records_model(language@, functions@, classes@, imports@),
            chunks@.len() == i,
            forall|k: int|
                0 <= k < i ==> (#[trigger] chunks@[k])@ == spec_chunks(
                    tree@,
                    bytes,
                    table@,
                    offs@,
                    e,
                    records,
                    overlap_tokens,
                    max_tokens,
                    labels_model(ids@),
                )[k],
        decreases count - i,
    {
        let end = ends[i];
        assert(e[i as int] == end);
        assert(e[i as int] <= e[count - 1]);
        let (t, s) = if i == 0 {
            (0usize, 0usize)
        } else {
            let s = ends[i - 1];
            assert(e[i - 1] == s);
            assert(e[i - 1] < e[i as int]);
            let floor = if i == 1 {
                0
            } else {
                assert(e[i - 2] < e[i - 1]);
                ends[i - 2]
            };
            (overlap_start(&offs, floor, s, end, overlap_tokens, max_tokens), s)
        };
        let dependencies = dependencies_in(&names, &references, s + 1, end, tree, source, table);
        let chunk = make_chunk(
            source,
            &offs,
            t,
            s,
            end,
            language,
            functions,
            classes,
            imports,
            dependencies,
            ids[i].clone(),
        );
        assert(chunk.id@ == labels_model(ids@)[i as int]);
        chunks.push(chunk);
        i = i + 1;
    }
    assert(chunks_model(chunks@) =~= spec_chunks(
        tree@,
        bytes,
        table@,
        offs@,
        e,
        records,
        overlap_tokens,
        max_tokens,
        labels_model(ids@),
    ));
    assert(chunk_ids(chunks@) =~= labels_model(ids@)) by {
        assert forall|k: int| 0 <= k < chunks@.len() implies chunks@[k].id@ == labels_model(
            ids@,
        )[k] by {
            assert(chunks_model(chunks@)[k] == chunks@[k]@);
        }
    }
    chunks
}

/// Builds the chunks of a file from its tree, its text and its records.
///
/// The lines are cut at the starts and ends of the functions and classes
/// that lie in no other; a part estimated over `max_tokens` is cut at the
/// coarsest syntax boundaries inside it, and so on, down to a cut at the
/// middle line where no boundary is left. The pieces are packed in order
/// into chunks of at most `target_tokens`; a piece that alone is over the
/// target is a chunk of its own. A chunk's text begins with the last lines
/// of the chunk before it, as many as stay at or under `overlap_tokens`
/// without lifting the text over `max_tokens`. Every chunk goes under a
/// freshly drawn id of 36 characters.
///
/// Fails exactly when a single line is over `max_tokens`, and reports the
/// first such line's estimate.
pub fn build_chunks(
    tree: &SyntaxTree,
    source: &str,
    table: &ClassificationTable,
    language: &str,
    functions: &Vec<FunctionInfo>,
    classes: &Vec<ClassInfo>,
    imports: &Vec<ImportInfo>,
    target_tokens: usize,
    max_tokens: usize,
    overlap_tokens: usize,
) -> (r: Result<Vec<CodeChunk>, PrismError>)
    requires
        tree.wf(),
        overlap_tokens < target_tokens <= max_tokens,
    ensures
        match r {
            Ok(chunks) => spec_oversized_line(text_bytes(source@), max_tokens) is None
                && ids_drawn(chunk_ids(chunks@)) && chunks_model(chunks@) == spec_build(
                tree@,
                text_bytes(source@),
                table@,
                records_model(language@, functions@, classes@, imports@),
                Sizes { target: target_tokens, max: max_tokens, overlap: overlap_tokens },
                chunk_ids(chunks@),
            ),
            Err(e) => spec_oversized_line(text_bytes(source@), max_tokens) matches Some(l) && e
                == (PrismError::ChunkTooLarge {
                actual: line_tokens(spec_offsets(text_bytes(source@)), l) as usize,
                max: max_tokens,
            }),
        },
{
    let ends = match chunk_ends(tree, source, table, target_tokens, max_tokens) {
        Ok(ends) => ends,
        Err(e) => {
            return Err(e);
        },
    };
    let ids = draw_ids(ends.len());
    Ok(
        chunks_with_ids(
            tree,
            source,
            table,
            language,
            functions,
            classes,
            imports,
            &ends,
            max_tokens,
            overlap_tokens,
            &ids,
        ),
    )
}

/// The token estimate of the lines that chunk `i` owns.
pub open spec fn spec_own_tokens(offs: Seq<usize>, ends: Seq<int>, i: int) -> int {
    span_tokens(offs, spec_begin(ends, 0, i), ends[i])
}

/// Where no line is over `max`, a span of a tiling whose spans are single
/// lines or at most `max` is itself at most `max`.
proof fn lemma_own_tokens(offs: Seq<usize>, ends: Seq<int>, i: int, max: usize)
    requires
        spec_tiles(ends, 0, offs.len() - 1),
        spec_bounded(offs, ends, 0, max),
        spec_long_line(offs, max, offs.len() - 1) is None,
        0 <= i < ends.len(),
    ensures
        spec_own_tokens(offs, ends, i) <= max,
{
    let b = spec_begin(ends, 0, i);
    assert(ends[i] <= ends[ends.len() - 1]);
    if i > 0 {
        assert(ends[0] <= ends[i - 1]);
        assert(ends[i - 1] < ends[i]);
    }
    assert(ends[i] - b == 1 || span_tokens(offs, b, ends[i]) <= max);
    if ends[i] - b == 1 {
        lemma_long_line(offs, max, offs.len() - 1);
        assert(line_tokens(offs, b) <= max);
    }
}

/// What holds of chunks packed from the pieces of a file with at least one
/// line: they tile the file, and where no line is over `max`, each chunk's
/// own lines are estimated at most `max`.
pub proof fn lemma_packed_pieces(
    offs: Seq<usize>,
    levels: Seq<Option<usize>>,
    target: usize,
    max: usize,
)
    requires
        increasing(offs),
        offs.len() >= 2,
        target <= max,
    ensures
        spec_tiles(
            spec_chunk_ends(offs, spec_pieces(offs, levels, max), target),
            0,
            offs.len() - 1,
        ),
        spec_long_line(offs, max, offs.len() - 1) is None ==> forall|i: int|
            0 <= i < spec_chunk_ends(offs, spec_pieces(offs, levels, max), target).len()
                ==> #[trigger] spec_own_tokens(
                offs,
                spec_chunk_ends(offs, spec_pieces(offs, levels, max), target),
                i,
            ) <= max,
{
    let lines = offs.len() - 1;
    let p = spec_pieces(offs, levels, max);
    lemma_rest(offs, levels, 0, lines, 0, max);
    assert(spec_begin(p, 0, 0) == 0);
    assert(p[0] - 0 == 1 || span_tokens(offs, 0, p[0]) <= max);
    lemma_pack(offs, p, 1, 0, target, max);
    let ends = spec_chunk_ends(offs, p, target);
    assert(ends == crate::pack::spec_pack(offs, p, 1, 0, target));
    if spec_long_line(offs, max, lines) is None {
        assert forall|i: int| 0 <= i < ends.len() implies #[trigger] spec_own_tokens(
            offs,
            ends,
            i,
        ) <= max by {
            lemma_own_tokens(offs, ends, i, max);
        }
    }
}

/// As `lemma_packed_pieces`, of the chunks of a file that is not empty.
pub proof fn lemma_build_ends(
    nodes: Seq<SyntaxNode>,
    source: Seq<char>,
    table: TableModel,
    target: usize,
    max: usize,
)
    requires
        text_bytes(source).len() <= usize::MAX,
        target <= max,
        text_bytes(source).len() > 0,
    ensures
        increasing(spec_offsets(text_bytes(source))),
        spec_tiles(
            spec_build_ends(nodes, text_bytes(source), table, target, max),
            0,
            spec_offsets(text_bytes(source)).len() - 1,
        ),
        spec_oversized_line(text_bytes(source), max) is None ==> forall|i: int|
            0 <= i < spec_build_ends(nodes, text_bytes(source), table, target, max).len()
                ==> #[trigger] spec_own_tokens(
                spec_offsets(text_bytes(source)),
                spec_build_ends(nodes, text_bytes(source), table, target, max),
                i,
            ) <= max,
{
    let bytes = text_bytes(source);
    vstd::utf8::encode_utf8_valid_utf8(source);
    lemma_offsets(bytes);
    let offs = spec_offsets(bytes);
    let levels = spec_cut_levels(nodes, table, offs.len() - 1, nodes.len() as int);
    lemma_packed_pieces(offs, levels, target, max);
}

/// The chunks of a file are packed greedily from its pieces: every chunk
/// stays at or under the target unless it is one piece alone, and every
/// chunk but the last is closed only because the next piece would have
/// lifted it over the target.
pub proof fn lemma_chunks_greedy(
    nodes: Seq<SyntaxNode>,
    source: Seq<char>,
    table: TableModel,
    target: usize,
    max: usize,
)
    requires
        text_bytes(source).len() <= usize::MAX,
        text_bytes(source).len() > 0,
    ensures
        ({
            let offs = spec_offsets(text_bytes(source));
            let levels = spec_cut_levels(nodes, table, offs.len() - 1, nodes.len() as int);
            let parts = spec_pieces(offs, levels, max);
            let ends = spec_build_ends(nodes, text_bytes(source), table, target, max);
            &&& spec_all_filled(offs, parts, ends, 0, target)
            &&& spec_all_full(offs, parts, ends, 0, target)
        }),
{
    let bytes = text_bytes(source);
    vstd::utf8::encode_utf8_valid_utf8(source);
    lemma_offsets(bytes);
    let offs = spec_offsets(bytes);
    let lines = offs.len() - 1;
    let levels = spec_cut_levels(nodes, table, lines, nodes.len() as int);
    let parts = spec_pieces(offs, levels, max);
    lemma_rest(offs, levels, 0, lines, 0, max);
    assert(spec_filled(offs, parts, 0, parts[0], target)) by {
        assert forall|j: int| 0 <= j < parts.len() implies !(0 < #[trigger] parts[j]
            < parts[0]) by {
            if j > 0 {
                assert(parts[0] < parts[j]);
            }
        }
    }
    lemma_pack_greedy(offs, parts, 1, 0, target);
}

/// No chunk boundary falls inside a node that fits: where the lines of a
/// node are estimated at most `max`, and no boundary as coarse as the
/// node's own lies inside them, no chunk ends between the node's first line
/// and its last. So a class that is too large is cut between its members,
/// never inside a member that fits.
pub proof fn lemma_fitting_node_uncut(
    nodes: Seq<SyntaxNode>,
    source: Seq<char>,
    table: TableModel,
    target: usize,
    max: usize,
    j: int,
)
    requires
        crate::tree::tree_wf(nodes),
        text_bytes(source).len() <= usize::MAX,
        target <= max,
        0 <= j < nodes.len(),
        ({
            let offs = spec_offsets(text_bytes(source));
            let levels = spec_cut_levels(nodes, table, offs.len() - 1, nodes.len() as int);
            let s = nodes[j].location.start_row as int;
            let t = spec_last_row(nodes[j]) + 1;
            &&& s < t < offs.len()
            &&& span_tokens(offs, s, t) <= max
            &&& forall|l: int|
                s < l < t ==> !spec_is_cut(#[trigger] levels[l], spec_level(nodes, table, j))
        }),
    ensures
        spec_clear(
            spec_build_ends(nodes, text_bytes(source), table, target, max),
            nodes[j].location.start_row as int,
            spec_last_row(nodes[j]) + 1,
        ),
{
    let bytes = text_bytes(source);
    vstd::utf8::encode_utf8_valid_utf8(source);
    lemma_offsets(bytes);
    let offs = spec_offsets(bytes);
    let lines = offs.len() - 1;
    let levels = spec_cut_levels(nodes, table, lines, nodes.len() as int);
    let s = nodes[j].location.start_row as int;
    let t = spec_last_row(nodes[j]) + 1;
    let level = spec_level(nodes, table, j);
    lemma_cut_levels(nodes, table, lines, nodes.len() as int, s);
    lemma_cut_levels(nodes, table, lines, nodes.len() as int, t);
    assert(spec_bounds(nodes, j, s));
    assert(spec_bounds(nodes, j, t));
    assert(spec_is_cut(levels[s], level));
    assert(spec_is_cut(levels[t], level));
    lemma_pieces_clear(offs, levels, max, s, t, level);
    let parts = spec_pieces(offs, levels, max);
    lemma_rest(offs, levels, 0, lines, 0, max);
    assert(spec_begin(parts, 0, 0) == 0);
    lemma_pack(offs, parts, 1, 0, target, max);
    let ends = spec_build_ends(nodes, bytes, table, target, max);
    assert forall|i: int| 0 <= i < ends.len() implies !(s < #[trigger] ends[i] < t) by {
        assert(parts.contains(ends[i]));
        let k = choose|k: int| 0 <= k < parts.len() && parts[k] == ends[i];
        assert(!(s < parts[k] < t));
    }
}

/// A function that starts on one of the lines `first..=last` is among those
/// picked for these lines.
pub proof fn lemma_functions_in_holds(
    all: Seq<FunctionModel>,
    first: int,
    last: int,
    k: int,
    i: int,
)
    requires
        0 <= i < k <= all.len(),
        first <= all[i].start_line <= last,
    ensures
        spec_functions_in(all, first, last, k).contains(all[i]),
    decreases k,
{
    let picked = spec_functions_in(all, first, last, k);
    if i == k - 1 {
        assert(picked[picked.len() - 1] == all[i]);
    } else {
        lemma_functions_in_holds(all, first, last, k - 1, i);
        let before = spec_functions_in(all, first, last, k - 1);
        let at = choose|at: int| 0 <= at < before.len() && before[at] == all[i];
        assert(picked[at] == all[i]);
    }
}

/// Every function whose first line is a line of the file is listed in a
/// chunk, the one that owns that line; whatever else the file holds, syntax
/// errors too.
pub proof fn lemma_function_in_a_chunk(
    nodes: Seq<SyntaxNode>,
    source: Seq<char>,
    table: TableModel,
    records: Records,
    sizes: Sizes,
    ids: Seq<Seq<char>>,
    i: int,
)
    requires
        text_bytes(source).len() <= usize::MAX,
        sizes.wf(),
        0 <= i < records.functions.len(),
        1 <= records.functions[i].start_line <= spec_offsets(text_bytes(source)).len() - 1,
    ensures
        exists|c: int|
            0 <= c < spec_build(nodes, text_bytes(source), table, records, sizes, ids).len() && {
                let chunk = #[trigger] spec_build(
                    nodes,
                    text_bytes(source),
                    table,
                    records,
                    sizes,
                    ids,
                )[c];
                &&& chunk.start_line <= records.functions[i].start_line <= chunk.end_line
                &&& chunk.functions.contains(records.functions[i])
            },
{
    let bytes = text_bytes(source);
    let offs = spec_offsets(bytes);
    let lines = offs.len() - 1;
    vstd::utf8::encode_utf8_valid_utf8(source);
    lemma_offsets(bytes);
    lemma_build_ends(nodes, source, table, sizes.target, sizes.max);
    let ends = spec_build_ends(nodes, bytes, table, sizes.target, sizes.max);
    let line = records.functions[i].start_line;
    let c = lemma_tile_holds(ends, 0, lines, line, 0);
    let chunk = spec_build(nodes, bytes, table, records, sizes, ids)[c];
    lemma_functions_in_holds(
        records.functions,
        spec_begin(ends, 0, c) + 1,
        ends[c],
        records.functions.len() as int,
        i,
    );
    assert(chunk.start_line <= line <= chunk.end_line);
    assert(chunk.functions.contains(records.functions[i]));
}

/// Whether the chunk that ends at `ends[c]` owns all of the lines `s..t`.
pub open spec fn spec_owns(ends: Seq<int>, c: int, s: int, t: int) -> bool {
    spec_begin(ends, 0, c) <= s && t <= ends[c]
}

/// A node that fits lies in one chunk: under what `lemma_fitting_node_uncut`
/// asks, one chunk owns every line of the node.
pub proof fn lemma_fitting_node_in_one_chunk(
    nodes: Seq<SyntaxNode>,
    source: Seq<char>,
    table: TableModel,
    target: usize,
    max: usize,
    j: int,
)
    requires
        crate::tree::tree_wf(nodes),
        text_bytes(source).len() <= usize::MAX,
        target <= max,
        0 <= j < nodes.len(),
        ({
            let offs = spec_offsets(text_bytes(source));
            let levels = spec_cut_levels(nodes, table, offs.len() - 1, nodes.len() as int);
            let s = nodes[j].location.start_row as int;
            let t = spec_last_row(nodes[j]) + 1;
            &&& s < t < offs.len()
            &&& span_tokens(offs, s, t) <= max
            &&& forall|l: int|
                s < l < t ==> !spec_is_cut(#[trigger] levels[l], spec_level(nodes, table, j))
        }),
    ensures
        exists|c: int|
            0 <= c < spec_build_ends(nodes, text_bytes(source), table, target, max).len()
                && #[trigger] spec_owns(
                spec_build_ends(nodes, text_bytes(source), table, target, max),
                c,
                nodes[j].location.start_row as int,
                spec_last_row(nodes[j]) + 1,
            ),
{
    let bytes = text_bytes(source);
    let offs = spec_offsets(bytes);
    let lines = offs.len() - 1;
    vstd::utf8::encode_utf8_valid_utf8(source);
    lemma_offsets(bytes);
    lemma_build_ends(nodes, source, table, target, max);
    lemma_fitting_node_uncut(nodes, source, table, target, max, j);
    let ends = spec_build_ends(nodes, bytes, table, target, max);
    let s = nodes[j].location.start_row as int;
    let t = spec_last_row(nodes[j]) + 1;
    let c = lemma_tile_holds(ends, 0, lines, s + 1, 0);
    assert(!(s < ends[c] < t));
    assert(spec_owns(ends, c, s, t));
}

/// A file that is not empty has at least one chunk.
pub proof fn lemma_chunks_nonempty(
    nodes: Seq<SyntaxNode>,
    source: Seq<char>,
    table: TableModel,
    records: Records,
    sizes: Sizes,
    ids: Seq<Seq<char>>,
)
    requires
        text_bytes(source).len() <= usize::MAX,
        sizes.wf(),
        source.len() > 0,
    ensures
        spec_build(nodes, text_bytes(source), table, records, sizes, ids).len() > 0,
{
    assert(text_bytes(source).len() > 0) by {
        reveal_with_fuel(vstd::utf8::encode_utf8, 1);
        vstd::utf8::encode_utf8_decode_utf8(source);
        if text_bytes(source).len() == 0 {
            assert(vstd::utf8::decode_utf8(text_bytes(source)) =~= Seq::<char>::empty());
        }
    }
    lemma_build_ends(nodes, source, table, sizes.target, sizes.max);
}

/// Where no single line is over the largest size allowed, no chunk is: the
/// token count of every chunk is the estimate of its whole text, repeated
/// lines included, and is at most `max`. Every chunk owns at least one line.
pub proof fn lemma_chunks_bounded(
    nodes: Seq<SyntaxNode>,
    source: Seq<char>,
    table: TableModel,
    records: Records,
    sizes: Sizes,
    ids: Seq<Seq<char>>,
    i: int,
)
    requires
        text_bytes(source).len() <= usize::MAX,
        sizes.wf(),
        spec_oversized_line(text_bytes(source), sizes.max) is None,
        0 <= i < spec_build(nodes, text_bytes(source), table, records, sizes, ids).len(),
    ensures
        ({
            let chunk = spec_build(nodes, text_bytes(source), table, records, sizes, ids)[i];
            &&& chunk.tokens == spec_tokens(chunk.text.len() as int)
            &&& chunk.tokens <= sizes.max
            &&& 1 <= chunk.start_line <= chunk.end_line
        }),
{
    let bytes = text_bytes(source);
    let offs = spec_offsets(bytes);
    let ends = spec_build_ends(nodes, bytes, table, sizes.target, sizes.max);
    vstd::utf8::encode_utf8_valid_utf8(source);
    lemma_offsets(bytes);
    if bytes.len() > 0 {
        lemma_build_ends(nodes, source, table, sizes.target, sizes.max);
        let s = spec_begin(ends, 0, i);
        let e = ends[i];
        let t = spec_text_start(offs, ends, i, sizes.overlap, sizes.max);
        assert(e <= ends[ends.len() - 1]);
        assert(spec_own_tokens(offs, ends, i) <= sizes.max);
        if i > 0 {
            assert(ends[0] <= ends[i - 1]);
            assert(ends[i - 1] < ends[i]);
            let floor = spec_begin(ends, 0, i - 1);
            if i > 1 {
                assert(ends[i - 2] < ends[i - 1]);
            }
            lemma_overlap_start(offs, floor, s, s, e, sizes.overlap, sizes.max);
        }
        assert(0 <= t <= s < e < offs.len());
        assert(offs[t] <= offs[e]);
        assert(offs[e] <= offs[offs.len() - 1]);
    }
}

/// The text of a chunk that belongs to its own lines: what is left of the
/// text when the lines repeated from the chunk before it are taken off.
pub open spec fn spec_owned_text(bytes: Seq<u8>, chunk: ChunkModel) -> Seq<u8> {
    let offs = spec_offsets(bytes);
    let own = offs[chunk.end_line] - offs[chunk.start_line - 1];
    chunk.text.subrange(chunk.text.len() - own, chunk.text.len() as int)
}

/// The own texts of the first `k` chunks, one after the other.
pub open spec fn spec_joined(bytes: Seq<u8>, chunks: Seq<ChunkModel>, k: int) -> Seq<u8>
    decreases k,
{
    if k <= 0 {
        Seq::empty()
    } else {
        spec_joined(bytes, chunks, k - 1) + spec_owned_text(bytes, chunks[k - 1])
    }
}

proof fn lemma_joined(
    nodes: Seq<SyntaxNode>,
    source: Seq<char>,
    table: TableModel,
    records: Records,
    sizes: Sizes,
    ids: Seq<Seq<char>>,
    k: int,
)
    requires
        text_bytes(source).len() <= usize::MAX,
        sizes.wf(),
        text_bytes(source).len() > 0,
        1 <= k <= spec_build(nodes, text_bytes(source), table, records, sizes, ids).len(),
    ensures
        ({
            let bytes = text_bytes(source);
            let chunks = spec_build(nodes, bytes, table, records, sizes, ids);
            let ends = spec_build_ends(nodes, bytes, table, sizes.target, sizes.max);
            &&& chunks[k - 1].start_line == spec_begin(ends, 0, k - 1) + 1
            &&& chunks[k - 1].end_line == ends[k - 1]
            &&& spec_joined(bytes, chunks, k) == bytes.subrange(
                0,
                spec_offsets(bytes)[ends[k - 1]] as int,
            )
        }),
    decreases k,
{
    let bytes = text_bytes(source);
    let offs = spec_offsets(bytes);
    let chunks = spec_build(nodes, bytes, table, records, sizes, ids);
    let ends = spec_build_ends(nodes, bytes, table, sizes.target, sizes.max);
    vstd::utf8::encode_utf8_valid_utf8(source);
    lemma_offsets(bytes);
    lemma_build_ends(nodes, source, table, sizes.target, sizes.max);
    let i = k - 1;
    let s = spec_begin(ends, 0, i);
    let e = ends[i];
    let t = spec_text_start(offs, ends, i, sizes.overlap, sizes.max);
    assert(e <= ends[ends.len() - 1]);
    if i > 0 {
        lemma_joined(nodes, source, table, records, sizes, ids, k - 1);
        assert(ends[0] <= ends[i - 1]);
        assert(ends[i - 1] < ends[i]);
        let floor = spec_begin(ends, 0, i - 1);
        if i > 1 {
            assert(ends[i - 2] < ends[i - 1]);
        }
        lemma_overlap_start(offs, floor, s, s, e, sizes.overlap, sizes.max);
    }
    assert(0 <= t <= s < e < offs.len());
    assert(offs[t] <= offs[s]);
    assert(offs[s] < offs[e]);
    assert(offs[e] <= offs[offs.len() - 1]);
    let owned = spec_owned_text(bytes, chunks[i]);
    assert(chunks[i].text == bytes.subrange(offs[t] as int, offs[e] as int));
    assert(chunks[i].start_line == s + 1 && chunks[i].end_line == e);
    assert(owned =~= bytes.subrange(offs[s] as int, offs[e] as int));
    let before = spec_joined(bytes, chunks, k - 1);
    assert(spec_joined(bytes, chunks, k) == before + owned);
    assert(before =~= bytes.subrange(0, offs[s] as int));
    assert(before + owned =~= bytes.subrange(0, offs[e] as int));
}

/// The own texts of the chunks of a file, one after the other, are the file:
/// nothing is lost, added or reordered. The chunks own consecutive lines,
/// from the first line of the file to its last.
pub proof fn lemma_chunks_reconstruct(
    nodes: Seq<SyntaxNode>,
    source: Seq<char>,
    table: TableModel,
    records: Records,
    sizes: Sizes,
    ids: Seq<Seq<char>>,
)
    requires
        text_bytes(source).len() <= usize::MAX,
        sizes.wf(),
    ensures
        ({
            let bytes = text_bytes(source);
            let chunks = spec_build(nodes, bytes, table, records, sizes, ids);
            &&& spec_joined(bytes, chunks, chunks.len() as int) == bytes
            &&& chunks.len() > 0 ==> chunks[0].start_line == 1 && chunks[chunks.len() - 1].end_line
                == spec_offsets(bytes).len() - 1
            &&& forall|i: int|
                0 < i < chunks.len() ==> (#[trigger] chunks[i]).start_line == chunks[i
                    - 1].end_line + 1
        }),
{
    let bytes = text_bytes(source);
    let chunks = spec_build(nodes, bytes, table, records, sizes, ids);
    let ends = spec_build_ends(nodes, bytes, table, sizes.target, sizes.max);
    vstd::utf8::encode_utf8_valid_utf8(source);
    lemma_offsets(bytes);
    if bytes.len() > 0 {
        lemma_build_ends(nodes, source, table, sizes.target, sizes.max);
        lemma_joined(nodes, source, table, records, sizes, ids, chunks.len() as int);
        assert(spec_joined(bytes, chunks, chunks.len() as int) =~= bytes);
        lemma_joined(nodes, source, table, records, sizes, ids, 1);
        assert forall|i: int| 0 < i < chunks.len() implies (#[trigger] chunks[i]).start_line
            == chunks[i - 1].end_line + 1 by {
            lemma_joined(nodes, source, table, records, sizes, ids, i + 1);
            lemma_joined(nodes, source, table, records, sizes, ids, i);
        }
    } else {
        assert(spec_joined(bytes, chunks, chunks.len() as int) =~= bytes);
    }
}

/// Chunk code into semantic units with the default sizes: the functions,
/// classes and imports of the tree are found under the table of the named
/// language, and the chunks are built from them. Fails with
/// `UnsupportedLanguage` exactly for a name that names no supported
/// language, and otherwise exactly when a single line is over the largest
/// chunk allowed.
pub fn chunk_code(tree: &SyntaxTree, source: &str, language: &str) -> (r: Result<
    Vec<CodeChunk>,
    PrismError,
>)
    requires
        tree.wf(),
    ensures
        match LanguageId::spec_parse(language@) {
            None => r matches Err(e) && e == PrismError::UnsupportedLanguage(
                e->UnsupportedLanguage_0,
            ) && e->UnsupportedLanguage_0@ == language@,
            Some(id) => match r {
                Ok(chunks) => spec_oversized_line(text_bytes(source@), MAX_CHUNK_SIZE) is None
                    && ids_drawn(chunk_ids(chunks@)) && chunks_model(chunks@) == spec_build(
                    tree@,
                    text_bytes(source@),
                    spec_table(id),
                    spec_records(tree@, text_bytes(source@), spec_table(id), language@),
                    spec_default_sizes(),
                    chunk_ids(chunks@),
                ),
                Err(e) => spec_oversized_line(text_bytes(source@), MAX_CHUNK_SIZE) matches Some(l)
                    && e == (PrismError::ChunkTooLarge {
                    actual: line_tokens(spec_offsets(text_bytes(source@)), l) as usize,
                    max: MAX_CHUNK_SIZE,
                }),
            },
        },
{
    let id = match LanguageId::parse(language) {
        Some(id) => id,
        None => {
            return Err(PrismError::UnsupportedLanguage(String::from_str(language)));
        },
    };
    let table = classification_table(id);
    let o = outline(tree, &table);
    let functions = functions_with(tree, source, &table, &o);
    let classes = classes_with(tree, source, &table, &o);
    let imports = imports_with(tree, source, &table, &o);
    build_chunks(
        tree,
        source,
        &table,
        language,
        &functions,
        &classes,
        &imports,
        DEFAULT_CHUNK_SIZE,
        MAX_CHUNK_SIZE,
        DEFAULT_OVERLAP,
    )
}

/// The default sizes.
pub open spec fn spec_default_sizes() -> Sizes {
    Sizes { target: DEFAULT_CHUNK_SIZE, max: MAX_CHUNK_SIZE, overlap: DEFAULT_OVERLAP }
}

/// The records that the walk finds in a tree, under a language's name.
pub open spec fn spec_records(
    nodes: Seq<SyntaxNode>,
    bytes: Seq<u8>,
    table: TableModel,
    language: Seq<char>,
) -> Records {
    Records {
        language,
        functions: spec_functions(nodes, bytes, table, nodes.len() as int),
        classes: spec_classes(nodes, bytes, table, nodes.len() as int),
        imports: spec_imports(nodes, bytes, table, nodes.len() as int),
    }
}

/// No syntax boundary before any line of a text of `lines` lines.
pub open spec fn spec_no_levels(lines: int) -> Seq<Option<usize>> {
    Seq::new((lines + 1) as nat, |l: int| None)
}

/// Number of lines at the head of a chunk's text that the chunk repeats
/// from the chunk before it: what its text holds beyond its own lines.
/// None where the text does not hold as many lines as the chunk owns.
pub open spec fn spec_repeated(chunk: ChunkModel) -> int {
    let lines = spec_offsets(chunk.text).len() - 1;
    let own = chunk.end_line - chunk.start_line + 1;
    if 0 < own <= lines {
        lines - own
    } else {
        0
    }
}

/// The part of a chunk that owns the lines `b..e` of its text, counted from
/// zero, where the chunk's own lines begin at line `k` of the text. The
/// part that owns the chunk's first line keeps the repeated lines before
/// it; every part keeps the records that start on its own lines.
pub open spec fn spec_fragment(
    chunk: ChunkModel,
    offs: Seq<usize>,
    k: int,
    b: int,
    e: int,
    id: Seq<char>,
) -> ChunkModel {
    let first = chunk.start_line + (b - k);
    let last = chunk.start_line + (e - k) - 1;
    let t = if b == k {
        0
    } else {
        b
    };
    ChunkModel {
        id,
        text: chunk.text.subrange(offs[t] as int, offs[e] as int),
        start_line: first,
        end_line: last,
        tokens: span_tokens(offs, t, e),
        language: chunk.language,
        functions: spec_functions_in(chunk.functions, first, last, chunk.functions.len() as int),
        classes: spec_classes_in(chunk.classes, first, last, chunk.classes.len() as int),
        imports: spec_imports_in(chunk.imports, first, last, chunk.imports.len() as int),
        dependencies: chunk.dependencies,
    }
}

/// Whether a chunk is left whole: its text is empty or is estimated at most
/// `target`.
pub open spec fn spec_kept_whole(chunk: ChunkModel, target: usize) -> bool {
    let offs = spec_offsets(chunk.text);
    offs.len() <= 1 || span_tokens(offs, 0, offs.len() - 1) <= target
}

/// The ends of the parts into which the own lines of a chunk are split: at
/// the middle line, and each half again, until a part is a single line or
/// is estimated at most `target`.
pub open spec fn spec_split_ends(chunk: ChunkModel, target: usize) -> Seq<int> {
    let offs = spec_offsets(chunk.text);
    spec_plan(offs, spec_no_levels(offs.len() - 1), spec_repeated(chunk), offs.len() - 1, target)
}

/// The parts into which a chunk is split, part `i` under the `i`-th of the
/// ids: the chunk itself, under its own id, where it is left whole.
pub open spec fn spec_split(chunk: ChunkModel, target: usize, ids: Seq<Seq<char>>) -> Seq<
    ChunkModel,
> {
    if spec_kept_whole(chunk, target) {
        seq![chunk]
    } else {
        let ends = spec_split_ends(chunk, target);
        let k = spec_repeated(chunk);
        Seq::new(
            ends.len(),
            |i: int|
                spec_fragment(
                    chunk,
                    spec_offsets(chunk.text),
                    k,
                    spec_begin(ends, k, i),
                    ends[i],
                    ids[i],
                ),
        )
    }
}

/// The own lines of every part of a split chunk are a single line or are
/// estimated at most `target`; the token count of a part is the estimate
/// of its text, which for every part but the first is its own lines alone.
pub proof fn lemma_split_bounded(chunk: ChunkModel, target: usize, ids: Seq<Seq<char>>, i: int)
    requires
        chunk.text.len() <= usize::MAX,
        vstd::utf8::valid_utf8(chunk.text),
        !spec_kept_whole(chunk, target),
        0 <= i < spec_split(chunk, target, ids).len(),
    ensures
        ({
            let part = spec_split(chunk, target, ids)[i];
            let offs = spec_offsets(chunk.text);
            let ends = spec_split_ends(chunk, target);
            let b = spec_begin(ends, spec_repeated(chunk), i);
            &&& part.tokens == spec_tokens(part.text.len() as int)
            &&& span_tokens(offs, b, ends[i]) <= target || part.start_line == part.end_line
            &&& i > 0 ==> part.tokens == span_tokens(offs, b, ends[i])
            &&& part.start_line <= part.end_line
        }),
{
    let offs = spec_offsets(chunk.text);
    let lines = offs.len() - 1;
    let k = spec_repeated(chunk);
    let ends = spec_split_ends(chunk, target);
    lemma_offsets(chunk.text);
    lemma_plan(offs, spec_no_levels(lines), k, lines, target);
    let b = spec_begin(ends, k, i);
    assert(ends[i] <= ends[ends.len() - 1]);
    if i > 0 {
        assert(ends[0] <= ends[i - 1]);
        assert(ends[i - 1] < ends[i]);
    }
    assert(ends[i] - b == 1 || span_tokens(offs, b, ends[i]) <= target);
    assert(offs[0] <= offs[b]);
    assert(offs[b] <= offs[ends[i]]);
    assert(offs[ends[i]] <= offs[offs.len() - 1]);
}

/// Makes the part of a chunk that owns the lines `b..e` of its text, where
/// the chunk's own lines begin at line `k`, under the given id.
pub fn make_fragment(
    chunk: &CodeChunk,
    offs: &Vec<usize>,
    k: usize,
    b: usize,
    e: usize,
    id: String,
) -> (r: CodeChunk)
    requires
        offsets_match(offs@, spec_line_offsets(text_bytes(chunk.text@))),
        k <= b < e < offs@.len(),
        chunk.start_line + offs@.len() <= usize::MAX,
    ensures
        r@ == spec_fragment(chunk@, offs@, k as int, b as int, e as int, id@),
{
    let t = if b == k {
        0
    } else {
        b
    };
    proof {
        vstd::utf8::encode_utf8_valid_utf8(chunk.text@);
        lemma_offsets_match(offs@, text_bytes(chunk.text@));
        lemma_offsets(text_bytes(chunk.text@));
        assert(offs@[t as int] <= offs@[e as int]);
        assert(offs@[e as int] <= offs@[offs@.len() - 1]);
    }
    let text = match slice_text(chunk.text.as_str(), offs[t], offs[e]) {
        Some(text) => text,
        None => String::new(),
    };
    let first = chunk.start_line + (b - k);
    let last = chunk.start_line + (e - k) - 1;
    CodeChunk {
        id,
        text,
        start_line: first,
        end_line: last,
        tokens: tokens_between(offs, t, e),
        language: chunk.language.clone(),
        functions: functions_in(&chunk.functions, first, last),
        classes: classes_in(&chunk.classes, first, last),
        imports: imports_in(&chunk.imports, first, last),
        dependencies: clone_texts(&chunk.dependencies),
    }
}

/// Split large chunks into smaller pieces along the lines of their text,
/// with no regard to syntax. A chunk whose text is empty or is estimated at
/// most `target_size` comes back alone and unchanged, under its own id.
/// Of any other the own lines are split at their middle line, and each half
/// again, until every part is a single line or is estimated at most
/// `target_size`. The parts come back in order, each under a freshly drawn
/// id of 36 characters; the lines that the chunk repeats from the chunk
/// before it stay at the head of the first part.
pub fn split_large_chunk(chunk: &CodeChunk, target_size: usize) -> (r: Vec<CodeChunk>)
    requires
        chunk.start_line + spec_offsets(text_bytes(chunk.text@)).len() <= usize::MAX,
    ensures
        chunks_model(r@) == spec_split(chunk@, target_size, chunk_ids(r@)),
        !spec_kept_whole(chunk@, target_size) ==> ids_drawn(chunk_ids(r@)),
{
    let mut r: Vec<CodeChunk> = Vec::new();
    let offs = line_offsets(chunk.text.as_str());
    proof {
        vstd::utf8::encode_utf8_valid_utf8(chunk.text@);
        lemma_offsets_match(offs@, text_bytes(chunk.text@));
        lemma_offsets(text_bytes(chunk.text@));
    }
    let lines = offs.len() - 1;
    if lines == 0 || tokens_between(&offs, 0, lines) <= target_size {
        r.push(clone_chunk(chunk));
        assert(chunks_model(r@) =~= seq![chunk@]);
        return r;
    }
    let repeated = if chunk.end_line >= chunk.start_line && chunk.end_line - chunk.start_line
        < lines {
        lines - (chunk.end_line - chunk.start_line) - 1
    } else {
        0
    };
    assert(repeated == spec_repeated(chunk@));
    let mut levels: Vec<Option<usize>> = Vec::new();
    let mut l: usize = 0;
    while l <= lines
        invariant
            l <= lines + 1,
            lines < usize::MAX,
            levels@.len() == l,
            forall|i: int| 0 <= i < l ==> (#[trigger] levels@[i]) is None,
        decreases lines + 1 - l,
    {
        levels.push(None);
        l = l + 1;
    }
    assert(levels@ =~= spec_no_levels(lines as int));
    let ends = plan_span(&offs, &levels, Span { lo: repeated, hi: lines, level: None }, target_size);
    let ghost e = as_ints(ends@);
    proof {
        lemma_plan(offs@, levels@, repeated as int, lines as int, target_size);
        assert(e =~= spec_split_ends(chunk@, target_size));
    }
    let count = ends.len();
    let ids = draw_ids(count);
    let mut i: usize = 0;
    while i < count
        invariant
            i <= count,
            count == ends@.len(),
            count == ids@.len(),
            ids_drawn(labels_model(ids@)),
            e == as_ints(ends@),
            e == spec_split_ends(chunk@, target_size),
            repeated == spec_repeated(chunk@),
            !spec_kept_whole(chunk@, target_size),
            spec_tiles(e, repeated as int, lines as int),
            offs@ == spec_offsets(text_bytes(chunk.text@)),
            offsets_match(offs@, spec_line_offsets(text_bytes(chunk.text@))),
            lines == offs@.len() - 1,
            chunk.start_line + offs@.len() <= usize::MAX,
            r@.len() == i,
            forall|k: int|
                0 <= k < i ==> (#[trigger] r@[k])@ == spec_split(
                    chunk@,
                    target_size,
                    labels_model(ids@),
                )[k],
        decreases count - i,
    {
        let end = ends[i];
        assert(e[i as int] == end);
        assert(e[i as int] <= e[count - 1]);
        let begin = if i == 0 {
            repeated
        } else {
            assert(e[0] <= e[i - 1]);
            assert(e[i - 1] < e[i as int]);
            ends[i - 1]
        };
        let part = make_fragment(chunk, &offs, repeated, begin, end, ids[i].clone());
        assert(part.id@ == labels_model(ids@)[i as int]);
        r.push(part);
        i = i + 1;
    }
    assert(chunks_model(r@) =~= spec_split(chunk@, target_size, labels_model(ids@)));
    assert(chunk_ids(r@) =~= labels_model(ids@)) by {
        assert forall|k: int| 0 <= k < r@.len() implies r@[k].id@ == labels_model(ids@)[k] by {
            assert(chunks_model(r@)[k] == r@[k]@);
        }
    }
    r
}

/// Two runs on the same tree, text, records and sizes give chunks that own
/// the same lines and hold the same text; only their ids may differ.
pub proof fn lemma_chunks_determined(
    first: Seq<CodeChunk>,
    second: Seq<CodeChunk>,
    nodes: Seq<SyntaxNode>,
    bytes: Seq<u8>,
    table: TableModel,
    records: Records,
    sizes: Sizes,
)
    requires
        chunks_model(first) == spec_build(nodes, bytes, table, records, sizes, chunk_ids(first)),
        chunks_model(second) == spec_build(nodes, bytes, table, records, sizes, chunk_ids(second)),
    ensures
        first.len() == second.len(),
        forall|i: int|
            0 <= i < first.len() ==> {
                &&& (#[trigger] first[i]).start_line == second[i].start_line
                &&& first[i].end_line == second[i].end_line
                &&& first[i].text@ == second[i].text@
                &&& first[i].tokens == second[i].tokens
            },
{
    let a = spec_build(nodes, bytes, table, records, sizes, chunk_ids(first));
    let b = spec_build(nodes, bytes, table, records, sizes, chunk_ids(second));
    assert(chunks_model(first).len() == first.len());
    assert(chunks_model(second).len() == second.len());
    assert(a.len() == b.len());
    assert forall|i: int| 0 <= i < first.len() implies {
        &&& (#[trigger] first[i]).start_line == second[i].start_line
        &&& first[i].end_line == second[i].end_line
        &&& first[i].text@ == second[i].text@
        &&& first[i].tokens == second[i].tokens
    } by {
        assert(chunks_model(first)[i] == first[i]@);
        assert(chunks_model(second)[i] == second[i]@);
        assert(a[i].text == b[i].text);
        assert(a[i].start_line == b[i].start_line);
        assert(a[i].end_line == b[i].end_line);
        assert(a[i].tokens == b[i].tokens);
        vstd::utf8::encode_utf8_decode_utf8(first[i].text@);
        vstd::utf8::encode_utf8_decode_utf8(second[i].text@);
    }
}

} // verus!
