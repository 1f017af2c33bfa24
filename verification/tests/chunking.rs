use prism_indexer::chunker::{chunk_ends, chunks_with_ids, draw_ids, make_chunk, make_fragment};
use prism_indexer::text::{line_offsets, slice_text};
use prism_indexer::{
    build_chunks, chunk_code, classification_table, estimate_tokens, extract_classes,
    extract_functions, extract_imports, split_large_chunk, CodeChunk, LanguageId, PrismError,
    SourceLocation, SyntaxNode, SyntaxTree, DEFAULT_CHUNK_SIZE, DEFAULT_OVERLAP, MAX_CHUNK_SIZE,
};

fn node(
    kind: &str,
    field: Option<&str>,
    parent: usize,
    named: bool,
    bytes: (usize, usize),
    start: (usize, usize),
    end: (usize, usize),
) -> SyntaxNode {
    SyntaxNode {
        kind: kind.to_string(),
        field: field.map(|f| f.to_string()),
        parent,
        named,
        error: false,
        missing: false,
        start_byte: bytes.0,
        end_byte: bytes.1,
        location: SourceLocation {
            start_row: start.0,
            start_column: start.1,
            end_row: end.0,
            end_column: end.1,
        },
    }
}

/// `count` lines of seven letters and a line feed: two tokens each.
fn lines_of(count: usize) -> String {
    "aaaaaaa\n".repeat(count)
}

/// A tree that is a root alone over `rows` rows.
fn bare_tree(rows: usize) -> SyntaxTree {
    SyntaxTree::new(vec![node("module", None, 0, true, (0, rows * 8), (0, 0), (rows, 0))]).unwrap()
}

/// A tree whose root holds one unnamed function on each of `rows` rows.
fn tree_of_one_line_functions(rows: usize) -> SyntaxTree {
    let mut nodes = vec![node("module", None, 0, true, (0, rows * 8), (0, 0), (rows, 0))];
    for r in 0..rows {
        nodes.push(node(
            "function_definition",
            None,
            0,
            true,
            (r * 8, r * 8 + 7),
            (r, 0),
            (r, 7),
        ));
    }
    SyntaxTree::new(nodes).unwrap()
}

fn build(
    tree: &SyntaxTree,
    source: &str,
    target: usize,
    max: usize,
    overlap: usize,
) -> Result<Vec<CodeChunk>, PrismError> {
    let table = classification_table(LanguageId::Python);
    let functions = extract_functions(tree, source, &table);
    let classes = extract_classes(tree, source, &table);
    let imports = extract_imports(tree, source, &table);
    build_chunks(
        tree, source, &table, "python", &functions, &classes, &imports, target, max, overlap,
    )
}

fn spans(chunks: &[CodeChunk]) -> Vec<(usize, usize, usize)> {
    chunks.iter().map(|c| (c.start_line, c.end_line, c.tokens)).collect()
}

#[test]
fn estimate_is_a_quarter_of_the_bytes_rounded_down() {
    assert_eq!(estimate_tokens(""), 0);
    assert_eq!(estimate_tokens("abc"), 0);
    assert_eq!(estimate_tokens("abcd"), 1);
    assert_eq!(estimate_tokens("abcdefg"), 1);
    assert_eq!(estimate_tokens("def f(x):\n    return x\n"), 5);
    // two bytes for each of the four letters
    assert_eq!(estimate_tokens("éééé"), 2);
}

#[test]
fn default_sizes() {
    assert_eq!(DEFAULT_CHUNK_SIZE, 512);
    assert_eq!(DEFAULT_OVERLAP, 128);
    assert_eq!(MAX_CHUNK_SIZE, 1000);
}

#[test]
fn line_offsets_bound_the_lines() {
    assert_eq!(line_offsets(""), vec![0]);
    assert_eq!(line_offsets("a"), vec![0, 1]);
    assert_eq!(line_offsets("a\n"), vec![0, 2]);
    assert_eq!(line_offsets("a\nb"), vec![0, 2, 3]);
    assert_eq!(line_offsets("\n\n"), vec![0, 1, 2]);
    assert_eq!(line_offsets("é\nb\n"), vec![0, 3, 5]);
}

#[test]
fn slice_text_refuses_what_cuts_a_character() {
    assert_eq!(slice_text("héllo", 0, 1), Some("h".to_string()));
    assert_eq!(slice_text("héllo", 1, 3), Some("é".to_string()));
    assert_eq!(slice_text("héllo", 1, 2), None);
    assert_eq!(slice_text("héllo", 2, 3), None);
    assert_eq!(slice_text("héllo", 3, 2), None);
    assert_eq!(slice_text("héllo", 0, 7), None);
    assert_eq!(slice_text("héllo", 6, 6), Some(String::new()));
}

#[test]
fn empty_file_has_no_chunks() {
    let tree = bare_tree(0);
    let chunks = build(&tree, "", 4, 5, 2).unwrap();
    assert!(chunks.is_empty());
}

#[test]
fn small_file_is_one_chunk() {
    let source = lines_of(3);
    let chunks = build(&bare_tree(3), &source, 10, 20, 2).unwrap();
    assert_eq!(spans(&chunks), vec![(1, 3, 6)]);
    assert_eq!(chunks[0].text, source);
    assert_eq!(chunks[0].language, "python");
    assert_eq!(chunks[0].id.len(), 36);
}

#[test]
fn a_unit_that_meets_the_target_exactly_is_included() {
    // eight functions of two tokens each, target four: two to a chunk
    let source = lines_of(8);
    let chunks = build(&tree_of_one_line_functions(8), &source, 4, 100, 0).unwrap();
    assert_eq!(spans(&chunks), vec![(1, 2, 4), (3, 4, 4), (5, 6, 4), (7, 8, 4)]);
    // target five: a third function would make six
    let chunks = build(&tree_of_one_line_functions(8), &source, 5, 100, 0).unwrap();
    assert_eq!(spans(&chunks), vec![(1, 2, 4), (3, 4, 4), (5, 6, 4), (7, 8, 4)]);
    // target six: three to a chunk
    let chunks = build(&tree_of_one_line_functions(8), &source, 6, 100, 0).unwrap();
    assert_eq!(spans(&chunks), vec![(1, 3, 6), (4, 6, 6), (7, 8, 4)]);
}

#[test]
fn a_span_without_boundaries_is_halved_until_it_fits() {
    // sixteen tokens, no chunk over five: halves of eight, then of four
    let source = lines_of(8);
    let chunks = build(&bare_tree(8), &source, 4, 5, 2).unwrap();
    assert_eq!(spans(&chunks), vec![(1, 2, 4), (3, 4, 4), (5, 6, 4), (7, 8, 4)]);
    for chunk in &chunks {
        assert_eq!(chunk.text, lines_of(2));
    }
}

#[test]
fn a_chunk_repeats_the_last_lines_of_the_one_before() {
    let source = lines_of(8);
    // one more line would be four tokens of overlap, over the two allowed
    let chunks = build(&bare_tree(8), &source, 4, 6, 2).unwrap();
    assert_eq!(spans(&chunks), vec![(1, 2, 4), (3, 4, 6), (5, 6, 6), (7, 8, 6)]);
    assert_eq!(chunks[0].text, lines_of(2));
    assert_eq!(chunks[1].text, lines_of(3));
    // the overlap may reach back to the start of the chunk before, no further
    let chunks = build(&tree_of_one_line_functions(8), &source, 5, 100, 4).unwrap();
    assert_eq!(spans(&chunks), vec![(1, 2, 4), (3, 4, 8), (5, 6, 8), (7, 8, 8)]);
    assert_eq!(chunks[1].text, lines_of(4));
}

#[test]
fn a_unit_between_target_and_maximum_stays_whole() {
    let source = lines_of(8);
    let chunks = build(&bare_tree(8), &source, 5, 100, 4).unwrap();
    assert_eq!(spans(&chunks), vec![(1, 8, 16)]);
}

#[test]
fn overlap_never_lifts_a_chunk_over_the_maximum() {
    let source = lines_of(8);
    let chunks = build(&bare_tree(8), &source, 4, 5, 2).unwrap();
    for chunk in &chunks {
        assert!(chunk.tokens <= 5);
        assert_eq!(chunk.tokens, estimate_tokens(&chunk.text));
    }
}

#[test]
fn own_lines_put_together_give_the_file_back() {
    let source = "import os\n\ndef a():\n    return 1\n\n\ndef b():\n    return os.sep\n# end";
    let table = classification_table(LanguageId::Python);
    let tree = bare_tree(9);
    let chunks = build_chunks(
        &tree, source, &table, "python", &Vec::new(), &Vec::new(), &Vec::new(), 3, 4, 2,
    )
    .unwrap();
    assert!(chunks.len() >= 2);
    let offsets = line_offsets(source);
    let mut joined = String::new();
    let mut next_line = 1;
    for chunk in &chunks {
        assert_eq!(chunk.start_line, next_line);
        assert!(chunk.start_line <= chunk.end_line);
        let own = offsets[chunk.end_line] - offsets[chunk.start_line - 1];
        joined.push_str(&chunk.text[chunk.text.len() - own..]);
        next_line = chunk.end_line + 1;
        assert!(chunk.tokens <= 4);
    }
    assert_eq!(next_line, 10);
    assert_eq!(joined, source);
}

#[test]
fn a_line_over_the_maximum_is_reported() {
    let source = format!("{}{}\n{}", lines_of(1), "b".repeat(40), lines_of(1));
    match build(&bare_tree(3), &source, 4, 5, 2) {
        Err(PrismError::ChunkTooLarge { actual, max }) => {
            assert_eq!(actual, 10);
            assert_eq!(max, 5);
        }
        _ => panic!("expected a chunk that is too large"),
    }
    // the same line is fine where the maximum allows it
    let chunks = build(&bare_tree(3), &source, 4, 10, 2).unwrap();
    assert_eq!(spans(&chunks), vec![(1, 1, 2), (2, 2, 10), (3, 3, 2)]);
}

#[test]
fn an_oversized_class_is_cut_at_its_members() {
    // row 0: class line; rows 1-3: first method; rows 4-6: second method
    let source = lines_of(7);
    let nodes = vec![
        node("module", None, 0, true, (0, 56), (0, 0), (7, 0)),
        node("class_definition", None, 0, true, (0, 55), (0, 0), (6, 7)),
        node("identifier", Some("name"), 1, true, (0, 3), (0, 0), (0, 3)),
        node("block", Some("body"), 1, true, (8, 55), (1, 0), (6, 7)),
        node("function_definition", None, 3, true, (8, 31), (1, 0), (3, 7)),
        node("identifier", Some("name"), 4, true, (8, 11), (1, 0), (1, 3)),
        node("function_definition", None, 3, true, (32, 55), (4, 0), (6, 7)),
        node("identifier", Some("name"), 6, true, (32, 35), (4, 0), (4, 3)),
    ];
    let tree = SyntaxTree::new(nodes).unwrap();
    // the class is fourteen tokens, over the ten allowed
    let chunks = build(&tree, &source, 8, 10, 0).unwrap();
    assert_eq!(spans(&chunks), vec![(1, 4, 8), (5, 7, 6)]);
    assert_eq!(chunks[0].classes.len(), 1);
    assert_eq!(chunks[0].functions.len(), 1);
    assert_eq!(chunks[1].functions.len(), 1);
    assert_eq!(chunks[1].classes.len(), 0);
    // where it fits it stays whole
    let chunks = build(&tree, &source, 8, 14, 0).unwrap();
    assert_eq!(spans(&chunks), vec![(1, 7, 14)]);
}

#[test]
fn code_between_units_is_a_unit_of_its_own() {
    // rows 0-1 loose, rows 2-3 a function, rows 4-5 loose
    let source = lines_of(6);
    let nodes = vec![
        node("module", None, 0, true, (0, 48), (0, 0), (6, 0)),
        node("function_definition", None, 0, true, (16, 31), (2, 0), (3, 7)),
    ];
    let tree = SyntaxTree::new(nodes).unwrap();
    let chunks = build(&tree, &source, 5, 100, 0).unwrap();
    assert_eq!(spans(&chunks), vec![(1, 2, 4), (3, 4, 4), (5, 6, 4)]);
    let chunks = build(&tree, &source, 8, 100, 0).unwrap();
    assert_eq!(spans(&chunks), vec![(1, 4, 8), (5, 6, 4)]);
}

#[test]
fn chunk_code_uses_the_default_sizes() {
    let source = lines_of(600);
    let chunks = chunk_code(&bare_tree(600), &source, "python").unwrap();
    // 1200 tokens: halves of 600 fit the maximum but not the target
    assert_eq!(chunks.len(), 2);
    assert_eq!((chunks[0].start_line, chunks[0].end_line, chunks[0].tokens), (1, 300, 600));
    assert_eq!((chunks[1].start_line, chunks[1].end_line), (301, 600));
    // 64 lines of overlap are 128 tokens
    assert_eq!(chunks[1].tokens, 728);
    assert_ne!(chunks[0].id, chunks[1].id);
    match chunk_code(&bare_tree(600), &source, "ruby") {
        Err(PrismError::UnsupportedLanguage(name)) => assert_eq!(name, "ruby"),
        _ => panic!("expected an unsupported language"),
    }
}

#[test]
fn make_chunk_keeps_the_given_id() {
    let source = lines_of(4);
    let offsets = line_offsets(&source);
    let chunk = make_chunk(
        &source,
        &offsets,
        1,
        2,
        4,
        "go",
        &Vec::new(),
        &Vec::new(),
        &Vec::new(),
        vec!["fmt".to_string()],
        "an-id".to_string(),
    );
    assert_eq!(chunk.id, "an-id");
    assert_eq!(chunk.text, lines_of(3));
    assert_eq!((chunk.start_line, chunk.end_line, chunk.tokens), (3, 4, 6));
    assert_eq!(chunk.language, "go");
    assert_eq!(chunk.dependencies, vec!["fmt".to_string()]);
}

fn chunk_of(text: &str, start_line: usize, end_line: usize) -> CodeChunk {
    CodeChunk {
        id: "whole".to_string(),
        text: text.to_string(),
        start_line,
        end_line,
        tokens: estimate_tokens(text),
        language: "rust".to_string(),
        functions: Vec::new(),
        classes: Vec::new(),
        imports: Vec::new(),
        dependencies: vec!["std".to_string()],
    }
}

#[test]
fn split_leaves_a_small_chunk_alone() {
    let chunk = chunk_of(&lines_of(4), 11, 14);
    let parts = split_large_chunk(&chunk, 8);
    assert_eq!(parts.len(), 1);
    assert_eq!(parts[0].id, "whole");
    assert_eq!(parts[0].text, chunk.text);
    assert_eq!((parts[0].start_line, parts[0].end_line, parts[0].tokens), (11, 14, 8));
    let empty = chunk_of("", 3, 3);
    let parts = split_large_chunk(&empty, 0);
    assert_eq!(parts.len(), 1);
    assert_eq!(parts[0].id, "whole");
}

#[test]
fn split_halves_a_large_chunk_along_its_lines() {
    let chunk = chunk_of(&lines_of(5), 11, 15);
    let parts = split_large_chunk(&chunk, 4);
    // five lines: two and three; the three again one and two
    assert_eq!(spans(&parts), vec![(11, 12, 4), (13, 13, 2), (14, 15, 4)]);
    assert_eq!(parts[0].text, lines_of(2));
    assert_eq!(parts[1].text, lines_of(1));
    assert_eq!(parts[2].text, lines_of(2));
    let joined: String = parts.iter().map(|p| p.text.clone()).collect();
    assert_eq!(joined, chunk.text);
    for part in &parts {
        assert_ne!(part.id, "whole");
        assert_eq!(part.language, "rust");
        assert_eq!(part.dependencies, vec!["std".to_string()]);
    }
}

#[test]
fn split_keeps_a_single_line_that_is_too_long() {
    let chunk = chunk_of(&format!("{}\n{}", "c".repeat(40), lines_of(1)), 1, 2);
    let parts = split_large_chunk(&chunk, 4);
    assert_eq!(spans(&parts), vec![(1, 1, 10), (2, 2, 2)]);
}

#[test]
fn chunks_go_under_the_ids_they_are_given() {
    let source = lines_of(8);
    let tree = tree_of_one_line_functions(8);
    let table = classification_table(LanguageId::Python);
    let ends = chunk_ends(&tree, &source, &table, 4, 100).unwrap();
    assert_eq!(ends, vec![2, 4, 6, 8]);
    let ids: Vec<String> = vec!["a".into(), "b".into(), "c".into(), "d".into()];
    let chunks = chunks_with_ids(
        &tree, &source, &table, "python", &Vec::new(), &Vec::new(), &Vec::new(), &ends, 100, 2,
        &ids,
    );
    let given: Vec<&str> = chunks.iter().map(|c| c.id.as_str()).collect();
    assert_eq!(given, vec!["a", "b", "c", "d"]);
    assert_eq!(spans(&chunks), vec![(1, 2, 4), (3, 4, 6), (5, 6, 6), (7, 8, 6)]);
    match chunk_ends(&tree, &source, &table, 1, 1) {
        Err(PrismError::ChunkTooLarge { actual, max }) => assert_eq!((actual, max), (2, 1)),
        _ => panic!("expected a chunk that is too large"),
    }
}

#[test]
fn drawn_ids_are_36_characters_each() {
    let ids = draw_ids(5);
    assert_eq!(ids.len(), 5);
    for id in &ids {
        assert_eq!(id.len(), 36);
        assert_eq!(id.matches('-').count(), 4);
    }
    for i in 0..5 {
        for j in 0..i {
            assert_ne!(ids[i], ids[j]);
        }
    }
    assert!(draw_ids(0).is_empty());
}

#[test]
fn split_keeps_the_repeated_lines_with_the_first_part() {
    // six lines of text for the four lines 13..=16: two are repeated
    let chunk = chunk_of(&lines_of(6), 13, 16);
    let parts = split_large_chunk(&chunk, 4);
    assert_eq!(spans(&parts), vec![(13, 14, 8), (15, 16, 4)]);
    assert_eq!(parts[0].text, lines_of(4));
    assert_eq!(parts[1].text, lines_of(2));
    let joined: String = parts.iter().map(|p| p.text.clone()).collect();
    assert_eq!(joined, chunk.text);
    for part in &parts {
        assert_eq!(part.id.len(), 36);
    }
    // a chunk built with overlap keeps its line range through a split
    let source = lines_of(8);
    let chunks = build(&tree_of_one_line_functions(8), &source, 5, 100, 4).unwrap();
    assert_eq!((chunks[1].start_line, chunks[1].end_line, chunks[1].tokens), (3, 4, 8));
    let parts = split_large_chunk(&chunks[1], 2);
    assert_eq!(spans(&parts), vec![(3, 3, 6), (4, 4, 2)]);
    assert_eq!(parts[0].text, lines_of(3));
}

#[test]
fn a_fragment_is_numbered_from_the_own_lines() {
    let chunk = chunk_of(&lines_of(6), 13, 16);
    let offsets = line_offsets(&chunk.text);
    let part = make_fragment(&chunk, &offsets, 2, 3, 5, "part".to_string());
    assert_eq!(part.id, "part");
    assert_eq!((part.start_line, part.end_line, part.tokens), (14, 15, 4));
    assert_eq!(part.text, lines_of(2));
    let head = make_fragment(&chunk, &offsets, 2, 2, 3, "head".to_string());
    assert_eq!((head.start_line, head.end_line, head.tokens), (13, 13, 6));
    assert_eq!(head.text, lines_of(3));
}
