use prism_indexer::deps::{any_between, holds_text, import_names, reference_lines, spells};
use prism_indexer::extractor::outline;
use prism_indexer::levels::cut_levels;
use prism_indexer::pack::{long_line, overlap_start, pack};
use prism_indexer::plan::{min_level, next_cut, pieces, plan_span, tokens_between, Span};
use prism_indexer::text::{line_offsets, tokens_for_length};
use prism_indexer::tree::subtree_extents;
use prism_indexer::types::{clone_chunk, clone_class, clone_function, clone_import};
use prism_indexer::{
    classification_table, ClassInfo, CodeChunk, FunctionInfo, ImportInfo, LanguageId,
    SourceLocation, SyntaxNode, SyntaxTree,
};

fn node(kind: &str, parent: usize, rows: (usize, usize), end_column: usize) -> SyntaxNode {
    SyntaxNode {
        kind: kind.to_string(),
        field: None,
        parent,
        named: true,
        error: false,
        missing: false,
        start_byte: 0,
        end_byte: 0,
        location: SourceLocation {
            start_row: rows.0,
            start_column: 0,
            end_row: rows.1,
            end_column,
        },
    }
}

// rows 0-1 loose, rows 2-5 a class with two methods of two rows, row 6 loose
fn sample_tree() -> SyntaxTree {
    SyntaxTree::new(vec![
        node("module", 0, (0, 7), 0),
        node("expression_statement", 0, (0, 1), 3),
        node("class_definition", 0, (2, 5), 3),
        node("block", 2, (2, 5), 3),
        node("function_definition", 3, (2, 3), 3),
        node("function_definition", 3, (4, 5), 3),
        node("expression_statement", 0, (6, 6), 3),
    ])
    .unwrap()
}

#[test]
fn levels_are_coarsest_at_the_units_that_lie_in_no_other() {
    let tree = sample_tree();
    let table = classification_table(LanguageId::Python);
    let o = outline(&tree, &table);
    let levels = cut_levels(&tree, &table, &o, 7);
    // the root is at level one, the class at zero, its methods (three deep) at four
    assert_eq!(
        levels,
        vec![Some(1), None, Some(0), None, Some(4), None, Some(0), Some(1)]
    );
    // a file of fewer lines than the tree has rows drops what lies beyond
    let short = cut_levels(&tree, &table, &o, 3);
    assert_eq!(short, vec![Some(1), None, Some(0), None]);
}

#[test]
fn extents_end_after_the_last_node_within() {
    assert_eq!(subtree_extents(&sample_tree()), vec![7, 2, 6, 6, 5, 6, 7]);
}

#[test]
fn lowest_level_and_next_boundary() {
    let levels = vec![Some(1), None, Some(0), None, Some(3), None, Some(0), Some(1)];
    assert_eq!(min_level(&levels, 1, 7), Some(0));
    assert_eq!(min_level(&levels, 3, 6), Some(3));
    assert_eq!(min_level(&levels, 3, 4), None);
    assert_eq!(min_level(&levels, 5, 5), None);
    assert_eq!(next_cut(&levels, 1, 7, 0), 2);
    assert_eq!(next_cut(&levels, 3, 7, 0), 6);
    assert_eq!(next_cut(&levels, 3, 7, 3), 4);
    assert_eq!(next_cut(&levels, 3, 6, 2), 6);
}

#[test]
fn pieces_follow_the_levels() {
    let source = "aaaaaaa\n".repeat(7);
    let offsets = line_offsets(&source);
    let levels = vec![Some(1), None, Some(0), None, Some(3), None, Some(0), Some(1)];
    assert_eq!(tokens_between(&offsets, 2, 6), 8);
    assert_eq!(tokens_for_length(17), 4);
    // everything fits: only the boundaries of level zero cut
    assert_eq!(pieces(&offsets, &levels, 100), vec![2, 6, 7]);
    // the class of eight tokens does not fit six: it is cut at its methods
    assert_eq!(pieces(&offsets, &levels, 6), vec![2, 4, 6, 7]);
    // nothing over two tokens: single lines
    assert_eq!(pieces(&offsets, &levels, 2), vec![1, 2, 3, 4, 5, 6, 7]);
    // a span is cut at its middle where no boundary lies in it
    let none: Vec<Option<usize>> = vec![None; 8];
    assert_eq!(
        plan_span(&offsets, &none, Span { lo: 0, hi: 7, level: None }, 4),
        vec![1, 3, 5, 7]
    );
    assert_eq!(
        plan_span(&offsets, &none, Span { lo: 0, hi: 7, level: Some(0) }, 100),
        vec![7]
    );
    assert!(pieces(&line_offsets(""), &vec![None], 4).is_empty());
}

#[test]
fn packing_fills_each_chunk_up_to_the_target() {
    let source = "aaaaaaa\n".repeat(7);
    let offsets = line_offsets(&source);
    assert_eq!(pack(&offsets, &vec![2, 6, 7], 4), vec![2, 6, 7]);
    assert_eq!(pack(&offsets, &vec![2, 4, 6, 7], 8), vec![4, 7]);
    assert_eq!(pack(&offsets, &vec![1, 2, 3, 4, 5, 6, 7], 6), vec![3, 6, 7]);
    assert_eq!(pack(&offsets, &vec![7], 1), vec![7]);
    assert!(pack(&offsets, &Vec::new(), 4).is_empty());
}

#[test]
fn overlap_reaches_back_while_it_stays_within_bounds() {
    let source = "aaaaaaa\n".repeat(7);
    let offsets = line_offsets(&source);
    // lines 4..6 are the chunk's own; the chunk before began at line 1
    assert_eq!(overlap_start(&offsets, 1, 4, 6, 0, 100), 4);
    assert_eq!(overlap_start(&offsets, 1, 4, 6, 2, 100), 3);
    assert_eq!(overlap_start(&offsets, 1, 4, 6, 5, 100), 2);
    assert_eq!(overlap_start(&offsets, 1, 4, 6, 100, 100), 1);
    assert_eq!(overlap_start(&offsets, 1, 4, 6, 100, 7), 3);
    assert_eq!(overlap_start(&offsets, 1, 4, 6, 100, 4), 4);
    assert_eq!(overlap_start(&offsets, 4, 4, 6, 100, 100), 4);
}

#[test]
fn the_first_long_line_is_found() {
    let source = format!("ab\n{}\ncd\n{}\n", "x".repeat(19), "y".repeat(39));
    let offsets = line_offsets(&source);
    assert_eq!(long_line(&offsets, 10), None);
    assert_eq!(long_line(&offsets, 9), Some((3, 10)));
    assert_eq!(long_line(&offsets, 4), Some((1, 5)));
    assert_eq!(long_line(&line_offsets(""), 0), None);
}

#[test]
fn references_are_found_by_their_bytes() {
    let source = "import os\nos.sep\nosx\n";
    let mut nodes = vec![
        node("module", 0, (0, 3), 0),
        node("import_statement", 0, (0, 0), 9),
        node("identifier", 1, (0, 0), 9),
        node("identifier", 0, (1, 1), 2),
        node("identifier", 0, (2, 2), 3),
    ];
    nodes[2].start_byte = 7;
    nodes[2].end_byte = 9;
    nodes[3].start_byte = 10;
    nodes[3].end_byte = 12;
    nodes[4].start_byte = 17;
    nodes[4].end_byte = 20;
    let tree = SyntaxTree::new(nodes).unwrap();
    assert!(spells(source.as_bytes(), tree.node(2), b"os"));
    assert!(spells(source.as_bytes(), tree.node(3), b"os"));
    assert!(!spells(source.as_bytes(), tree.node(4), b"os"));
    assert!(!spells(source.as_bytes(), tree.node(3), b"ox"));
    let table = classification_table(LanguageId::Python);
    let flags = vec![false, true, true, false, false];
    // the name inside the import does not count
    assert_eq!(reference_lines(&tree, source, &table, &flags, &"os".to_string()), vec![2]);
    assert_eq!(reference_lines(&tree, source, &table, &flags, &"osx".to_string()), vec![3]);
    assert!(reference_lines(&tree, source, &table, &flags, &"sys".to_string()).is_empty());
    assert!(any_between(&vec![2, 9], 1, 2));
    assert!(any_between(&vec![2, 9], 9, 9));
    assert!(!any_between(&vec![2, 9], 3, 8));
    assert!(!any_between(&Vec::new(), 0, 100));
    assert!(holds_text(&vec!["a".to_string(), "b".to_string()], &"b".to_string()));
    assert!(!holds_text(&vec!["a".to_string(), "b".to_string()], &"c".to_string()));
}

fn function(name: &str) -> FunctionInfo {
    FunctionInfo {
        name: name.to_string(),
        signature: format!("def {}()", name),
        start_line: 3,
        end_line: 4,
        parameters: vec!["p".to_string()],
        return_type: Some("int".to_string()),
        is_async: true,
        is_exported: false,
    }
}

#[test]
fn copies_hold_what_the_records_hold() {
    let f = function("f");
    let class = ClassInfo {
        name: "C".to_string(),
        extends: Some("B".to_string()),
        implements: vec!["I".to_string()],
        methods: vec![function("m")],
        start_line: 1,
        end_line: 9,
    };
    let import = ImportInfo {
        source: "os".to_string(),
        imported_names: vec!["path".to_string(), "sep".to_string()],
        is_type_only: true,
        location: SourceLocation { start_row: 0, start_column: 1, end_row: 2, end_column: 3 },
    };
    let chunk = CodeChunk {
        id: "id".to_string(),
        text: "text".to_string(),
        start_line: 1,
        end_line: 9,
        tokens: 1,
        language: "python".to_string(),
        functions: vec![clone_function(&f)],
        classes: vec![clone_class(&class)],
        imports: vec![clone_import(&import)],
        dependencies: vec!["sep".to_string()],
    };
    assert_eq!(format!("{:?}", clone_function(&f)), format!("{:?}", f));
    assert_eq!(format!("{:?}", clone_class(&class)), format!("{:?}", class));
    assert_eq!(format!("{:?}", clone_import(&import)), format!("{:?}", import));
    assert_eq!(format!("{:?}", clone_chunk(&chunk)), format!("{:?}", chunk));
    assert_eq!(
        import_names(&vec![clone_import(&import), clone_import(&import)]),
        vec!["path", "sep", "path", "sep"]
    );
}
