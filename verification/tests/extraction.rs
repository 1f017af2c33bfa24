use prism_indexer::grammar::{holds_label, same_text};
use prism_indexer::tree::{first_children, locates};
use prism_indexer::{
    build_chunks, classification_table, extract_classes, extract_functions, extract_imports,
    find_error_nodes, ClassificationTable, LanguageId, NodeClass, SourceLocation, SyntaxNode,
    SyntaxTree,
};

fn node(
    kind: &str,
    field: Option<&str>,
    parent: usize,
    named: bool,
    bytes: (usize, usize),
    start: (usize, usize),
    end: (usize, usize),
) -> SyntaxNode {
    SyntaxNode {
        kind: kind.to_string(),
        field: field.map(|f| f.to_string()),
        parent,
        named,
        error: false,
        missing: false,
        start_byte: bytes.0,
        end_byte: bytes.1,
        location: SourceLocation {
            start_row: start.0,
            start_column: start.1,
            end_row: end.0,
            end_column: end.1,
        },
    }
}

fn python() -> ClassificationTable {
    classification_table(LanguageId::Python)
}

// def outer(a, b=1) -> int:
//     def inner():
//         pass
//     return a
const NESTED: &str = "def outer(a, b=1) -> int:\n    def inner():\n        pass\n    return a\n";

fn nested_tree() -> SyntaxTree {
    SyntaxTree::new(vec![
        node("module", None, 0, true, (0, 72), (0, 0), (4, 0)),
        node("function_definition", None, 0, true, (0, 71), (0, 0), (3, 12)),
        node("def", None, 1, false, (0, 3), (0, 0), (0, 3)),
        node("identifier", Some("name"), 1, true, (4, 9), (0, 4), (0, 9)),
        node("parameters", Some("parameters"), 1, true, (9, 17), (0, 9), (0, 17)),
        node("(", None, 4, false, (9, 10), (0, 9), (0, 10)),
        node("identifier", None, 4, true, (10, 11), (0, 10), (0, 11)),
        node(",", None, 4, false, (11, 12), (0, 11), (0, 12)),
        node("default_parameter", None, 4, true, (13, 16), (0, 13), (0, 16)),
        node("identifier", Some("name"), 8, true, (13, 14), (0, 13), (0, 14)),
        node("integer", Some("value"), 8, true, (15, 16), (0, 15), (0, 16)),
        node(")", None, 4, false, (16, 17), (0, 16), (0, 17)),
        node("type", Some("return_type"), 1, true, (21, 24), (0, 21), (0, 24)),
        node("block", Some("body"), 1, true, (30, 71), (1, 4), (3, 12)),
        node("function_definition", None, 13, true, (30, 58), (1, 4), (2, 12)),
        node("identifier", Some("name"), 14, true, (34, 39), (1, 8), (1, 13)),
        node("parameters", Some("parameters"), 14, true, (39, 41), (1, 13), (1, 15)),
        node("block", Some("body"), 14, true, (51, 55), (2, 8), (2, 12)),
        node("return_statement", None, 13, true, (63, 71), (3, 4), (3, 12)),
    ])
    .unwrap()
}

#[test]
fn nested_function_follows_the_one_around_it() {
    let functions = extract_functions(&nested_tree(), NESTED, &python());
    assert_eq!(functions.len(), 2);
    assert_eq!(functions[0].name, "outer");
    assert_eq!(functions[0].signature, "def outer(a, b=1) -> int:\n    ");
    assert_eq!((functions[0].start_line, functions[0].end_line), (1, 4));
    assert_eq!(functions[0].parameters, vec!["a".to_string(), "b".to_string()]);
    assert_eq!(functions[0].return_type, Some("int".to_string()));
    assert!(!functions[0].is_async);
    assert!(!functions[0].is_exported);
    assert_eq!(functions[1].name, "inner");
    assert_eq!(functions[1].signature, "def inner():\n        ");
    assert_eq!((functions[1].start_line, functions[1].end_line), (2, 3));
    assert!(functions[1].parameters.is_empty());
    assert_eq!(functions[1].return_type, None);
}

#[test]
fn a_function_outside_the_body_of_another_is_not_reached() {
    // a function that hangs in the parameters of another
    let source = "def f(g=lambda: 0): pass";
    let tree = SyntaxTree::new(vec![
        node("module", None, 0, true, (0, 24), (0, 0), (0, 24)),
        node("function_definition", None, 0, true, (0, 24), (0, 0), (0, 24)),
        node("identifier", Some("name"), 1, true, (4, 5), (0, 4), (0, 5)),
        node("parameters", Some("parameters"), 1, true, (5, 18), (0, 5), (0, 18)),
        node("function_definition", None, 3, true, (8, 17), (0, 8), (0, 17)),
        node("identifier", Some("name"), 4, true, (8, 14), (0, 8), (0, 14)),
        node("block", Some("body"), 1, true, (20, 24), (0, 20), (0, 24)),
        node("function_definition", None, 6, true, (20, 24), (0, 20), (0, 24)),
        node("identifier", Some("name"), 7, true, (20, 24), (0, 20), (0, 24)),
    ])
    .unwrap();
    let functions = extract_functions(&tree, source, &python());
    let names: Vec<&str> = functions.iter().map(|f| f.name.as_str()).collect();
    assert_eq!(names, vec!["f", "pass"]);
    // the parameter is still listed, under its own text
    assert_eq!(functions[0].parameters, vec!["lambda".to_string()]);
}

#[test]
fn a_function_without_a_name_is_skipped_and_its_body_walked() {
    let mut nodes: Vec<SyntaxNode> = Vec::new();
    let tree = nested_tree();
    for i in 0..tree.len() {
        nodes.push(tree.node(i).clone());
    }
    // the outer function loses its name field
    nodes[3].field = None;
    let tree = SyntaxTree::new(nodes).unwrap();
    let functions = extract_functions(&tree, NESTED, &python());
    assert_eq!(functions.len(), 1);
    assert_eq!(functions[0].name, "inner");
}

#[test]
fn signature_is_the_whole_node_where_there_is_no_body() {
    let source = "def f(): pass";
    let tree = SyntaxTree::new(vec![
        node("module", None, 0, true, (0, 13), (0, 0), (0, 13)),
        node("function_definition", None, 0, true, (0, 13), (0, 0), (0, 13)),
        node("identifier", Some("name"), 1, true, (4, 5), (0, 4), (0, 5)),
    ])
    .unwrap();
    let functions = extract_functions(&tree, source, &python());
    assert_eq!(functions.len(), 1);
    assert_eq!(functions[0].signature, "def f(): pass");
    assert_eq!((functions[0].start_line, functions[0].end_line), (1, 1));
}

#[test]
fn async_marker_is_found_by_kind() {
    let source = "async def f(): pass";
    let tree = SyntaxTree::new(vec![
        node("module", None, 0, true, (0, 19), (0, 0), (0, 19)),
        node("function_definition", None, 0, true, (0, 19), (0, 0), (0, 19)),
        node("async", None, 1, false, (0, 5), (0, 0), (0, 5)),
        node("identifier", Some("name"), 1, true, (10, 11), (0, 10), (0, 11)),
    ])
    .unwrap();
    let functions = extract_functions(&tree, source, &python());
    assert!(functions[0].is_async);
}

#[test]
fn a_name_that_cuts_a_character_is_no_name() {
    let source = "def é(): pass";
    let tree = SyntaxTree::new(vec![
        node("module", None, 0, true, (0, 14), (0, 0), (0, 14)),
        node("function_definition", None, 0, true, (0, 14), (0, 0), (0, 14)),
        node("identifier", Some("name"), 1, true, (4, 5), (0, 4), (0, 5)),
    ])
    .unwrap();
    assert!(extract_functions(&tree, source, &python()).is_empty());
}

// class A(B):
//     def m(self):
//         pass
//     class C:
//         def n(self):
//             pass
const CLASSES: &str =
    "class A(B):\n    def m(self):\n        pass\n    class C:\n        def n(self):\n            pass\n";

fn class_tree() -> SyntaxTree {
    SyntaxTree::new(vec![
        node("module", None, 0, true, (0, 95), (0, 0), (6, 0)),
        node("class_definition", None, 0, true, (0, 94), (0, 0), (5, 16)),
        node("identifier", Some("name"), 1, true, (6, 7), (0, 6), (0, 7)),
        node("argument_list", Some("superclasses"), 1, true, (7, 10), (0, 7), (0, 10)),
        node("identifier", None, 3, true, (8, 9), (0, 8), (0, 9)),
        node("block", Some("body"), 1, true, (16, 94), (1, 4), (5, 16)),
        node("function_definition", None, 5, true, (16, 41), (1, 4), (2, 12)),
        node("identifier", Some("name"), 6, true, (20, 21), (1, 8), (1, 9)),
        node("block", Some("body"), 6, true, (37, 41), (2, 8), (2, 12)),
        node("class_definition", None, 5, true, (46, 94), (3, 4), (5, 16)),
        node("identifier", Some("name"), 9, true, (52, 53), (3, 10), (3, 11)),
        node("block", Some("body"), 9, true, (63, 94), (4, 8), (5, 16)),
        node("function_definition", None, 11, true, (63, 94), (4, 8), (5, 16)),
        node("identifier", Some("name"), 12, true, (67, 68), (4, 12), (4, 13)),
        node("block", Some("body"), 12, true, (90, 94), (5, 12), (5, 16)),
    ])
    .unwrap()
}

#[test]
fn methods_are_the_functions_directly_in_the_body() {
    let classes = extract_classes(&class_tree(), CLASSES, &python());
    assert_eq!(classes.len(), 2);
    assert_eq!(classes[0].name, "A");
    // the name of what it extends, not the clause around it
    assert_eq!(classes[0].extends, Some("B".to_string()));
    assert!(classes[0].implements.is_empty());
    assert_eq!((classes[0].start_line, classes[0].end_line), (1, 6));
    assert_eq!(classes[0].methods.len(), 1);
    assert_eq!(classes[0].methods[0].name, "m");
    assert_eq!(classes[1].name, "C");
    assert_eq!(classes[1].extends, None);
    assert_eq!((classes[1].start_line, classes[1].end_line), (4, 6));
    assert_eq!(classes[1].methods.len(), 1);
    assert_eq!(classes[1].methods[0].name, "n");
}

#[test]
fn methods_lie_within_their_class() {
    for class in extract_classes(&class_tree(), CLASSES, &python()) {
        assert!(class.start_line <= class.end_line);
        for method in &class.methods {
            assert!(method.start_line <= method.end_line);
            assert!(class.start_line <= method.start_line);
            assert!(method.end_line <= class.end_line);
        }
    }
}

#[test]
fn the_function_list_holds_methods_too() {
    let functions = extract_functions(&class_tree(), CLASSES, &python());
    let names: Vec<&str> = functions.iter().map(|f| f.name.as_str()).collect();
    assert_eq!(names, vec!["m", "n"]);
}

// import os
// from a import b
// print(os, b)
const IMPORTS: &str = "import os\nfrom a import b\nprint(os, b)\n";

fn import_tree() -> SyntaxTree {
    SyntaxTree::new(vec![
        node("module", None, 0, true, (0, 39), (0, 0), (3, 0)),
        node("import_statement", None, 0, true, (0, 9), (0, 0), (0, 9)),
        node("dotted_name", Some("name"), 1, true, (7, 9), (0, 7), (0, 9)),
        node("identifier", None, 2, true, (7, 9), (0, 7), (0, 9)),
        node("import_from_statement", None, 0, true, (10, 25), (1, 0), (1, 15)),
        node("dotted_name", Some("module_name"), 4, true, (15, 16), (1, 5), (1, 6)),
        node("dotted_name", Some("name"), 4, true, (24, 25), (1, 14), (1, 15)),
        node("identifier", None, 6, true, (24, 25), (1, 14), (1, 15)),
        node("expression_statement", None, 0, true, (26, 38), (2, 0), (2, 12)),
        node("identifier", None, 8, true, (26, 31), (2, 0), (2, 5)),
        node("identifier", None, 8, true, (32, 34), (2, 6), (2, 8)),
        node("identifier", None, 8, true, (36, 37), (2, 10), (2, 11)),
    ])
    .unwrap()
}

#[test]
fn imports_name_their_source_and_what_they_bring() {
    let imports = extract_imports(&import_tree(), IMPORTS, &python());
    assert_eq!(imports.len(), 2);
    assert_eq!(imports[0].source, "os");
    assert_eq!(imports[0].imported_names, vec!["os".to_string()]);
    assert!(!imports[0].is_type_only);
    assert_eq!(
        imports[0].location,
        SourceLocation { start_row: 0, start_column: 0, end_row: 0, end_column: 9 }
    );
    assert_eq!(imports[1].source, "a");
    assert_eq!(imports[1].imported_names, vec!["b".to_string()]);
}

#[test]
fn a_chunk_depends_on_the_imports_its_code_names() {
    let tree = import_tree();
    let table = python();
    let imports = extract_imports(&tree, IMPORTS, &table);
    // one line to a chunk: the lines are two, four and three tokens
    let chunks = build_chunks(
        &tree, IMPORTS, &table, "python", &Vec::new(), &Vec::new(), &imports, 4, 4, 0,
    )
    .unwrap();
    assert_eq!(chunks.len(), 3);
    // an import does not refer to what it brings in
    assert!(chunks[0].dependencies.is_empty());
    assert!(chunks[1].dependencies.is_empty());
    assert_eq!(chunks[2].dependencies, vec!["os".to_string(), "b".to_string()]);
    assert_eq!(chunks[0].imports.len(), 1);
    assert_eq!(chunks[1].imports.len(), 1);
    assert_eq!(chunks[2].imports.len(), 0);
}

#[test]
fn errors_come_in_document_order_and_may_nest() {
    let source = "a ( b";
    let mut nodes = vec![
        node("module", None, 0, true, (0, 5), (0, 0), (0, 5)),
        node("ERROR", None, 0, true, (0, 5), (0, 0), (0, 5)),
        node("identifier", None, 1, true, (0, 1), (0, 0), (0, 1)),
        node("ERROR", None, 1, true, (2, 3), (0, 2), (0, 3)),
        node(")", None, 0, false, (5, 5), (0, 5), (0, 5)),
    ];
    nodes[1].error = true;
    nodes[3].error = true;
    nodes[4].missing = true;
    let tree = SyntaxTree::new(nodes).unwrap();
    let errors = find_error_nodes(&tree, source);
    assert_eq!(errors.len(), 3);
    assert_eq!(errors[0].text, "a ( b");
    assert_eq!(errors[0].message, "Syntax error");
    assert_eq!(errors[1].text, "(");
    assert_eq!(
        errors[1].location,
        SourceLocation { start_row: 0, start_column: 2, end_row: 0, end_column: 3 }
    );
    assert_eq!(errors[2].text, "");
    assert!(find_error_nodes(&nested_tree(), NESTED).is_empty());
}

#[test]
fn a_list_of_nodes_that_is_no_tree_is_refused() {
    assert!(SyntaxTree::new(Vec::new()).is_none());
    // a root that names another node as its parent
    assert!(SyntaxTree::new(vec![node("module", None, 1, true, (0, 0), (0, 0), (0, 0))]).is_none());
    // a child that stands before its parent
    assert!(SyntaxTree::new(vec![
        node("module", None, 0, true, (0, 1), (0, 0), (0, 1)),
        node("a", None, 2, true, (0, 1), (0, 0), (0, 1)),
        node("b", None, 0, true, (0, 1), (0, 0), (0, 1)),
    ])
    .is_none());
    // a node that ends before it begins
    assert!(SyntaxTree::new(vec![node("module", None, 0, true, (0, 0), (1, 0), (0, 5))]).is_none());
    assert!(SyntaxTree::new(vec![node("module", None, 0, true, (0, 0), (0, 5), (0, 4))]).is_none());
    // a node that begins before the node listed before it
    assert!(SyntaxTree::new(vec![
        node("module", None, 0, true, (0, 9), (0, 0), (9, 0)),
        node("a", None, 0, true, (0, 1), (5, 0), (5, 1)),
        node("b", None, 0, true, (0, 1), (1, 0), (1, 1)),
    ])
    .is_none());
    assert!(SyntaxTree::new(vec![
        node("module", None, 0, true, (0, 9), (0, 0), (9, 0)),
        node("a", None, 0, true, (0, 1), (5, 3), (5, 4)),
        node("b", None, 0, true, (0, 1), (5, 2), (5, 4)),
    ])
    .is_none());
    // a child whose rows leave those of its parent
    assert!(SyntaxTree::new(vec![
        node("module", None, 0, true, (0, 1), (0, 0), (1, 0)),
        node("a", None, 0, true, (0, 1), (0, 0), (2, 0)),
    ])
    .is_none());
    let tree = SyntaxTree::new(vec![
        node("module", None, 0, true, (0, 1), (0, 0), (1, 0)),
        node("a", None, 0, true, (0, 1), (0, 0), (1, 0)),
    ])
    .unwrap();
    assert_eq!(tree.len(), 2);
    assert_eq!(tree.node(1).kind, "a");
}

#[test]
fn kinds_are_sorted_into_classes() {
    let table = python();
    assert_eq!(table.classify(&"function_definition".to_string()), NodeClass::FunctionLike);
    assert_eq!(table.classify(&"class_definition".to_string()), NodeClass::ClassLike);
    assert_eq!(table.classify(&"import_from_statement".to_string()), NodeClass::ImportLike);
    assert_eq!(table.classify(&"if_statement".to_string()), NodeClass::Other);
    let java = classification_table(LanguageId::Java);
    assert_eq!(java.classify(&"method_declaration".to_string()), NodeClass::FunctionLike);
    assert_eq!(java.classify(&"function_definition".to_string()), NodeClass::Other);
    assert_eq!(java.return_type, "type");
    let go = classification_table(LanguageId::Go);
    assert_eq!(go.classify(&"import_spec".to_string()), NodeClass::ImportLike);
    assert_eq!(go.return_type, "result");
    assert!(holds_label(&table.import_kinds, &"import_statement".to_string()));
    assert!(!holds_label(&table.import_kinds, &"import".to_string()));
}

#[test]
fn language_ids_and_names() {
    for name in ["typescript", "javascript", "python", "rust", "go", "java"] {
        assert_eq!(LanguageId::parse(name).unwrap().name(), name);
    }
    assert_eq!(LanguageId::parse("python"), Some(LanguageId::Python));
    assert_eq!(LanguageId::parse("Python"), None);
    assert_eq!(LanguageId::parse("ruby"), None);
    assert_eq!(LanguageId::parse(""), None);
    assert!(same_text("go", "go"));
    assert!(!same_text("go", "java"));
}

#[test]
fn a_label_picks_by_field_or_by_kind() {
    let by_field = node("identifier", Some("name"), 0, true, (0, 0), (0, 0), (0, 0));
    assert!(locates(&by_field, &"name".to_string()));
    assert!(locates(&by_field, &"identifier".to_string()));
    assert!(!locates(&by_field, &"body".to_string()));
    let table = first_children(&nested_tree(), &"name".to_string());
    assert_eq!(table[1], Some(3));
    assert_eq!(table[8], Some(9));
    assert_eq!(table[14], Some(15));
    assert_eq!(table[0], None);
}

#[test]
fn records_come_in_the_order_of_their_lines() {
    let functions = extract_functions(&class_tree(), CLASSES, &python());
    for pair in functions.windows(2) {
        assert!(pair[0].start_line <= pair[1].start_line);
    }
    let classes = extract_classes(&class_tree(), CLASSES, &python());
    for pair in classes.windows(2) {
        assert!(pair[0].start_line <= pair[1].start_line);
    }
}

// class A implements I, J<T> { }   written in the shape of the Java grammar
#[test]
fn implemented_interfaces_are_named_one_by_one() {
    let source = "class A extends B implements I, J<T> { }";
    let tree = SyntaxTree::new(vec![
        node("program", None, 0, true, (0, 40), (0, 0), (0, 40)),
        node("class_declaration", None, 0, true, (0, 40), (0, 0), (0, 40)),
        node("identifier", Some("name"), 1, true, (6, 7), (0, 6), (0, 7)),
        node("superclass", Some("superclass"), 1, true, (8, 17), (0, 8), (0, 17)),
        node("type_identifier", None, 3, true, (16, 17), (0, 16), (0, 17)),
        node("super_interfaces", Some("interfaces"), 1, true, (18, 36), (0, 18), (0, 36)),
        node("type_list", None, 5, true, (29, 36), (0, 29), (0, 36)),
        node("type_identifier", None, 6, true, (29, 30), (0, 29), (0, 30)),
        node("generic_type", None, 6, true, (32, 36), (0, 32), (0, 36)),
        node("type_identifier", None, 8, true, (32, 33), (0, 32), (0, 33)),
        node("type_arguments", None, 8, true, (33, 36), (0, 33), (0, 36)),
        node("type_identifier", None, 10, true, (34, 35), (0, 34), (0, 35)),
        node("class_body", Some("body"), 1, true, (37, 40), (0, 37), (0, 40)),
    ])
    .unwrap();
    let classes = extract_classes(&tree, source, &classification_table(LanguageId::Java));
    assert_eq!(classes.len(), 1);
    assert_eq!(classes[0].extends, Some("B".to_string()));
    assert_eq!(classes[0].implements, vec!["I".to_string(), "J".to_string()]);
    // a class that says neither
    let plain = SyntaxTree::new(vec![
        node("program", None, 0, true, (0, 40), (0, 0), (0, 40)),
        node("class_declaration", None, 0, true, (0, 40), (0, 0), (0, 40)),
        node("identifier", Some("name"), 1, true, (6, 7), (0, 6), (0, 7)),
        node("class_body", Some("body"), 1, true, (37, 40), (0, 37), (0, 40)),
        node("superclass", None, 3, true, (38, 39), (0, 38), (0, 39)),
    ])
    .unwrap();
    let classes = extract_classes(&plain, source, &classification_table(LanguageId::Java));
    assert_eq!(classes[0].extends, None);
    assert!(classes[0].implements.is_empty());
}

// def f(x: int, *rest): pass     written in the shape of the Python grammar
#[test]
fn a_parameter_is_listed_under_its_name_alone() {
    let source = "def f(x: int, *rest): pass";
    let tree = SyntaxTree::new(vec![
        node("module", None, 0, true, (0, 26), (0, 0), (0, 26)),
        node("function_definition", None, 0, true, (0, 26), (0, 0), (0, 26)),
        node("identifier", Some("name"), 1, true, (4, 5), (0, 4), (0, 5)),
        node("parameters", Some("parameters"), 1, true, (5, 20), (0, 5), (0, 20)),
        node("typed_parameter", None, 3, true, (6, 12), (0, 6), (0, 12)),
        node("identifier", None, 4, true, (6, 7), (0, 6), (0, 7)),
        node("type", Some("type"), 4, true, (9, 12), (0, 9), (0, 12)),
        node("identifier", None, 6, true, (9, 12), (0, 9), (0, 12)),
        node("list_splat_pattern", None, 3, true, (14, 19), (0, 14), (0, 19)),
        node("identifier", None, 8, true, (15, 19), (0, 15), (0, 19)),
        node("block", Some("body"), 1, true, (22, 26), (0, 22), (0, 26)),
    ])
    .unwrap();
    let functions = extract_functions(&tree, source, &python());
    assert_eq!(functions[0].parameters, vec!["x".to_string(), "rest".to_string()]);
}

// func f(a, b int, string)     written in the shape of the Go grammar
#[test]
fn every_name_of_one_declaration_is_listed() {
    let source = "func f(a, b int, string) {}";
    let tree = SyntaxTree::new(vec![
        node("source_file", None, 0, true, (0, 27), (0, 0), (0, 27)),
        node("function_declaration", None, 0, true, (0, 27), (0, 0), (0, 27)),
        node("identifier", Some("name"), 1, true, (5, 6), (0, 5), (0, 6)),
        node("parameter_list", Some("parameters"), 1, true, (6, 24), (0, 6), (0, 24)),
        node("parameter_declaration", None, 3, true, (7, 15), (0, 7), (0, 15)),
        node("identifier", Some("name"), 4, true, (7, 8), (0, 7), (0, 8)),
        node("identifier", Some("name"), 4, true, (10, 11), (0, 10), (0, 11)),
        node("type_identifier", Some("type"), 4, true, (12, 15), (0, 12), (0, 15)),
        node("parameter_declaration", None, 3, true, (17, 23), (0, 17), (0, 23)),
        node("type_identifier", Some("type"), 8, true, (17, 23), (0, 17), (0, 23)),
        node("block", Some("body"), 1, true, (25, 27), (0, 25), (0, 27)),
    ])
    .unwrap();
    let functions = extract_functions(&tree, source, &classification_table(LanguageId::Go));
    // a declaration without a name is listed under its own text
    assert_eq!(
        functions[0].parameters,
        vec!["a".to_string(), "b".to_string(), "string".to_string()]
    );
}

// export function f() {}  and  pub async fn g() {}
#[test]
fn export_and_async_marks_are_found_in_the_head() {
    let source = "export function f() {}";
    let tree = SyntaxTree::new(vec![
        node("program", None, 0, true, (0, 22), (0, 0), (0, 22)),
        node("export_statement", None, 0, true, (0, 22), (0, 0), (0, 22)),
        node("function_declaration", Some("declaration"), 1, true, (7, 22), (0, 7), (0, 22)),
        node("identifier", Some("name"), 2, true, (16, 17), (0, 16), (0, 17)),
        node("formal_parameters", Some("parameters"), 2, true, (17, 19), (0, 17), (0, 19)),
        node("statement_block", Some("body"), 2, true, (20, 22), (0, 20), (0, 22)),
    ])
    .unwrap();
    let functions = extract_functions(&tree, source, &classification_table(LanguageId::JavaScript));
    assert!(functions[0].is_exported);
    assert!(!functions[0].is_async);

    let source = "pub async fn g(h: fn()) { async {} }";
    let tree = SyntaxTree::new(vec![
        node("source_file", None, 0, true, (0, 36), (0, 0), (0, 36)),
        node("function_item", None, 0, true, (0, 36), (0, 0), (0, 36)),
        node("visibility_modifier", None, 1, true, (0, 3), (0, 0), (0, 3)),
        node("function_modifiers", None, 1, true, (4, 9), (0, 4), (0, 9)),
        node("async", None, 3, false, (4, 9), (0, 4), (0, 9)),
        node("identifier", Some("name"), 1, true, (13, 14), (0, 13), (0, 14)),
        node("parameters", Some("parameters"), 1, true, (14, 23), (0, 14), (0, 23)),
        node("block", Some("body"), 1, true, (24, 36), (0, 24), (0, 36)),
    ])
    .unwrap();
    let rust = classification_table(LanguageId::Rust);
    let functions = extract_functions(&tree, source, &rust);
    assert!(functions[0].is_exported);
    assert!(functions[0].is_async);
    // the same marks after the head do not count
    let tree = SyntaxTree::new(vec![
        node("source_file", None, 0, true, (0, 36), (0, 0), (0, 36)),
        node("function_item", None, 0, true, (0, 36), (0, 0), (0, 36)),
        node("identifier", Some("name"), 1, true, (13, 14), (0, 13), (0, 14)),
        node("parameters", Some("parameters"), 1, true, (14, 23), (0, 14), (0, 23)),
        node("block", Some("body"), 1, true, (24, 36), (0, 24), (0, 36)),
        node("async", None, 4, false, (26, 31), (0, 26), (0, 31)),
        node("visibility_modifier", None, 4, true, (32, 35), (0, 32), (0, 35)),
    ])
    .unwrap();
    let functions = extract_functions(&tree, source, &rust);
    assert!(!functions[0].is_exported);
    assert!(!functions[0].is_async);
}
