use prism_indexer::text::line_offsets;
use prism_indexer::{
    assemble, create_parser, estimate_tokens, get_supported_languages, get_version, parse_code,
    resolve, LanguageId, ParseResult, PrismError, PrismParser, SourceLocation, SyntaxNode,
    SyntaxTree,
};

#[test]
fn single_small_function_in_python() {
    let result = parse_code("def f(x):\n    return x\n", "python").unwrap();
    assert!(!result.has_errors);
    assert!(result.error_nodes.is_empty());
    assert_eq!(result.functions.len(), 1);
    assert_eq!(result.functions[0].name, "f");
    assert_eq!(result.functions[0].start_line, 1);
    assert_eq!(result.functions[0].end_line, 2);
    assert_eq!(result.functions[0].signature, "def f(x):\n    ");
    assert_eq!(result.functions[0].parameters, vec!["x".to_string()]);
    assert!(result.classes.is_empty());
    assert_eq!(result.chunks.len(), 1);
    assert_eq!(result.chunks[0].start_line, 1);
    assert_eq!(result.chunks[0].end_line, 2);
    assert_eq!(result.chunks[0].text, "def f(x):\n    return x\n");
    assert_eq!(result.chunks[0].tokens, 5);
    assert_eq!(result.chunks[0].language, "python");
    assert_eq!(result.chunks[0].functions.len(), 1);
    assert_eq!(result.chunks[0].functions[0].name, "f");
}

fn class_of_two_methods() -> String {
    let mut code = String::from("class A:\n");
    for name in ["m1", "m2"] {
        code.push_str(&format!("    def {}(self):\n", name));
        for _ in 0..149 {
            code.push_str("        x = 1\n");
        }
    }
    code
}

#[test]
fn oversized_class_is_split_at_its_methods() {
    let code = class_of_two_methods();
    assert_eq!(code.lines().count(), 301);
    assert_eq!(estimate_tokens(&code), 1054);
    let mut parser = PrismParser::new("python").unwrap();
    assert!(parser.set_sizes(600, 700, 50));
    let result = parser.parse(&code).unwrap();
    assert!(!result.has_errors);
    assert_eq!(result.classes.len(), 1);
    assert_eq!(result.classes[0].name, "A");
    assert_eq!((result.classes[0].start_line, result.classes[0].end_line), (1, 301));
    let methods: Vec<&str> = result.classes[0].methods.iter().map(|m| m.name.as_str()).collect();
    assert_eq!(methods, vec!["m1", "m2"]);
    assert_eq!(result.chunks.len(), 2);
    let first = &result.chunks[0];
    let second = &result.chunks[1];
    assert_eq!((first.start_line, first.end_line, first.tokens), (1, 151, 528));
    assert_eq!(first.functions.len(), 1);
    assert_eq!(first.functions[0].name, "m1");
    assert_eq!(first.classes.len(), 1);
    // fourteen lines of the first chunk come again: 49 tokens, the most under 50
    assert_eq!((second.start_line, second.end_line, second.tokens), (152, 301, 575));
    assert_eq!(second.functions.len(), 1);
    assert_eq!(second.functions[0].name, "m2");
    assert!(second.text.starts_with("        x = 1\n        x = 1\n"));
    assert!(second.text.contains("    def m2(self):\n"));
    for chunk in &result.chunks {
        assert!(chunk.tokens <= 700);
        assert_eq!(chunk.tokens, estimate_tokens(&chunk.text));
    }
}

#[test]
fn under_the_default_sizes_each_method_is_a_chunk() {
    // 1054 tokens are over the default maximum of 1000 too
    let result = parse_code(&class_of_two_methods(), "python").unwrap();
    assert_eq!(result.chunks.len(), 3);
    let spans: Vec<(usize, usize)> =
        result.chunks.iter().map(|c| (c.start_line, c.end_line)).collect();
    // the class line alone, then each method: the first is over the target with it
    assert_eq!(spans, vec![(1, 1), (2, 151), (152, 301)]);
}

const BROKEN_BRACE: &str = "function first() {\n  return 1;\n}\n\nfunction broken() {\n  return 2;\n}}\n\nfunction last() {\n  return 3;\n}\n";

#[test]
fn broken_brace_gives_one_error_node() {
    let result = parse_code(BROKEN_BRACE, "javascript").unwrap();
    assert!(result.has_errors);
    assert_eq!(result.error_nodes.len(), 1);
    assert_eq!(
        result.error_nodes[0].location,
        SourceLocation { start_row: 6, start_column: 1, end_row: 6, end_column: 2 }
    );
    assert_eq!(result.error_nodes[0].text, "}");
    assert_eq!(result.error_nodes[0].message, "Syntax error");
    let names: Vec<&str> = result.functions.iter().map(|f| f.name.as_str()).collect();
    assert_eq!(names, vec!["first", "broken", "last"]);
}

#[test]
fn a_malformed_function_does_not_hide_the_others() {
    let code = "def first():\n    return 1\n\ndef broken(:\n    return 2\n\ndef last():\n    return 3\n";
    let result = parse_code(code, "python").unwrap();
    assert!(result.has_errors);
    assert!(!result.error_nodes.is_empty());
    for error in &result.error_nodes {
        // within the malformed function, rows counted from zero
        assert!(error.location.start_row >= 3 && error.location.end_row <= 4);
    }
    let names: Vec<&str> = result.functions.iter().map(|f| f.name.as_str()).collect();
    assert!(names.contains(&"first"));
    assert!(names.contains(&"last"));
    for name in ["first", "last"] {
        assert!(result
            .chunks
            .iter()
            .any(|chunk| chunk.functions.iter().any(|f| f.name == name)));
    }
}

#[test]
fn unsupported_language_is_refused() {
    match create_parser("ruby") {
        Err(PrismError::UnsupportedLanguage(name)) => assert_eq!(name, "ruby"),
        _ => panic!("expected an unsupported language"),
    }
    match parse_code("puts 1", "ruby") {
        Err(PrismError::UnsupportedLanguage(name)) => assert_eq!(name, "ruby"),
        _ => panic!("expected an unsupported language"),
    }
    match PrismParser::new("") {
        Err(PrismError::UnsupportedLanguage(name)) => assert_eq!(name, ""),
        _ => panic!("expected an unsupported language"),
    }
}

#[test]
fn supported_languages_in_order() {
    assert_eq!(
        get_supported_languages(),
        vec!["typescript", "javascript", "python", "rust", "go", "java"]
    );
    assert_eq!(get_version(), "0.1.0");
}

#[test]
fn every_supported_language_has_a_parser() {
    for name in get_supported_languages() {
        let parser = create_parser(&name).unwrap();
        assert_eq!(parser.language(), LanguageId::parse(&name).unwrap());
    }
}

fn tuples(result: &ParseResult) -> Vec<(usize, usize, String)> {
    result.chunks.iter().map(|c| (c.start_line, c.end_line, c.text.clone())).collect()
}

#[test]
fn parsing_twice_gives_the_same_chunks() {
    let code = class_of_two_methods();
    let mut parser = PrismParser::new("python").unwrap();
    let first = parser.parse(&code).unwrap();
    let second = parser.parse(&code).unwrap();
    assert_eq!(tuples(&first), tuples(&second));
    for (a, b) in first.chunks.iter().zip(second.chunks.iter()) {
        assert_ne!(a.id, b.id);
    }
    let third = parse_code(&code, "python").unwrap();
    assert_eq!(tuples(&first), tuples(&third));
}

#[test]
fn a_parser_serves_one_text_after_another() {
    let mut parser = PrismParser::new("rust").unwrap();
    let first = parser.parse("fn a() {}\n").unwrap();
    assert_eq!(first.functions[0].name, "a");
    let second = parser.parse("struct S;\nfn b(x: u8) -> u8 { x }\n").unwrap();
    assert_eq!(second.functions.len(), 1);
    assert_eq!(second.functions[0].name, "b");
    assert_eq!(second.functions[0].return_type, Some("u8".to_string()));
    assert_eq!(second.classes.len(), 1);
    assert_eq!(second.classes[0].name, "S");
    parser.free();
    assert_eq!(parser.language(), LanguageId::Rust);
    let third = parser.parse("fn c() {}\n").unwrap();
    assert_eq!(third.functions[0].name, "c");
}

#[test]
fn code_that_is_not_empty_has_a_chunk() {
    for code in ["x", "\n", "   ", "def f(:", "}}}}", "# only a comment\n"] {
        let result = parse_code(code, "python").unwrap();
        assert!(!result.chunks.is_empty());
        assert_eq!(result.chunks[0].start_line, 1);
    }
    let result = parse_code("", "python").unwrap();
    assert!(result.chunks.is_empty());
    assert!(!result.has_errors);
}

#[test]
fn sizes_out_of_order_are_refused() {
    let mut parser = PrismParser::new("go").unwrap();
    assert!(!parser.set_sizes(10, 5, 2));
    assert!(!parser.set_sizes(10, 20, 10));
    assert!(!parser.set_sizes(0, 20, 0));
    assert!(parser.set_sizes(10, 10, 9));
}

#[test]
fn a_line_too_long_for_any_chunk_fails_the_file() {
    let code = format!("x = 1\ny = \"{}\"\n", "a".repeat(4100));
    match parse_code(&code, "python") {
        Err(PrismError::ChunkTooLarge { actual, max }) => {
            assert_eq!(actual, (4100 + 7) / 4);
            assert_eq!(max, 1000);
        }
        _ => panic!("expected a chunk that is too large"),
    }
    // the parser is still good for the next text
    let mut parser = PrismParser::new("python").unwrap();
    assert!(parser.parse(&code).is_err());
    assert!(parser.parse("x = 1\n").is_ok());
}

#[test]
fn chunks_of_a_parsed_file_put_together_give_it_back() {
    let mut code = String::from("import os\nimport sys\n\n");
    for i in 0..40 {
        code.push_str(&format!(
            "def f{}(a, b):\n    # é is two bytes\n    return os.path.join(a, b)\n\n",
            i
        ));
    }
    let mut parser = PrismParser::new("python").unwrap();
    assert!(parser.set_sizes(60, 80, 10));
    let result = parser.parse(&code).unwrap();
    assert_eq!(result.functions.len(), 40);
    assert!(result.chunks.len() > 5);
    let offsets = line_offsets(&code);
    let mut joined = String::new();
    let mut next_line = 1;
    for chunk in &result.chunks {
        assert_eq!(chunk.start_line, next_line);
        let own = offsets[chunk.end_line] - offsets[chunk.start_line - 1];
        joined.push_str(&chunk.text[chunk.text.len() - own..]);
        next_line = chunk.end_line + 1;
        assert!(chunk.tokens <= 80);
        assert_eq!(chunk.tokens, estimate_tokens(&chunk.text));
        assert!(code.contains(&chunk.text));
    }
    assert_eq!(joined, code);
    // every function is in exactly one chunk
    let listed: usize = result.chunks.iter().map(|c| c.functions.len()).sum();
    assert_eq!(listed, 40);
    // only the first chunk holds the imports; the others depend on one
    assert_eq!(result.chunks[0].imports.len(), 2);
    assert!(result.chunks[0].dependencies.contains(&"os".to_string()));
    assert!(!result.chunks[0].dependencies.contains(&"sys".to_string()));
    let last = result.chunks.last().unwrap();
    assert!(last.imports.is_empty());
    assert_eq!(last.dependencies, vec!["os".to_string()]);
}

#[test]
fn records_of_other_languages() {
    let ts = parse_code(
        "import type {T} from './t';\nabstract class C extends B {\n  async run(a: number): Promise<void> {}\n}\n",
        "typescript",
    )
    .unwrap();
    assert_eq!(ts.classes[0].name, "C");
    assert_eq!(ts.classes[0].extends, Some("B".to_string()));
    assert!(ts.classes[0].implements.is_empty());
    assert_eq!(ts.functions[0].name, "run");
    assert!(ts.functions[0].is_async);
    assert_eq!(ts.functions[0].parameters, vec!["a".to_string()]);
    assert_eq!(ts.functions[0].return_type, Some(": Promise<void>".to_string()));
    assert_eq!(ts.chunks[0].imports.len(), 1);
    assert!(ts.chunks[0].imports[0].is_type_only);
    assert_eq!(ts.chunks[0].imports[0].source, "'./t'");
    assert_eq!(ts.chunks[0].imports[0].imported_names, vec!["T".to_string()]);

    let java = parse_code(
        "import java.util.List;\nclass A extends B {\n  int f(int a, String b) { return a; }\n}\n",
        "java",
    )
    .unwrap();
    assert_eq!(java.classes[0].methods[0].name, "f");
    assert_eq!(java.classes[0].extends, Some("B".to_string()));
    assert!(!java.functions[0].is_exported);
    assert_eq!(java.functions[0].parameters, vec!["a".to_string(), "b".to_string()]);
    assert_eq!(java.functions[0].return_type, Some("int".to_string()));
    assert_eq!(java.chunks[0].imports[0].source, "java.util.List");

    let go = parse_code(
        "package main\nimport m \"math\"\nfunc Get(a int) int { return a }\n",
        "go",
    )
    .unwrap();
    assert_eq!(go.functions[0].name, "Get");
    assert_eq!(go.functions[0].return_type, Some("int".to_string()));
    assert_eq!(go.chunks[0].imports[0].source, "\"math\"");
    assert_eq!(go.chunks[0].imports[0].imported_names, vec!["m".to_string()]);

    let js = parse_code(
        "import {a, b} from './x';\nexport async function foo(p, q = 1) {\n  return a(p);\n}\n",
        "javascript",
    )
    .unwrap();
    assert_eq!(js.functions[0].name, "foo");
    assert_eq!(js.functions[0].signature, "async function foo(p, q = 1) ");
    assert_eq!(js.functions[0].parameters, vec!["p".to_string(), "q".to_string()]);
    assert_eq!(js.chunks[0].imports[0].imported_names, vec!["a".to_string(), "b".to_string()]);
    assert_eq!(js.chunks[0].dependencies, vec!["a".to_string()]);
}

#[test]
fn a_grammar_serves_many_parsers() {
    let grammar = resolve("java").unwrap();
    assert_eq!(grammar.id, LanguageId::Java);
    assert_eq!(grammar.table.superclass, vec!["superclass", "extends_interfaces"]);
    let mut first = PrismParser::with_grammar(&grammar).unwrap();
    let mut second = PrismParser::with_grammar(&grammar).unwrap();
    assert_eq!(first.language(), LanguageId::Java);
    let a = first.parse("class A { void f() {} }\n").unwrap();
    let b = second.parse("class B { void g() {} }\n").unwrap();
    assert_eq!(a.classes[0].name, "A");
    assert_eq!(b.classes[0].name, "B");
    match resolve("cobol") {
        Err(PrismError::UnsupportedLanguage(name)) => assert_eq!(name, "cobol"),
        _ => panic!("expected an unsupported language"),
    }
}

#[test]
fn assembling_a_tree_written_by_hand() {
    let source = "def f(): pass\n?\n";
    let location = |start: (usize, usize), end: (usize, usize)| SourceLocation {
        start_row: start.0,
        start_column: start.1,
        end_row: end.0,
        end_column: end.1,
    };
    let node = |kind: &str, field: Option<&str>, parent: usize, bytes: (usize, usize), at: SourceLocation| {
        SyntaxNode {
            kind: kind.to_string(),
            field: field.map(|f| f.to_string()),
            parent,
            named: true,
            error: kind == "ERROR",
            missing: false,
            start_byte: bytes.0,
            end_byte: bytes.1,
            location: at,
        }
    };
    let tree = SyntaxTree::new(vec![
        node("module", None, 0, (0, 16), location((0, 0), (2, 0))),
        node("function_definition", None, 0, (0, 13), location((0, 0), (0, 13))),
        node("identifier", Some("name"), 1, (4, 5), location((0, 4), (0, 5))),
        node("ERROR", None, 0, (14, 15), location((1, 0), (1, 1))),
    ])
    .unwrap();
    let result = assemble(&tree, source, LanguageId::Python, 512, 1000, 128).unwrap();
    assert!(result.has_errors);
    assert_eq!(result.error_nodes.len(), 1);
    assert_eq!(result.error_nodes[0].text, "?");
    assert_eq!(result.functions.len(), 1);
    assert_eq!(result.functions[0].name, "f");
    assert!(result.classes.is_empty());
    assert_eq!(result.chunks.len(), 1);
    assert_eq!(result.chunks[0].text, source);
    assert_eq!(result.chunks[0].language, "python");
    assert_eq!((result.chunks[0].start_line, result.chunks[0].end_line), (1, 2));
    // sizes of two tokens: the function line alone is three
    match assemble(&tree, source, LanguageId::Python, 2, 2, 1) {
        Err(PrismError::ChunkTooLarge { actual, max }) => {
            assert_eq!((actual, max), (3, 2));
        }
        _ => panic!("expected a chunk that is too large"),
    }
}

fn own_texts(result: &ParseResult, code: &str) -> String {
    let offsets = line_offsets(code);
    let mut joined = String::new();
    for chunk in &result.chunks {
        let own = offsets[chunk.end_line] - offsets[chunk.start_line - 1];
        joined.push_str(&chunk.text[chunk.text.len() - own..]);
    }
    joined
}

#[test]
fn a_large_file_is_indexed_whole() {
    let mut code = String::from("import os\nimport sys\nfrom a import b\n\n");
    for i in 0..2000 {
        code.push_str(&format!(
            "class C{}:\n    def m(self, x, y=1):\n        return os.sep + b(x)\n\n    def n(self):\n        return sys.argv\n\n",
            i
        ));
    }
    let result = parse_code(&code, "python").unwrap();
    assert!(!result.has_errors);
    assert_eq!(result.classes.len(), 2000);
    assert_eq!(result.functions.len(), 4000);
    assert_eq!(own_texts(&result, &code), code);
    let listed: usize = result.chunks.iter().map(|c| c.classes.len()).sum();
    assert_eq!(listed, 2000);
    for chunk in &result.chunks {
        assert!(chunk.tokens <= 1000);
        assert_eq!(chunk.tokens, estimate_tokens(&chunk.text));
    }
    // a chunk in the middle holds no import and refers to all three
    let middle = &result.chunks[result.chunks.len() / 2];
    assert!(middle.imports.is_empty());
    assert_eq!(middle.dependencies, vec!["os".to_string(), "sys".to_string(), "b".to_string()]);
}

#[test]
fn deeply_nested_code_is_cut_level_by_level() {
    let mut code = String::new();
    for depth in 0..120 {
        code.push_str(&"    ".repeat(depth));
        code.push_str("if x:\n");
    }
    code.push_str(&"    ".repeat(120));
    code.push_str("pass\n");
    let mut parser = PrismParser::new("python").unwrap();
    assert!(parser.set_sizes(200, 300, 20));
    let result = parser.parse(&code).unwrap();
    assert!(result.chunks.len() > 10);
    assert_eq!(own_texts(&result, &code), code);
    for chunk in &result.chunks {
        assert!(chunk.tokens <= 300);
    }
}

#[test]
fn names_of_parameters_supertypes_and_interfaces() {
    let python = parse_code(
        "import os\nimport os.path as p\nfrom . import x\nclass A(B, C):\n    async def m(self, x: int, y: int = 3, *args, z=1, **kw) -> int:\n        return x\n",
        "python",
    )
    .unwrap();
    assert_eq!(python.functions[0].parameters, vec!["self", "x", "y", "args", "z", "kw"]);
    assert_eq!(python.functions[0].return_type, Some("int".to_string()));
    assert!(python.functions[0].is_async);
    assert!(!python.functions[0].is_exported);
    assert_eq!(python.classes[0].extends, Some("B".to_string()));
    assert!(python.classes[0].implements.is_empty());
    let sources: Vec<&str> =
        python.chunks[0].imports.iter().map(|i| i.source.as_str()).collect();
    assert_eq!(sources, vec!["os", "os.path", "."]);

    let ts = parse_code(
        "export abstract class C<T> extends B<T> implements I, J<T> {\n  public async run(a: number, b?: string, ...c: any[]): Promise<void> {}\n}\ninterface M extends N {}\nexport function f(x: number) {}\n",
        "typescript",
    )
    .unwrap();
    assert_eq!(ts.classes[0].extends, Some("B".to_string()));
    assert_eq!(ts.classes[0].implements, vec!["I", "J"]);
    assert_eq!(ts.classes[1].name, "M");
    assert_eq!(ts.classes[1].extends, Some("N".to_string()));
    assert_eq!(ts.functions[0].parameters, vec!["a", "b", "c"]);
    assert!(ts.functions[0].is_async);
    assert!(!ts.functions[0].is_exported);
    assert_eq!(ts.functions[1].name, "f");
    assert!(ts.functions[1].is_exported);

    let java = parse_code(
        "public class A<T> extends B<T> implements C, D<T> {\n  public int f(int a, String... b) { return a; }\n  void g(final List<String> xs) {}\n}\ninterface E extends F, G {}\n",
        "java",
    )
    .unwrap();
    assert_eq!(java.classes[0].extends, Some("B".to_string()));
    assert_eq!(java.classes[0].implements, vec!["C", "D"]);
    assert_eq!(java.classes[1].extends, Some("F".to_string()));
    assert_eq!(java.functions[0].parameters, vec!["a", "b"]);
    assert!(java.functions[0].is_exported);
    assert_eq!(java.functions[1].parameters, vec!["xs"]);
    assert!(!java.functions[1].is_exported);

    let rust = parse_code(
        "impl S {\n    pub async fn go(&self, mut n: usize) -> usize { n }\n    fn private(self) {}\n}\npub trait T: Clone + Debug { fn t(&self); }\n",
        "rust",
    )
    .unwrap();
    assert_eq!(rust.functions[0].parameters, vec!["self", "n"]);
    assert!(rust.functions[0].is_async);
    assert!(rust.functions[0].is_exported);
    assert!(!rust.functions[1].is_async);
    assert!(!rust.functions[1].is_exported);
    assert_eq!(rust.classes[0].extends, Some("Clone".to_string()));

    let go = parse_code(
        "package main\nfunc (p P) Get(a, b int, c string, d ...int) int { return 1 }\n",
        "go",
    )
    .unwrap();
    assert_eq!(go.functions[0].parameters, vec!["a", "b", "c", "d"]);

    let js = parse_code(
        "export async function foo(p, q = 1, ...rest) {}\nclass K extends B {\n  baz() {}\n}\nclass L {}\n",
        "javascript",
    )
    .unwrap();
    assert_eq!(js.functions[0].parameters, vec!["p", "q", "rest"]);
    assert!(js.functions[0].is_exported);
    assert!(js.functions[0].is_async);
    assert_eq!(js.classes[0].extends, Some("B".to_string()));
    assert_eq!(js.classes[1].extends, None);
    let qualified = parse_code("class K extends a.B {}\n", "javascript").unwrap();
    assert_eq!(qualified.classes[0].extends, Some("a.B".to_string()));
    let qualified = parse_code("class K(mod.Base, Other):\n    pass\n", "python").unwrap();
    assert_eq!(qualified.classes[0].extends, Some("mod.Base".to_string()));
    assert!(!js.functions[1].is_exported);
}

#[test]
fn every_chunk_has_an_id_of_its_own() {
    let result = parse_code(&class_of_two_methods(), "python").unwrap();
    assert_eq!(result.chunks.len(), 3);
    for chunk in &result.chunks {
        assert_eq!(chunk.id.len(), 36);
    }
    assert_ne!(result.chunks[0].id, result.chunks[1].id);
    assert_ne!(result.chunks[1].id, result.chunks[2].id);
    assert_ne!(result.chunks[0].id, result.chunks[2].id);
}

#[test]
fn malformed_code_still_gives_a_tree_in_order() {
    let snippets = [
        "def f(:\n  x = (1,\n\nclass A(:\n    def g(self)\n        return [1, 2\n",
        "function f( { return 1 }\nclass { x = ; }\n}}}} (((\nconst a = `unterminated\n",
        "fn f( -> { let x = ; }\nimpl for { fn }\nstruct S { a: , }\n\"open string\n",
        "package main\nfunc ( { return }\ntype T struct { a }\nimport (\n\"x\n",
        "class A { void f( { int x = ; } }\ninterface { }\n@@@\n/* open comment\n",
        "interface I { m(: void }\nexport default class extends {}\nlet x: = <T>(a;\n",
        "\n\n\n",
        "\t \r\n\r\n x \r\n",
        "é = 'ü'\nλ = lambda: 0\n# 日本語\n",
    ];
    for language in get_supported_languages() {
        for code in snippets {
            match parse_code(code, &language) {
                Ok(result) => {
                    assert!(!result.chunks.is_empty());
                    assert_eq!(own_texts(&result, code), code);
                    for pair in result.functions.windows(2) {
                        assert!(pair[0].start_line <= pair[1].start_line);
                    }
                    for pair in result.error_nodes.windows(2) {
                        let a = (pair[0].location.start_row, pair[0].location.start_column);
                        let b = (pair[1].location.start_row, pair[1].location.start_column);
                        assert!(a <= b);
                    }
                }
                Err(e) => panic!("{} failed on {:?}: {}", language, code, e.message()),
            }
        }
    }
}
