use who_lang_java::{
    build_qualified_name, calls_local_render_text, commented_out_call, extract_package_name,
    extract_signature, extract_visibility, find_enclosing_symbol, fits_source, has_modifier, in_source_order,
    node_range, node_text, render_text, truncate_utf8, JavaParser, OutlineError, RefKind,
    RenderCtx, SourceRange, Symbol, SymbolKind, SyntaxNode, SyntaxTree, Visibility,
};

fn symbols_of(source: &[u8]) -> Vec<Symbol> {
    let tree = JavaParser::parse_source(source).unwrap();
    let root = tree.root_node();
    let parser = JavaParser::new();
    let pkg = extract_package_name(root, source);
    let mut symbols = Vec::new();
    parser.extract_symbols(root, source, 7, &pkg, &[], &mut symbols);
    symbols
}

fn node(kind: &str, field: Option<&str>, depth: usize, start: usize, end: usize) -> SyntaxNode {
    SyntaxNode {
        kind: kind.to_string(),
        field: field.map(|f| f.to_string()),
        depth,
        start_byte: start,
        end_byte: end,
        start_row: 0,
        start_col: start,
        end_row: 0,
        end_col: end,
    }
}

#[test]
fn truncate_keeps_short_text() {
    assert_eq!(truncate_utf8("hello", 10), "hello");
    assert_eq!(truncate_utf8("hello", 5), "hello");
}

#[test]
fn truncate_cuts_long_ascii_text() {
    let s = "a".repeat(130);
    let t = truncate_utf8(&s, 120);
    assert_eq!(t, format!("{}...", "a".repeat(117)));
    assert_eq!(t.len(), 120);
}

#[test]
fn truncate_cuts_at_char_boundary() {
    assert_eq!(truncate_utf8("a\u{e9}\u{e9}\u{e9}\u{e9}", 7), "a\u{e9}...");
    assert_eq!(truncate_utf8("abcdef", 2), "...");
}

#[test]
fn qualified_name_joins_parts() {
    assert_eq!(build_qualified_name("", &[], "f"), "f");
    let stack = vec!["A".to_string(), "B".to_string()];
    assert_eq!(build_qualified_name("p.q", &stack, "m"), "p.q.A.B.m");
    assert_eq!(build_qualified_name("", &stack, "m"), "A.B.m");
}

#[test]
fn protected_and_default_visibility() {
    let source = b"class C {\n    protected void a() {}\n    void b() {}\n    static private int c() { return 0; }\n}\n";
    let symbols = symbols_of(source);
    assert_eq!(symbols.len(), 3);
    assert_eq!(symbols[0].visibility, Visibility::PubCrate);
    assert_eq!(symbols[1].visibility, Visibility::Private);
    assert_eq!(symbols[2].visibility, Visibility::Private);
    assert_eq!(symbols[2].kind, SymbolKind::ClassMethod);
    assert_eq!(symbols[0].qualified_name, "C.a");
}

#[test]
fn symbols_carry_file_id_signature_and_range() {
    let source = b"package p;\n\npublic class App {\n    public void run(int x) {\n    }\n}\n";
    let symbols = symbols_of(source);
    assert_eq!(symbols.len(), 1);
    let s = &symbols[0];
    assert_eq!(s.id, 0);
    assert_eq!(s.file_id, 7);
    assert_eq!(s.signature.as_deref(), Some("public void run(int x)"));
    assert_eq!(
        s.range,
        SourceRange { start_line: 4, start_col: 5, end_line: 5, end_col: 6 }
    );
}

#[test]
fn interface_method_signature_ends_at_semicolon() {
    let source = b"interface I {\n    int size();\n}\n";
    let symbols = symbols_of(source);
    assert_eq!(symbols.len(), 1);
    assert_eq!(symbols[0].signature.as_deref(), Some("int size()"));
    assert_eq!(symbols[0].kind, SymbolKind::TraitMethodDecl);
    assert_eq!(symbols[0].qualified_name, "I.size");
}

#[test]
fn nested_types_extend_the_qualified_name() {
    let source = b"package n;\nclass Outer {\n    class Inner {\n        void m() {}\n    }\n    interface Api {\n        void call();\n        class Impl { Impl() {} }\n    }\n    enum E { A; }\n}\n";
    let symbols = symbols_of(source);
    let names: Vec<&str> = symbols.iter().map(|s| s.qualified_name.as_str()).collect();
    assert_eq!(names, vec!["n.Outer.Inner.m", "n.Outer.Api.call", "n.Outer.Api.Impl.Impl"]);
}

#[test]
fn enum_methods_after_constants_are_not_found() {
    let source = b"enum Color {\n    ;\n    void paint() {}\n}\n";
    let symbols = symbols_of(source);
    assert_eq!(symbols.len(), 0);
}

#[test]
fn static_import_keeps_static_word() {
    let source = b"import static java.lang.Math.max;\nimport a.b.C;\nclass X {}\n";
    let tree = JavaParser::parse_source(source).unwrap();
    let mut imports = Vec::new();
    JavaParser::new().extract_imports(tree.root_node(), source, 3, &mut imports);
    assert_eq!(imports.len(), 2);
    assert_eq!(imports[0].qualified_target, "static java.lang.Math.max");
    assert_eq!(imports[0].local_name, "max");
    assert_eq!(imports[1].qualified_target, "a.b.C");
    assert_eq!(imports[1].local_name, "C");
    assert_eq!(imports[1].start_line, 2);
    assert_eq!(imports[1].start_col, 1);
    assert_eq!(imports[1].file_id, 3);
    assert_eq!(imports[1].alias, None);
}

#[test]
fn call_references_are_attributed_to_enclosing_symbol() {
    let source = b"package com.example;\n\npublic class App {\n    public void run() {\n        process();\n        Object o = new App();\n    }\n    private void process() {\n    }\n}\n";
    let tree = JavaParser::parse_source(source).unwrap();
    let root = tree.root_node();
    let parser = JavaParser::new();
    let pkg = extract_package_name(root, source);
    let mut symbols = Vec::new();
    parser.extract_symbols(root, source, 1, &pkg, &[], &mut symbols);
    for (i, s) in symbols.iter_mut().enumerate() {
        s.id = (i + 10) as i64;
    }
    let mut refs = Vec::new();
    parser.extract_calls(root, source, 1, &symbols, &mut refs);
    assert_eq!(refs.len(), 2);
    assert_eq!(refs[0].text, "process()");
    assert_eq!(refs[0].source_symbol_id, Some(10));
    assert_eq!(refs[0].target_symbol_id, 0);
    assert_eq!(refs[0].kind, RefKind::Call);
    assert_eq!(refs[0].start_line, 5);
    assert_eq!(refs[0].start_col, 9);
    assert_eq!(refs[1].text, "new App()");
    assert_eq!(refs[1].source_symbol_id, Some(10));
}

#[test]
fn call_outside_every_symbol_has_no_source_symbol() {
    let source = b"class A {\n    int x = compute();\n}\n";
    let tree = JavaParser::parse_source(source).unwrap();
    let mut refs = Vec::new();
    JavaParser::new().extract_calls(tree.root_node(), source, 1, &[], &mut refs);
    assert_eq!(refs.len(), 1);
    assert_eq!(refs[0].source_symbol_id, None);
}

#[test]
fn long_call_text_is_truncated() {
    let arg = "x".repeat(200);
    let source = format!("class A {{ void f() {{ g(\"{}\"); }} }}\n", arg);
    let tree = JavaParser::parse_source(source.as_bytes()).unwrap();
    let mut refs = Vec::new();
    JavaParser::new().extract_calls(tree.root_node(), source.as_bytes(), 1, &[], &mut refs);
    assert_eq!(refs.len(), 1);
    assert_eq!(refs[0].text.len(), 120);
    assert!(refs[0].text.ends_with("..."));
    assert!(refs[0].text.starts_with("g(\"xxx"));
}

fn symbol_at(id: i64, start: u32, end: u32) -> Symbol {
    Symbol {
        id,
        file_id: 1,
        name: "s".to_string(),
        qualified_name: "s".to_string(),
        kind: SymbolKind::Method,
        range: SourceRange { start_line: start, start_col: 1, end_line: end, end_col: 1 },
        signature: None,
        visibility: Visibility::Private,
    }
}

#[test]
fn enclosing_symbol_is_the_innermost() {
    let source = b"class A {\n  void f() {\n    g();\n  }\n}\n";
    let tree = JavaParser::parse_source(source).unwrap();
    let mut refs = Vec::new();
    JavaParser::new().extract_calls(tree.root_node(), source, 1, &[], &mut refs);
    assert_eq!(refs[0].start_line, 3);
    let symbols = vec![symbol_at(1, 1, 5), symbol_at(2, 2, 4), symbol_at(3, 3, 4), symbol_at(4, 3, 4), symbol_at(5, 6, 9)];
    let mut cursor = vec![tree.root_node()];
    let mut call = None;
    while let Some(n) = cursor.pop() {
        if n.kind_is("method_invocation") {
            call = Some(n);
        }
        cursor.extend(n.children());
    }
    let found = find_enclosing_symbol(call.unwrap(), &symbols).unwrap();
    assert_eq!(found.id, 3);
    assert!(find_enclosing_symbol(call.unwrap(), &symbols[4..]).is_none());
    assert!(symbols[0].contains_line(5));
    assert!(!symbols[0].contains_line(6));
}

#[test]
fn node_helpers_read_the_source() {
    let source = b"class A {\n    public static void m() {}\n}\n";
    let tree = JavaParser::parse_source(source).unwrap();
    let root = tree.root_node();
    let class = root.children()[0];
    assert!(class.kind_is("class_declaration"));
    let name = class.child_by_field_name("name").unwrap();
    assert_eq!(node_text(name, source), "A");
    let body = class.child_by_field_name("body").unwrap();
    let method = body.children().into_iter().find(|c| c.kind_is("method_declaration")).unwrap();
    assert!(has_modifier(method, source, "static"));
    assert!(!has_modifier(method, source, "final"));
    assert_eq!(extract_visibility(method, source), Visibility::Public);
    assert_eq!(extract_signature(method, source), "public static void m()");
    assert_eq!(
        node_range(method),
        SourceRange { start_line: 2, start_col: 5, end_line: 2, end_col: 30 }
    );
    assert!(class.child_by_field_name("superclass").is_none());
}

#[test]
fn signature_without_brace_or_semicolon_takes_first_line() {
    let source = b"class A {}\nx y\nz";
    let tree = SyntaxTree::from_nodes(vec![node("program", None, 0, 0, 14), node("x", None, 1, 11, 16)]).unwrap();
    let root = tree.root_node();
    let x = root.children()[0];
    assert_eq!(extract_signature(x, &source[..]), "x y");
    let _ = root;
}

#[test]
fn hand_built_tree_gives_package() {
    let source = b"package a.b;";
    let nodes = vec![
        node("program", None, 0, 0, 12),
        node("package_declaration", None, 1, 0, 12),
        node("package", None, 2, 0, 7),
        node("scoped_identifier", None, 2, 8, 11),
        node(";", None, 2, 11, 12),
    ];
    let tree = SyntaxTree::from_nodes(nodes).unwrap();
    assert_eq!(extract_package_name(tree.root_node(), source), "a.b");
    assert!(SyntaxTree::from_nodes(Vec::new()).is_none());
}

#[test]
fn invalid_utf8_node_text_is_empty() {
    let source: &[u8] = &[b'a', 0xff, b'b'];
    let tree = SyntaxTree::from_nodes(vec![node("program", None, 0, 0, 3)]).unwrap();
    assert_eq!(node_text(tree.root_node(), source), "");
    let ok: &[u8] = b"a\xc3\xa9b";
    let tree = SyntaxTree::from_nodes(vec![node("program", None, 0, 0, 4)]).unwrap();
    assert_eq!(node_text(tree.root_node(), ok), "a\u{e9}b");
}

#[test]
fn parse_outline_reads_the_whole_file() {
    let source = b"package p;\nimport q.R;\nimport q.*;\nclass A { void f() { g(); } }\n";
    let parser = JavaParser::new();
    let (tree, outline) = parser.parse_outline(source, 4).unwrap();
    assert_eq!(outline.package, "p");
    assert_eq!(outline.symbols.len(), 1);
    assert_eq!(outline.symbols[0].qualified_name, "p.A.f");
    assert_eq!(outline.imports.len(), 1);
    assert_eq!(outline.imports[0].qualified_target, "q.R");
    let refs = parser.call_sites(&tree, source, 4, &outline.symbols).unwrap();
    assert_eq!(refs.len(), 1);
    assert_eq!(refs[0].text, "g()");
    assert_eq!(refs[0].source_file_id, 4);
    assert!(fits_source(&tree, source));
}

#[test]
fn call_sites_refuse_a_tree_outside_the_source() {
    let source = b"class A { void f() { g(); } }\n";
    let tree = JavaParser::parse_source(source).unwrap();
    assert!(!fits_source(&tree, b"class"));
    assert!(JavaParser::new().call_sites(&tree, b"class", 1, &[]).is_none());
    assert_ne!(OutlineError::OutsideSource, OutlineError::Syntax(who_lang_java::SyntaxError::NoTree));
}

#[test]
fn parse_source_gives_a_program_tree() {
    let source = b"class A {}";
    let tree = JavaParser::parse_source(source).unwrap();
    let root = tree.root_node();
    assert!(root.kind_is("program"));
    assert!(tree.len() > 3);
    assert_eq!(tree.node_at(0).end_byte, source.len());
}

#[test]
fn language_identity() {
    let parser = JavaParser::default();
    assert_eq!(parser.language_id(), "java");
    assert_eq!(parser.file_extensions(), &["java"]);
}

#[test]
fn edge_case_renderers() {
    let mut ctx = RenderCtx::new();
    commented_out_call(&mut ctx);
    render_text(&mut ctx, "anything");
    calls_local_render_text(&mut ctx);
    assert_eq!(ctx.len(), 3);
    assert_eq!(ctx.line(0), "only this line runs");
    assert_eq!(ctx.line(1), "this is a DIFFERENT render_text, not the one in render.rs");
    assert_eq!(ctx.line(2), ctx.line(1));
}

#[test]
fn symbols_come_in_source_order() {
    let source = b"class A {\n    void a() {}\n    class B {\n        void b() {}\n    }\n    A() {}\n}\ninterface I { void i(); }\n";
    let symbols = symbols_of(source);
    let starts: Vec<(u32, u32)> = symbols.iter().map(|s| (s.range.start_line, s.range.start_col)).collect();
    assert_eq!(starts, vec![(2, 5), (4, 9), (6, 5), (8, 15)]);
    let mut sorted = starts.clone();
    sorted.sort();
    assert_eq!(starts, sorted);
}

#[test]
fn parse_source_always_gives_a_tree() {
    let tree = JavaParser::parse_source(b"").unwrap();
    assert!(tree.root_node().kind_is("program"));
    let tree = JavaParser::parse_source(b"}}} not java {{{").unwrap();
    assert!(tree.len() >= 1);
}

#[test]
fn parsed_trees_follow_the_source() {
    let source = b"class A {\n    void a() {}\n    A() {}\n}\n";
    let tree = JavaParser::parse_source(source).unwrap();
    assert!(in_source_order(&tree));
    let tree = JavaParser::parse_source(b"}}} not java {{{").unwrap();
    assert!(in_source_order(&tree));
}

#[test]
fn a_start_that_goes_back_is_out_of_order() {
    let tree = SyntaxTree::from_nodes(vec![
        node("program", None, 0, 0, 10),
        node("a", None, 1, 4, 6),
        node("b", None, 1, 2, 3),
    ])
    .unwrap();
    assert!(!in_source_order(&tree));
}

#[test]
fn overlapping_siblings_are_out_of_order() {
    let tree = SyntaxTree::from_nodes(vec![
        node("program", None, 0, 0, 10),
        node("a", None, 1, 0, 6),
        node("b", None, 1, 4, 8),
    ])
    .unwrap();
    assert!(!in_source_order(&tree));
    let nested = SyntaxTree::from_nodes(vec![
        node("program", None, 0, 0, 10),
        node("a", None, 1, 0, 6),
        node("b", None, 2, 4, 8),
        node("c", None, 1, 8, 9),
    ])
    .unwrap();
    assert!(in_source_order(&nested));
}

#[test]
fn outline_symbols_start_strictly_in_order() {
    let source = b"class A { void a() {} void b() {} }\ninterface I { void i(); }\n";
    let (_, outline) = JavaParser::new().parse_outline(source, 2).unwrap();
    let starts: Vec<(u32, u32)> =
        outline.symbols.iter().map(|s| (s.range.start_line, s.range.start_col)).collect();
    assert_eq!(starts, vec![(1, 11), (1, 23), (2, 15)]);
    assert!(starts.windows(2).all(|w| w[0] < w[1]));
}

#[test]
fn outline_errors_are_distinct() {
    assert_ne!(OutlineError::OutOfOrder, OutlineError::OutsideSource);
    assert_ne!(OutlineError::EmptyDeclaration, OutlineError::OutOfOrder);
}
