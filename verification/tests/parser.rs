use who_lang_java::{extract_package_name, JavaParser, SymbolKind, Visibility};

#[test]
fn parse_simple_class() {
    let source =
        b"package com.example;\n\npublic class App {\n    public void run() {\n    }\n}\n";
    let tree = JavaParser::parse_source(source).unwrap();
    let root = tree.root_node();
    let parser = JavaParser::new();
    let pkg = extract_package_name(root, source);
    assert_eq!(pkg, "com.example");
    let mut symbols = Vec::new();
    parser.extract_symbols(root, source, 1, &pkg, &[], &mut symbols);
    assert_eq!(symbols.len(), 1);
    assert_eq!(symbols[0].name, "run");
    assert_eq!(symbols[0].qualified_name, "com.example.App.run");
    assert_eq!(symbols[0].kind, SymbolKind::Method);
    assert_eq!(symbols[0].visibility, Visibility::Public);
}

#[test]
fn parse_static_method() {
    let source = b"package util;\n\npublic class StringUtils {\n    public static String capitalize(String s) {\n        return s;\n    }\n}\n";
    let tree = JavaParser::parse_source(source).unwrap();
    let root = tree.root_node();
    let parser = JavaParser::new();
    let pkg = extract_package_name(root, source);
    let mut symbols = Vec::new();
    parser.extract_symbols(root, source, 1, &pkg, &[], &mut symbols);
    assert_eq!(symbols.len(), 1);
    assert_eq!(symbols[0].name, "capitalize");
    assert_eq!(symbols[0].kind, SymbolKind::ClassMethod);
}

#[test]
fn parse_constructor() {
    let source = b"package com.example;\n\npublic class App {\n    public App(String name) {\n    }\n}\n";
    let tree = JavaParser::parse_source(source).unwrap();
    let root = tree.root_node();
    let parser = JavaParser::new();
    let pkg = extract_package_name(root, source);
    let mut symbols = Vec::new();
    parser.extract_symbols(root, source, 1, &pkg, &[], &mut symbols);
    assert_eq!(symbols.len(), 1);
    assert_eq!(symbols[0].name, "App");
    assert_eq!(symbols[0].qualified_name, "com.example.App.App");
}

#[test]
fn parse_interface_methods() {
    let source = b"package svc;\n\npublic interface Greeting {\n    String greet(String name);\n    default String greetAll(String[] names) {\n        return \"\";\n    }\n}\n";
    let tree = JavaParser::parse_source(source).unwrap();
    let root = tree.root_node();
    let parser = JavaParser::new();
    let pkg = extract_package_name(root, source);
    let mut symbols = Vec::new();
    parser.extract_symbols(root, source, 1, &pkg, &[], &mut symbols);
    assert_eq!(symbols.len(), 2);
    let decl = symbols.iter().find(|s| s.name == "greet").unwrap();
    assert_eq!(decl.kind, SymbolKind::TraitMethodDecl);
    assert_eq!(decl.qualified_name, "svc.Greeting.greet");
    let default = symbols.iter().find(|s| s.name == "greetAll").unwrap();
    assert_eq!(default.kind, SymbolKind::Method);
}

#[test]
fn parse_imports() {
    let source = b"package com.example;\n\nimport java.util.List;\nimport java.util.ArrayList;\nimport com.example.utils.StringUtils;\n\npublic class App {\n}\n";
    let tree = JavaParser::parse_source(source).unwrap();
    let root = tree.root_node();
    let parser = JavaParser::new();
    let mut imports = Vec::new();
    parser.extract_imports(root, source, 1, &mut imports);
    assert_eq!(imports.len(), 3);
    assert!(imports
        .iter()
        .any(|i| i.local_name == "List" && i.qualified_target == "java.util.List"));
    assert!(imports.iter().any(|i| i.local_name == "StringUtils"
        && i.qualified_target == "com.example.utils.StringUtils"));
}

#[test]
fn parse_wildcard_import_skipped() {
    let source = b"package com.example;\n\nimport java.util.*;\n\npublic class App {\n}\n";
    let tree = JavaParser::parse_source(source).unwrap();
    let root = tree.root_node();
    let parser = JavaParser::new();
    let mut imports = Vec::new();
    parser.extract_imports(root, source, 1, &mut imports);
    assert!(imports.is_empty());
}

#[test]
fn parse_method_calls() {
    let source = b"package com.example;\n\npublic class App {\n    public void run() {\n        process();\n        System.out.println(\"hi\");\n    }\n    private void process() {\n    }\n}\n";
    let tree = JavaParser::parse_source(source).unwrap();
    let root = tree.root_node();
    let parser = JavaParser::new();
    let pkg = extract_package_name(root, source);
    let mut symbols = Vec::new();
    parser.extract_symbols(root, source, 1, &pkg, &[], &mut symbols);
    for (i, s) in symbols.iter_mut().enumerate() {
        s.id = (i + 1) as i64;
    }
    let mut refs = Vec::new();
    parser.extract_calls(root, source, 1, &symbols, &mut refs);
    assert!(refs.len() >= 2);
}

#[test]
fn parse_private_visibility() {
    let source =
        b"package com.example;\n\npublic class App {\n    private void secret() {\n    }\n}\n";
    let tree = JavaParser::parse_source(source).unwrap();
    let root = tree.root_node();
    let parser = JavaParser::new();
    let pkg = extract_package_name(root, source);
    let mut symbols = Vec::new();
    parser.extract_symbols(root, source, 1, &pkg, &[], &mut symbols);
    assert_eq!(symbols[0].visibility, Visibility::Private);
}

#[test]
fn parse_no_package() {
    let source =
        b"public class Main {\n    public static void main(String[] args) {\n    }\n}\n";
    let tree = JavaParser::parse_source(source).unwrap();
    let root = tree.root_node();
    let parser = JavaParser::new();
    let pkg = extract_package_name(root, source);
    assert_eq!(pkg, "");
    let mut symbols = Vec::new();
    parser.extract_symbols(root, source, 1, &pkg, &[], &mut symbols);
    assert_eq!(symbols[0].qualified_name, "Main.main");
}
