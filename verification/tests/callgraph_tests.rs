use rust_rag::callgraph::{file_stem, is_trivial_call};

#[test]
fn test_is_trivial_call() {
    assert!(is_trivial_call("true"));
    assert!(is_trivial_call("false"));
    assert!(is_trivial_call("self"));
    assert!(is_trivial_call("Self"));
    assert!(is_trivial_call("super"));
    assert!(!is_trivial_call("foo"));
}

#[test]
fn test_file_stem() {
    let path = "/some/path/myfile.rs";
    assert_eq!(file_stem(path), "myfile");
}

#[test]
fn test_trivial_call_ignores_surrounding_whitespace() {
    assert!(is_trivial_call("  self \n"));
    assert!(is_trivial_call("   "));
    assert!(!is_trivial_call(" helper "));
}

#[test]
fn test_file_stem_without_stem_is_unknown() {
    assert_eq!(file_stem(""), "unknown");
    assert_eq!(file_stem("/"), "unknown");
}

fn edge_list(g: &rust_rag::callgraph::SymbolGraph) -> Vec<(usize, usize)> {
    g.raw_edges().iter().map(|e| (e.source().index(), e.target().index())).collect()
}

fn function_chunk(file: &str, line: usize, module: &str, text: &str) -> rust_rag::indexer::Chunk {
    rust_rag::indexer::Chunk {
        file_path: file.to_string(),
        line_start: line,
        line_end: line + text.len(),
        module_name: module.to_string(),
        symbol_kind: rust_rag::indexer::SymbolKind::Function,
        text: text.to_string(),
        max_nesting_depth: Some(1),
    }
}

#[test]
fn test_build_call_graph_links_callee_by_symbol_name() {
    let chunks = vec![
        function_chunk("src/main.rs", 0, "main/my_func", "fn my_func() { helper(); }"),
        function_chunk("src/lib.rs", 50, "lib/helper", "fn helper() {}"),
    ];
    let (g, keys) = rust_rag::callgraph::build_call_graph(&chunks).unwrap();
    assert_eq!(g.node_count(), 2);
    assert_eq!(keys, vec!["main:0:main/my_func:Function".to_string(), "lib:50:lib/helper:Function".to_string()]);
    assert_eq!(edge_list(&g), vec![(0, 1)]);
    assert_eq!(g[petgraph::graph::NodeIndex::new(1)].name, "lib/helper");
    assert_eq!(g[petgraph::graph::NodeIndex::new(1)].file_path, "src/lib.rs");
}

#[test]
fn test_build_call_graph_matches_last_path_segment() {
    let chunks = vec![
        function_chunk("src/a.rs", 1, "a/run", "fn run() { crate::b::helper(); missing(); }"),
        function_chunk("src/b.rs", 2, "b/helper", "fn helper() { run(); }"),
    ];
    let (g, _keys) = rust_rag::callgraph::build_call_graph(&chunks).unwrap();
    assert_eq!(edge_list(&g), vec![(0, 1), (1, 0)]);
}

#[test]
fn test_text_after_last() {
    assert_eq!(rust_rag::callgraph::text_after_last("crate::b::helper", ':'), "helper");
    assert_eq!(rust_rag::callgraph::text_after_last("helper", ':'), "helper");
    assert_eq!(rust_rag::callgraph::text_after_last("lib/helper", '/'), "helper");
    assert_eq!(rust_rag::callgraph::text_after_last("lib/", '/'), "");
}
