use rust_rag::diagnostics::chunk_diagnostics;
use rust_rag::indexer::{Chunk, SymbolKind};

fn chunk(file: &str, start: usize, end: usize, module: &str, kind: SymbolKind, text: &str, depth: Option<usize>) -> Chunk {
    Chunk {
        file_path: file.to_string(),
        line_start: start,
        line_end: end,
        module_name: module.to_string(),
        symbol_kind: kind,
        text: text.to_string(),
        max_nesting_depth: depth,
    }
}

fn max_for(v: &[(String, usize)], file: &str) -> Option<usize> {
    v.iter().find(|(f, _)| f == file).map(|(_, d)| *d)
}

#[test]
fn test_chunk_diagnostics_empty() {
    let diags = chunk_diagnostics(&Vec::new());
    assert_eq!(diags.chunk_count, 0);
    assert_eq!(diags.file_count, 0);
}

#[test]
fn test_chunk_diagnostics_with_separators() {
    let chunks = vec![
        chunk("a.rs", 0, 20, "func_a", SymbolKind::Function, "fn a() {} \n---\ncontext_from_neighbor\n---\nfn a() {}", None),
        chunk("a.rs", 20, 40, "func_b", SymbolKind::Function, "fn b() {}", None),
    ];
    let diags = chunk_diagnostics(&chunks);
    assert_eq!(diags.chunk_count, 2);
    assert_eq!(diags.file_count, 1);
    assert_eq!(diags.chunks_with_parent_context, 1);
}

#[test]
fn test_chunk_diagnostics_kind_breakdown() {
    let chunks = vec![
        chunk("a.rs", 0, 10, "f", SymbolKind::Function, "fn f() {}", None),
        chunk("b.rs", 0, 10, "impl", SymbolKind::ImplBlock, "impl X {}", None),
    ];
    let diags = chunk_diagnostics(&chunks);
    assert_eq!(diags.chunk_count, 2);
    assert!(diags.kinds_breakdown.iter().any(|(k, _)| k == "Function"), "Should report Function kind");
    assert!(diags.kinds_breakdown.iter().any(|(k, _)| k == "ImplBlock"), "Should report ImplBlock kind");
}

#[test]
fn test_eval_diagnostics_nesting_quality() {
    let chunks = vec![
        chunk("a.rs", 0, 10, "simple", SymbolKind::Function, "fn simple() {}", Some(2)),
        chunk(
            "a.rs",
            10,
            40,
            "impl Foo",
            SymbolKind::ImplBlock,
            "impl Foo {\n    fn a(&self) {}\n    fn b(&mut self) { if true {} }\n}",
            Some(3),
        ),
        chunk("b.rs", 0, 20, "mod_b/helper", SymbolKind::Function, "fn helper() { for _ in 0..1 {} }", Some(2)),
    ];
    let diags = chunk_diagnostics(&chunks);
    assert_eq!(diags.chunk_count, 3);
    assert_eq!(diags.file_count, 2);
    let avg_nesting_depth = diags.nesting_depth_sum as f64 / diags.chunks_with_depth as f64;
    assert!((avg_nesting_depth - 7.0 / 3.0).abs() < 0.01);
    let file_pct_with_nested_code = diags.files_with_nested_code as f64 * 100.0 / diags.file_count as f64;
    assert_eq!(file_pct_with_nested_code, 100.0);
    assert_eq!(max_for(&diags.max_nesting_per_file, "a.rs").unwrap_or(0), 3);
    assert_eq!(max_for(&diags.max_nesting_per_file, "b.rs").unwrap_or(0), 2);
}

#[test]
fn test_eval_diagnostics_no_nested_chunks() {
    let chunks = vec![chunk("flat.rs", 0, 5, "f1", SymbolKind::Function, "fn f1() {}", Some(2))];
    let diags = chunk_diagnostics(&chunks);
    let avg_nesting_depth = diags.nesting_depth_sum as f64 / diags.chunks_with_depth as f64;
    assert_eq!(avg_nesting_depth, 2.0);
    let file_pct_with_nested_code = diags.files_with_nested_code as f64 * 100.0 / diags.file_count as f64;
    assert_eq!(file_pct_with_nested_code, 100.0);
}

#[test]
fn test_chunk_diagnostics_overlap_median_and_lines() {
    let chunks = vec![
        chunk("a.rs", 10, 30, "b", SymbolKind::Function, "fn b() {}", None),
        chunk("a.rs", 0, 15, "a", SymbolKind::Function, "fn a() {}", None),
        chunk("a.rs", 25, 40, "c", SymbolKind::Struct, "struct C;", None),
        chunk("b.rs", 0, 5, "d", SymbolKind::Function, "fn d() {}", None),
        chunk("b.rs", 5, 9, "e", SymbolKind::Function, "fn e() {}", None),
    ];
    // a.rs by start: (0,15) (10,30) (25,40): overlaps 5 and 5; b.rs: (0,5) (5,9): 0.
    let diags = chunk_diagnostics(&chunks);
    assert_eq!(diags.median_overlap_between_chunks, 5);
    assert_eq!(diags.total_lines, 20 + 15 + 15 + 5 + 4);
    assert_eq!(diags.kinds_breakdown, vec![("Function".to_string(), 4), ("Struct".to_string(), 1)]);
    assert_eq!(diags.files_with_nested_code, 0);
    assert_eq!(max_for(&diags.max_nesting_per_file, "a.rs"), Some(0));
}

#[test]
fn test_chunk_diagnostics_stable_order_for_equal_starts() {
    // Equal starts keep their order: (0,10) then (0,4), then (3,6).
    let chunks = vec![
        chunk("x.rs", 0, 10, "p", SymbolKind::Function, "p", None),
        chunk("x.rs", 3, 6, "r", SymbolKind::Function, "r", None),
        chunk("x.rs", 0, 4, "q", SymbolKind::Function, "q", None),
    ];
    // Overlaps: (0,10)->(0,4) = 10, (0,4)->(3,6) = 1; sorted [1, 10], median index 1.
    let diags = chunk_diagnostics(&chunks);
    assert_eq!(diags.median_overlap_between_chunks, 10);
}
