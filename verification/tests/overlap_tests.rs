use rust_rag::indexer::{Chunk, SymbolKind};
use rust_rag::overlap::{apply_overlap, SourceText};

fn chunk(path: &str, start: usize, end: usize, text: &str) -> Chunk {
    Chunk::new(path.to_string(), start, end, "m".to_string(), SymbolKind::Function, text.to_string())
}

fn source(path: &str, content: &str) -> SourceText {
    SourceText { path: path.to_string(), content: Some(content.to_string()) }
}

const FILE: &str = "l0\nl1\nl2\nl3\nl4\nl5\n";

#[test]
fn test_apply_overlap_extends_boundaries() {
    let mut chunks = vec![chunk("a.rs", 0, 3, "l0"), chunk("a.rs", 12, 15, "l4")];
    apply_overlap(&mut chunks, 1, &vec![source("a.rs", FILE)]);
    assert_eq!(chunks[0].text, "l0\n---\nl1");
    assert_eq!(chunks[0].line_start, 0);
    assert_eq!(chunks[0].line_end, 4);
    assert_eq!(chunks[1].text, "l1\n---\nl4");
    assert_eq!(chunks[1].line_start, 4);
    assert_eq!(chunks[1].line_end, 15);
    assert!(chunks.iter().any(|c| c.text.contains("---")));
}

#[test]
fn test_apply_overlap_zero_is_noop() {
    let mut chunks = vec![chunk("a.rs", 0, 3, "l0"), chunk("a.rs", 12, 15, "l4")];
    apply_overlap(&mut chunks, 0, &vec![source("a.rs", FILE)]);
    assert_eq!(chunks[0].text, "l0");
    assert_eq!(chunks[1].text, "l4");
    assert_eq!(chunks[1].line_start, 12);
}

#[test]
fn test_apply_overlap_single_chunk_noop() {
    let mut chunks = vec![chunk("a.rs", 0, 3, "l0")];
    apply_overlap(&mut chunks, 3, &vec![source("a.rs", FILE)]);
    assert_eq!(chunks.len(), 1);
    assert!(!chunks[0].text.contains("---"));
    assert_eq!(chunks[0].line_end, 3);
}

#[test]
fn test_apply_overlap_multi_file_boundary_isolation() {
    let mut chunks = vec![
        chunk("b.rs", 0, 3, "fb_1"),
        chunk("a.rs", 0, 3, "fa_1"),
        chunk("b.rs", 12, 15, "fb_5"),
        chunk("a.rs", 12, 15, "fa_5"),
    ];
    let a = "fa_1\nfa_2\nfa_3\nfa_4\nfa_5\n";
    let b = "fb_1\nfb_2\nfb_3\nfb_4\nfb_5\n";
    apply_overlap(&mut chunks, 2, &vec![source("a.rs", a), source("b.rs", b)]);
    for c in &chunks {
        if c.file_path == "a.rs" {
            assert!(!c.text.contains("fb_"));
        } else {
            assert!(!c.text.contains("fa_"));
        }
    }
    assert!(chunks[1].text.contains("---"));
}

#[test]
fn test_apply_overlap_unreadable_file_untouched() {
    let mut chunks = vec![chunk("a.rs", 0, 3, "l0"), chunk("a.rs", 12, 15, "l4")];
    apply_overlap(&mut chunks, 2, &vec![SourceText { path: "a.rs".to_string(), content: None }]);
    assert_eq!(chunks[0].text, "l0");
    assert_eq!(chunks[1].text, "l4");
}

#[test]
fn test_apply_overlap_orders_by_start_not_position() {
    let mut chunks = vec![chunk("a.rs", 12, 15, "l4"), chunk("a.rs", 0, 3, "l0")];
    apply_overlap(&mut chunks, 1, &vec![source("a.rs", FILE)]);
    assert_eq!(chunks[1].text, "l0\n---\nl1");
    assert_eq!(chunks[0].text, "l1\n---\nl4");
}

#[test]
fn test_apply_overlap_scales_with_config() {
    let run = |overlap: usize| {
        let mut chunks = vec![chunk("a.rs", 0, 3, "l0"), chunk("a.rs", 15, 18, "l5")];
        apply_overlap(&mut chunks, overlap, &vec![source("a.rs", FILE)]);
        chunks.iter().map(|c| c.text.len()).sum::<usize>()
    };
    assert!(run(5) >= run(1));
    assert!(run(1) > run(0));
}
