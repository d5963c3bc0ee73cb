use rust_rag::config::{resolve_context_size, resolve_setting};
use rust_rag::error::{ErrorKind, IoErrorKind, RagCoreError};
use rust_rag::server::first_model_in_reply;
use rust_rag::workspace::{manifest_crate_summary, manifest_info_patterns, manifest_member_patterns};
use rust_rag::embedding::{cache_entry_lines, parse_expected_checksums, verify_checksum, EmbedCache};
use rust_rag::pipeline::{ask_context, ask_mode, document_id, uncached_indices, AskMode};
use rust_rag::server::ContextChunk;
use rust_rag::transcript::{answer_page, error_page, streaming_text, transcript_layout};
use rust_rag::tui::LlmState;
use rust_rag::vector_store::{parse_symbol_kind, select_hits, tokenize, DocumentMeta, SearchFilters};
use rust_rag::indexer::SymbolKind;
use rust_rag::workspace::{outside_dependencies, readme_excerpt, resolve_members};

#[test]
fn test_embed_cache_path() {
    let c = EmbedCache::open("/ws/.rustrag");
    assert_eq!(c.path(), "/ws/.rustrag/embed_cache.jsonl");
    let d = EmbedCache::open("/ws/.rustrag/");
    assert_eq!(d.path(), "/ws/.rustrag/embed_cache.jsonl");
}

#[test]
fn test_cache_lines_model_check() {
    let content = "#model_id=abc\n{\"hash\":\"1\"}\n\n{\"hash\":\"2\"}\n";
    assert_eq!(cache_entry_lines(content, "abc"), vec!["{\"hash\":\"1\"}".to_string(), "{\"hash\":\"2\"}".to_string()]);
    assert!(cache_entry_lines(content, "other").is_empty());
    assert_eq!(cache_entry_lines("{\"hash\":\"1\"}\n", "x").len(), 1);
}

#[test]
fn test_checksums() {
    let entries = parse_expected_checksums("sha256:model.onnx= ABC \n\nnot a line\nsha256:=x\nsha256:config.json=def");
    assert_eq!(
        entries,
        vec![("model.onnx".to_string(), "abc".to_string()), ("config.json".to_string(), "def".to_string())]
    );
    let empty_digest = "e3b0c44298fc1c149afbf4c8996fb92427ae41e4649b934ca495991b7852b855".to_string();
    let expected = vec![("f".to_string(), empty_digest.clone())];
    assert_eq!(verify_checksum(&expected, "f", b""), Ok(true));
    assert_eq!(verify_checksum(&expected, "g", b""), Ok(false));
    assert!(verify_checksum(&expected, "f", b"x").is_err());
}

#[test]
fn test_pipeline_helpers() {
    assert_eq!(document_id("src/lib.rs", 42), "chunk_src/lib.rs_42");
    assert_eq!(uncached_indices(&vec![true, false, true, false]), vec![1, 3]);
    assert_eq!(ask_mode(true, true), AskMode::StreamJson);
    assert_eq!(ask_mode(false, true), AskMode::Json);
    assert_eq!(ask_mode(true, false), AskMode::Stream);
    assert_eq!(ask_mode(false, false), AskMode::Plain);
    assert_eq!(ask_context(&vec![]), "No relevant code chunks found.");
    let c = vec![ContextChunk { file_path: "a.rs".to_string(), line_start: 3, text: "t".to_string() }];
    assert_eq!(ask_context(&c), "[[a.rs:3]]\nt");
}

#[test]
fn test_transcript_layout_and_pages() {
    let l = transcript_layout(100, 20, LlmState::Done, 7);
    assert_eq!(l.results_height, 14);
    assert_eq!(l.result_items, 5);
    assert_eq!(l.first_result, 2);
    assert!(l.show_answer);
    assert_eq!(l.answer_height, 5);
    assert_eq!(l.answer_width, 80);
    let idle = transcript_layout(40, 20, LlmState::Idle, 0);
    assert!(!idle.show_answer);
    assert_eq!(answer_page("a\nb\nc\nd", 0, 2), "a\nb\n... (scroll down for more)");
    assert_eq!(answer_page("a\nb\nc\nd", 2, 2), "... (scroll up to see more)\nc\nd");
    assert_eq!(answer_page("a\nb", 0, 5), "a\nb");
    assert_eq!(answer_page("a\nb", 1, 5), "... (scroll up to see more)\nb");
    assert_eq!(answer_page("", 0, 3), " (empty answer)");
    assert_eq!(error_page("", 0, 3), " (empty)");
    assert_eq!(streaming_text(""), "  LLM is thinking...");
    assert_eq!(streaming_text("ab"), "\u{258A} ab");
}

#[test]
fn test_search_filters_by_file_extension() {
    let f = SearchFilters { file_extension: Some("rs".to_string()), symbol_kind: None };
    assert!(f.matches(&DocumentMeta { file_path: Some("src/lib.rs".to_string()), symbol_kind: None }));
    assert!(!f.matches(&DocumentMeta { file_path: Some("README.md".to_string()), symbol_kind: None }));
    assert!(!f.matches(&DocumentMeta { file_path: None, symbol_kind: None }));
}

#[test]
fn test_search_filters_by_various_symbol_kinds() {
    let f = SearchFilters { file_extension: None, symbol_kind: Some("Struct".to_string()) };
    assert!(f.matches(&DocumentMeta { file_path: None, symbol_kind: Some("struct".to_string()) }));
    assert!(!f.matches(&DocumentMeta { file_path: None, symbol_kind: Some("function".to_string()) }));
    assert!(!f.matches(&DocumentMeta { file_path: None, symbol_kind: Some("bogus".to_string()) }));
    let d = SearchFilters::default();
    assert!(d.matches(&DocumentMeta { file_path: None, symbol_kind: None }));
}

#[test]
fn test_parse_symbol_kind() {
    assert!(matches!(parse_symbol_kind("FUNCTION"), Ok(SymbolKind::Function)));
    assert!(matches!(parse_symbol_kind("implblock"), Ok(SymbolKind::ImplBlock)));
    assert!(parse_symbol_kind("widget").is_err());
}

#[test]
fn test_tokenize() {
    assert_eq!(
        tokenize("fn Hello_World(x: i32) -> Foo::bar"),
        vec!["fn", "hello_world", "x", "i32", "foo", "bar"]
    );
    assert!(tokenize("  --  ").is_empty());
}

#[test]
fn test_workspace_helpers() {
    assert_eq!(
        outside_dependencies(&vec!["serde".to_string(), "rust-rag-core".to_string(), "tokio".to_string()]),
        vec!["serde".to_string(), "tokio".to_string()]
    );
    let long = "x".repeat(2100);
    let ex = readme_excerpt(&long);
    assert!(ex.ends_with("\n... (truncated)"));
    assert_eq!(ex.chars().count(), 2000 + "\n... (truncated)".len());
    assert_eq!(readme_excerpt("short"), "short");
    let raw = vec!["crates/*".to_string()];
    assert_eq!(resolve_members(&raw, &vec![Some(vec![])], "/ws"), vec!["/ws/crates/*".to_string()]);
    assert_eq!(resolve_members(&vec![], &vec![], "/ws"), vec!["/ws".to_string()]);
    assert_eq!(
        resolve_members(&raw, &vec![Some(vec!["/ws/crates/a".to_string()])], "/ws"),
        vec!["/ws/crates/a".to_string()]
    );
}

#[test]
fn test_io_error_keeps_operation_and_cause() {
    let e = RagCoreError::io("reading index", IoErrorKind::NotFound, "gone".to_string());
    assert!(matches!(e, RagCoreError::Io(IoErrorKind::NotFound, ref m) if m == "reading index: gone"));
    assert_eq!(e.message(), "reading index: gone");
    assert_eq!(e.kind(), ErrorKind::Io);
    let bare = RagCoreError::io("", IoErrorKind::PermissionDenied, "gone".to_string());
    assert!(matches!(bare, RagCoreError::Io(IoErrorKind::PermissionDenied, _)));
    assert_eq!(bare.message(), "gone");
}

#[test]
fn test_environment_setting_wins_over_config_file() {
    assert_eq!(resolve_setting(Some("e".to_string()), Some("f".to_string()), "d"), "e");
    assert_eq!(resolve_setting(None, Some("f".to_string()), "d"), "f");
    assert_eq!(resolve_setting(None, None, "d"), "d");
}

#[test]
fn test_default_llm_top_k_is_five() {
    assert_eq!(rust_rag::config::LlmConfig::default().top_k, 5);
    assert_eq!(rust_rag::config::Config::default().llm.top_k, 5);
}

#[test]
fn test_manifest_text_member_patterns() {
    let ws = "[workspace]\nmembers = [\"crates/a\", \"crates/*\"]\n";
    assert_eq!(manifest_member_patterns(ws), Ok(vec!["crates/a".to_string(), "crates/*".to_string()]));
    assert_eq!(manifest_info_patterns(ws), Ok(vec!["crates/a".to_string(), "crates/*".to_string()]));
    let pkg = "[package]\nname = \"demo\"\nversion = \"0.1.0\"\n\n[dependencies]\nserde = \"1\"\nanyhow = { version = \"1\" }\n";
    assert_eq!(manifest_member_patterns(pkg), Ok(vec![]));
    assert_eq!(manifest_info_patterns(pkg), Ok(vec![".".to_string()]));
    let (name, deps) = manifest_crate_summary(pkg).unwrap();
    assert_eq!(name, "demo");
    let mut deps = deps;
    deps.sort();
    assert_eq!(deps, vec!["anyhow".to_string(), "serde".to_string()]);
    assert!(manifest_member_patterns("[workspace\nmembers =").is_err());
    assert!(manifest_crate_summary("= broken").is_none());
}

#[test]
fn test_first_model_in_reply_text() {
    assert_eq!(first_model_in_reply(r#"{"data":[{"id":"m1"},{"id":"m2"}]}"#), Some("m1".to_string()));
    assert_eq!(first_model_in_reply(r#"{"data":[]}"#), None);
    assert_eq!(first_model_in_reply("not json"), None);
}

#[test]
fn test_parse_symbol_kind_ignores_case() {
    assert_eq!(parse_symbol_kind("FUNCTION").unwrap(), SymbolKind::Function);
    assert_eq!(parse_symbol_kind("eNuM").unwrap(), SymbolKind::Enum);
    assert_eq!(parse_symbol_kind("ImplBlock").unwrap(), SymbolKind::ImplBlock);
    assert!(parse_symbol_kind("Structure").is_err());
}

#[test]
fn test_context_size_zero_means_default() {
    assert_eq!(resolve_context_size(Some(500), Some(Some(900))), 500);
    assert_eq!(resolve_context_size(None, Some(Some(900))), 900);
    assert_eq!(resolve_context_size(None, Some(Some(0))), 12_000);
    assert_eq!(resolve_context_size(None, Some(None)), 12_000);
    assert_eq!(resolve_context_size(None, None), 12_000);
}

#[test]
fn test_select_hits_cuts_then_filters() {
    let meta = |p: &str, k: &str| DocumentMeta { file_path: Some(p.to_string()), symbol_kind: Some(k.to_string()) };
    let metas = vec![meta("a.rs", "function"), meta("b.md", "function"), meta("c.rs", "struct"), meta("d.rs", "function")];
    let ranked = vec![3, 1, 0, 2];
    assert_eq!(select_hits(&ranked, 3, &metas, None), vec![3, 1, 0]);
    let f = SearchFilters { file_extension: Some("rs".to_string()), symbol_kind: None };
    assert_eq!(select_hits(&ranked, 3, &metas, Some(&f)), vec![3, 0]);
    assert_eq!(select_hits(&ranked, 10, &metas, Some(&f)), vec![3, 0, 2]);
}
