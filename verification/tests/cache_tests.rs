use std::hash::{Hash, Hasher};
use rust_rag::embedding::{content_type_warning, hash_text, lower_hex};
use rust_rag::semantic_cache::{entry_lines, is_expired};

#[test]
fn test_lower_hex_values() {
    assert_eq!(lower_hex(0), "0");
    assert_eq!(lower_hex(15), "f");
    assert_eq!(lower_hex(16), "10");
    assert_eq!(lower_hex(255), "ff");
    assert_eq!(lower_hex(0xdead_beef), "deadbeef");
    assert_eq!(lower_hex(u64::MAX), "ffffffffffffffff");
}

#[test]
fn test_hash_text_matches_default_hasher() {
    let mut hasher = std::collections::hash_map::DefaultHasher::new();
    "fn main() {}".hash(&mut hasher);
    assert_eq!(hash_text("fn main() {}"), format!("{:x}", hasher.finish()));
    assert_eq!(hash_text("a"), hash_text("a"));
    assert_ne!(hash_text("a"), hash_text("b"));
}

#[test]
fn test_entry_lines_skip_blank_and_comments() {
    let content = "#header\n{\"a\":1}\n   \n\n# note\n{\"b\":2}\r\n";
    assert_eq!(entry_lines(content), vec!["{\"a\":1}".to_string(), "{\"b\":2}".to_string()]);
    assert!(entry_lines("").is_empty());
    assert_eq!(entry_lines(" #not a comment"), vec![" #not a comment".to_string()]);
}

#[test]
fn test_is_expired_boundary() {
    assert!(!is_expired(100, 99));
    assert!(is_expired(100, 100));
    assert!(is_expired(100, 101));
    assert!(is_expired(0, 0));
}

#[test]
fn test_content_type_warnings() {
    assert_eq!(content_type_warning("model.onnx", "application/octet-stream"), None);
    assert_eq!(content_type_warning("model.onnx", "binary/x-application-onnx"), None);
    assert_eq!(
        content_type_warning("model.onnx", "text/html"),
        Some("  [warning] model.onnx returned Content-Type: text/html (expected application/octet-stream)".to_string())
    );
    assert_eq!(content_type_warning("config.json", "application/json; charset=utf-8"), None);
    assert_eq!(
        content_type_warning("tokenizer.json", "text/plain"),
        Some("  [warning] tokenizer.json returned Content-Type: text/plain (expected application/json)".to_string())
    );
    assert_eq!(content_type_warning("vocab.txt", "text/plain"), None);
}
