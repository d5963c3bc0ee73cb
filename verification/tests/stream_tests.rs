use rust_rag::json::JsonValue;
use rust_rag::llm::chunk_content;
use rust_rag::server::{first_model_id, sanitize_error};
use rust_rag::text::replace_chars;
use rust_rag::vector_store::{term_counts, tokenize};

fn obj(fields: Vec<(&str, JsonValue)>) -> JsonValue {
    JsonValue::Object(fields.into_iter().map(|(k, v)| (k.to_string(), v)).collect())
}

fn text(s: &str) -> JsonValue {
    JsonValue::String(s.to_string())
}

#[test]
fn test_chunk_content_prefers_delta() {
    let event = obj(vec![(
        "choices",
        JsonValue::Array(vec![obj(vec![("delta", obj(vec![("content", text("Hel"))])), ("text", text("other"))])]),
    )]);
    assert_eq!(chunk_content(&event), Some("Hel".to_string()));
}

#[test]
fn test_chunk_content_falls_back_to_text() {
    let event = obj(vec![("choices", JsonValue::Array(vec![obj(vec![("text", text("lo"))])]))]);
    assert_eq!(chunk_content(&event), Some("lo".to_string()));
    let delta_not_text = obj(vec![(
        "choices",
        JsonValue::Array(vec![obj(vec![("delta", obj(vec![("content", JsonValue::Null)])), ("text", text("x"))])]),
    )]);
    assert_eq!(chunk_content(&delta_not_text), Some("x".to_string()));
}

#[test]
fn test_chunk_content_missing() {
    assert_eq!(chunk_content(&obj(vec![])), None);
    assert_eq!(chunk_content(&obj(vec![("choices", JsonValue::Array(vec![]))])), None);
    assert_eq!(chunk_content(&obj(vec![("choices", text("no"))])), None);
}

#[test]
fn test_first_model_id() {
    let reply = obj(vec![("data", JsonValue::Array(vec![obj(vec![("id", text("qwen"))]), obj(vec![("id", text("b"))])]))]);
    assert_eq!(first_model_id(&reply), Some("qwen".to_string()));
    assert_eq!(first_model_id(&obj(vec![("data", JsonValue::Array(vec![]))])), None);
    assert_eq!(first_model_id(&obj(vec![("data", JsonValue::Array(vec![obj(vec![])]))])), None);
}

#[test]
fn test_term_counts() {
    let docs = vec![tokenize("fn add(a, b) { a + b }"), tokenize("struct A"), Vec::new(), tokenize("A a a")];
    let a = term_counts("a", &docs);
    assert_eq!(a.frequencies, vec![2, 1, 0, 3]);
    assert_eq!(a.document_frequency, 3);
    let add = term_counts("add", &docs);
    assert_eq!(add.frequencies, vec![1, 0, 0, 0]);
    assert_eq!(add.document_frequency, 1);
    let none = term_counts("zzz", &docs);
    assert_eq!(none.frequencies, vec![0, 0, 0, 0]);
    assert_eq!(none.document_frequency, 0);
}

#[test]
fn test_sanitize_error_masks_home_and_truncates() {
    assert_eq!(sanitize_error("no file /home/u/.cache/x and /home/u/y", "/home/u"), "no file ~/.cache/x and ~/y");
    let long = "é".repeat(600);
    assert_eq!(sanitize_error(&long, "~").chars().count(), 512);
    assert_eq!(sanitize_error("abc", ""), "~a~b~c~");
    assert_eq!(sanitize_error("aaa", "aa"), "~a");
}

#[test]
fn test_replace_chars_matches_str_replace() {
    let cases = [("hello world", "o", "0"), ("aaaa", "aa", "b"), ("", "x", "y"), ("ab", "", "-"), ("xyz", "q", "r")];
    for (s, p, t) in cases {
        let r: String = replace_chars(&s.chars().collect(), &p.chars().collect(), &t.chars().collect()).into_iter().collect();
        assert_eq!(r, s.replace(p, t));
    }
}
