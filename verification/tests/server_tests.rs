use rust_rag::server::RateLimiter;

#[test]
fn test_rate_limiter_allows_within_budget() {
    let mut limiter = RateLimiter::new(5); // 5 requests per minute
    assert!(limiter.check("client-1"));
    assert!(limiter.check("client-1"));
    assert!(limiter.check("client-1"));
}

#[test]
fn test_rate_limiter_rejects_over_budget() {
    let mut limiter = RateLimiter::new(3); // 3 requests per minute
    assert!(limiter.check("x"));
    assert!(limiter.check("x"));
    assert!(limiter.check("x"));
    assert!(!limiter.check("x"), "should be rejected after budget exhausted");
}

#[test]
fn test_rate_limiter_independent_per_client() {
    let mut limiter = RateLimiter::new(2);
    assert!(limiter.check("alice"));
    assert!(limiter.check("alice"));
    assert!(limiter.check("bob"));
    assert!(!limiter.check("alice"), "alice should be rejected after 2 requests");
    assert!(limiter.check("bob"), "bob should still be allowed");
}

#[test]
fn test_rate_limiter_window_expires() {
    let mut limiter = RateLimiter::new(1);
    assert!(limiter.check_at("c", 0));
    assert!(!limiter.check_at("c", 59_999_999_999));
    assert!(limiter.check_at("c", 60_000_000_000));
}

#[test]
fn test_recorded_requests_stay_within_budget() {
    let mut limiter = RateLimiter::new(2);
    let allowed: Vec<bool> = (0..6u64).map(|t| limiter.check_at("c", t * 1_000_000_000)).collect();
    assert_eq!(allowed, vec![true, true, false, false, false, false]);
    assert!(limiter.check_at("c", 60_000_000_000));
    assert!(!limiter.check_at("c", 60_500_000_000));
    assert!(limiter.check_at("c", 61_000_000_000));
}

#[test]
fn test_rate_limiter_zero_budget_refuses_every_request() {
    let mut limiter = RateLimiter::new(0);
    assert!(!limiter.check_at("c", 5));
    assert!(!limiter.check_at("c", 6));
    assert!(!limiter.check_at("d", 7));
    assert!(!limiter.check("e"));
}

use rust_rag::server::{
    admit_request, answer_text, build_context, enforce_auth, extract_bearer_token, sse_data_event, trim_context,
    user_message, validate_query_length, ContextChunk, LlmOutcome,
};

#[test]
fn test_trim_context_no_truncation_needed() {
    let ctx = "[src/lib.rs:10]\nfn hello() {}\n\n[src/main.rs:5]\nfn main() {}".to_string();
    let trimmed = trim_context(ctx, 12_000);
    assert_eq!(trimmed.len(), 59);
}

#[test]
fn test_trim_context_fits_exactly() {
    let ctx = "[a.rs:1]\nfn a() {}\n\n[b.rs:2]\nfn b() {}".to_string();
    assert!(ctx.len() <= 100);
    let trimmed = trim_context(ctx.clone(), 100);
    assert_eq!(trimmed, ctx);
}

#[test]
fn test_trim_context_truncates_at_boundary_preserving_chunks() {
    let ctx = "[a.rs:1]\nfn a() {}\n\n[b.rs:2]\nfn b() {}\n\n[c.rs:3]\nfn c() {}".to_string();
    assert!(ctx.len() > 30);
    let trimmed = trim_context(ctx, 30);
    assert!(!trimmed.contains("b.rs"));
    assert!(!trimmed.contains("c.rs"));
    assert!(trimmed.len() <= 30);
    assert_eq!(trimmed, "[a.rs:1]\nfn a() {}");
}

#[test]
fn test_trim_context_ellipsis_on_overflow() {
    let ctx = "[a.rs:1]\nfn a() {}\n\n[b.rs:2]\nfn b() {}".to_string();
    let trimmed = trim_context(ctx, 10);
    assert!(trimmed.ends_with('…'));
    assert!(trimmed.len() <= 10);
    assert_eq!(trimmed, "[a.rs:1…");
}

#[test]
fn test_trim_context_counts_bytes_of_multibyte_text() {
    let ctx = "é".repeat(9);
    let trimmed = trim_context(ctx.clone(), 10);
    assert!(trimmed.len() <= 10);
    assert!(trimmed.ends_with('…'));
    assert_eq!(trimmed, "ééé…");
    assert!(ctx.starts_with(trimmed.trim_end_matches('…')));
}

#[test]
fn test_trim_context_keeps_two_blocks_when_they_fit() {
    let ctx = "[a.rs:1]\nfn a() {}\n\n[b.rs:2]\nfn b() {}\n\n[c.rs:3]\nfn c() {}".to_string();
    let trimmed = trim_context(ctx, 40);
    assert_eq!(trimmed, "[a.rs:1]\nfn a() {}\n\n[b.rs:2]\nfn b() {}");
}

#[test]
fn test_validate_query_length() {
    assert!(validate_query_length(&"a".repeat(4096), "query").is_ok());
    assert_eq!(
        validate_query_length(&"a".repeat(4097), "question"),
        Err((400, "Field 'question' exceeds maximum length of 4096 characters (got 4097)".to_string()))
    );
}

#[test]
fn test_bearer_token_and_auth() {
    assert_eq!(extract_bearer_token(Some("Bearer abc")), Some("abc".to_string()));
    assert_eq!(extract_bearer_token(Some("Basic abc")), None);
    assert_eq!(extract_bearer_token(None), None);
    let key = Some("secret".to_string());
    assert_eq!(enforce_auth(None, &key, "/status"), None);
    assert_eq!(enforce_auth(None, &key, "/query"), Some(401));
    assert_eq!(enforce_auth(Some("Bearer wrong"), &key, "/query"), Some(401));
    assert_eq!(enforce_auth(Some("Bearer secret"), &key, "/query"), None);
    assert_eq!(enforce_auth(None, &None, "/query"), None);
}

#[test]
fn test_rate_limiter_resolves_key_from_headers() {
    assert_eq!(RateLimiter::resolve_key(Some("10.0.0.5"), None, "fallback"), "10.0.0.5");
    assert_eq!(RateLimiter::resolve_key(Some(" 10.0.0.5 , 10.0.0.6"), None, "fallback"), "10.0.0.5");
}

#[test]
fn test_rate_limiter_falls_back_to_x_real_ip() {
    assert_eq!(RateLimiter::resolve_key(None, Some("203.0.113.42"), "fallback"), "203.0.113.42");
}

#[test]
fn test_rate_limiter_uses_fallback_when_no_headers() {
    assert_eq!(RateLimiter::resolve_key(None, None, "anonymous"), "anonymous");
}

#[test]
fn test_admit_request_order_of_checks() {
    let mut limiter = RateLimiter::new(1);
    let key = Some("k".to_string());
    assert_eq!(
        admit_request(&mut limiter, 0, None, &key, "/query", None, None, "q", "question"),
        Err((401, "Unauthorized".to_string()))
    );
    assert_eq!(admit_request(&mut limiter, 0, Some("Bearer k"), &key, "/query", None, None, "q", "question"), Ok(()));
    assert_eq!(
        admit_request(&mut limiter, 1, Some("Bearer k"), &key, "/query", None, None, "q", "question"),
        Err((429, "Rate limit exceeded".to_string()))
    );
    let mut fresh = RateLimiter::new(5);
    let long = "x".repeat(5000);
    assert_eq!(admit_request(&mut fresh, 0, None, &None, "/search", None, None, &long, "query").unwrap_err().0, 400);
}

#[test]
fn test_context_and_prompt() {
    let chunks = vec![
        ContextChunk { file_path: "a.rs".to_string(), line_start: 1, text: "fn a() {}".to_string() },
        ContextChunk { file_path: "b.rs".to_string(), line_start: 20, text: "fn b() {}".to_string() },
    ];
    let ctx = build_context(&chunks);
    assert_eq!(ctx, "[a.rs:1]\nfn a() {}\n\n[b.rs:20]\nfn b() {}");
    assert_eq!(user_message("why?", "C"), "Question: why?\n\nRelevant code:\nC");
    assert_eq!(sse_data_event("hi"), "data: hi\n\n");
    assert_eq!(answer_text(LlmOutcome::Failed("boom".to_string())), ("LLM error: boom".to_string(), false));
    assert_eq!(answer_text(LlmOutcome::TimedOut).0, "LLM server busy (request timed out)");
    assert_eq!(answer_text(LlmOutcome::Answered("ok".to_string())), ("ok".to_string(), true));
}
