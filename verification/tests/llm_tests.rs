use rust_rag::llm::event_content;
use rust_rag::llm::{
    chat_completions_url, check_resolved, is_localhost_hostname, is_private_or_loopback, parse_endpoint,
    sse_payload, take_lines, IpAddress,
};

#[test]
fn test_localhost_hostname_detection() {
    assert!(is_localhost_hostname("localhost"));
    assert!(is_localhost_hostname(".localhost"));
    assert!(is_localhost_hostname("myapp.local"));
    assert!(!is_localhost_hostname("example.com"));
    assert!(!is_localhost_hostname("api.openai.com"));
}

#[test]
fn test_localhost_hostname_ignores_case() {
    assert!(is_localhost_hostname("LocalHost"));
    assert!(is_localhost_hostname("Printer.LOCAL"));
}

#[test]
fn test_is_private_or_loopback() {
    let loopback = IpAddress::V4(127, 0, 0, 1);
    let private_v4 = IpAddress::V4(192, 168, 1, 1);
    let public = IpAddress::V4(8, 8, 8, 8);

    assert!(is_private_or_loopback(&loopback));
    assert!(is_private_or_loopback(&private_v4));
    assert!(!is_private_or_loopback(&public));
}

#[test]
fn test_private_ranges_edges() {
    assert!(is_private_or_loopback(&IpAddress::V4(10, 0, 0, 1)));
    assert!(is_private_or_loopback(&IpAddress::V4(172, 16, 0, 1)));
    assert!(is_private_or_loopback(&IpAddress::V4(172, 31, 255, 255)));
    assert!(!is_private_or_loopback(&IpAddress::V4(172, 32, 0, 1)));
    assert!(is_private_or_loopback(&IpAddress::V4(169, 254, 1, 1)));
    assert!(is_private_or_loopback(&IpAddress::V6(0, 0, 0, 0, 0, 0, 0, 1)));
    assert!(is_private_or_loopback(&IpAddress::V6(0xfd00, 0, 0, 0, 0, 0, 0, 1)));
    assert!(!is_private_or_loopback(&IpAddress::V6(0x2001, 0xdb8, 0, 0, 0, 0, 0, 1)));
}

#[test]
fn test_validate_endpoint_allows_valid_public_urls() {
    assert_eq!(parse_endpoint("http://example.com:8080"), Ok("example.com".to_string()));
    assert_eq!(
        parse_endpoint("https://api.openai.com/v1/chat/completions"),
        Ok("api.openai.com".to_string())
    );
    assert_eq!(parse_endpoint("https://llm.example.org/api"), Ok("llm.example.org".to_string()));
}

#[test]
fn test_validate_endpoint_warns_on_loopback() {
    let host = parse_endpoint("http://localhost:11434/").unwrap();
    assert!(is_localhost_hostname(&host));
    let ips = vec![(IpAddress::V4(127, 0, 0, 1), "127.0.0.1".to_string())];
    assert_eq!(check_resolved(&host, &ips, false), Ok(()));
    let host = parse_endpoint("http://127.0.0.1:8080").unwrap();
    assert_eq!(check_resolved(&host, &ips, false), Ok(()));
}

#[test]
fn test_validate_endpoint_warns_on_private_networks() {
    let host = parse_endpoint("http://10.0.0.1:8080").unwrap();
    assert_eq!(check_resolved(&host, &vec![(IpAddress::V4(10, 0, 0, 1), "10.0.0.1".to_string())], false), Ok(()));
    let host = parse_endpoint("http://192.168.1.1:8080").unwrap();
    assert_eq!(check_resolved(&host, &vec![(IpAddress::V4(192, 168, 1, 1), "192.168.1.1".to_string())], false), Ok(()));
}

#[test]
fn test_validate_endpoint_blocks_unsafe_schemes() {
    assert!(parse_endpoint("ftp://example.com/model").is_err());
    assert!(parse_endpoint("file:///etc/passwd").is_err());
    assert!(parse_endpoint("ssh://example.com").is_err());
    assert_eq!(
        parse_endpoint("ftp://example.com/model"),
        Err("Only http and https schemes are allowed for LLM endpoints, got: ftp".to_string())
    );
}

#[test]
fn test_validate_endpoint_rejects_invalid_input() {
    assert!(parse_endpoint("").is_err());
}

#[test]
fn test_strict_mode_refuses_private_address() {
    let ips = vec![(IpAddress::V4(8, 8, 8, 8), "8.8.8.8".to_string()), (IpAddress::V4(10, 0, 0, 1), "10.0.0.1".to_string())];
    assert_eq!(check_resolved("h", &ips, false), Ok(()));
    assert_eq!(
        check_resolved("h", &ips, true),
        Err("LLM endpoint hostname 'h' resolves to a local or private address (10.0.0.1)".to_string())
    );
    let public = vec![(IpAddress::V4(8, 8, 8, 8), "8.8.8.8".to_string())];
    assert_eq!(check_resolved("h", &public, true), Ok(()));
}

#[test]
fn test_chat_completions_url() {
    assert_eq!(chat_completions_url("localhost:8080"), "http://localhost:8080/chat/completions");
    assert_eq!(chat_completions_url("http://localhost:8080"), "http://localhost:8080/chat/completions");
    assert_eq!(chat_completions_url("http://h:8080"), "http://h:8080/chat/completions");
    assert_eq!(chat_completions_url("localhost:11434"), "http://localhost:11434/chat/completions");
    assert_eq!(
        chat_completions_url("http://localhost:8080/chat/completions"),
        "http://localhost:8080/chat/completions"
    );
    assert_eq!(chat_completions_url("https://h/v1/chat/completions"), "https://h/chat/completions");
    assert_eq!(chat_completions_url("http://h/v1/chat/completions"), "http://h/chat/completions");
}

#[test]
fn test_sse_payload() {
    assert_eq!(sse_payload("data: {\"a\":1}"), Some("{\"a\":1}".to_string()));
    assert_eq!(sse_payload("{\"b\":2}"), Some("{\"b\":2}".to_string()));
    assert_eq!(sse_payload("data: [DONE]"), None);
    assert_eq!(sse_payload("[DONE]"), None);
}

#[test]
fn test_take_lines_keeps_partial_tail() {
    let mut buf = "data: one\r\n  data: two \npart".to_string();
    let lines = take_lines(&mut buf);
    assert_eq!(lines, vec!["data: one".to_string(), "data: two".to_string()]);
    assert_eq!(buf, "part");
}

#[test]
fn test_take_lines_independent_of_cuts() {
    let stream = "data: {\"a\":1}\r\ndata: {\"b\":2}\n\ndata: [DONE]\npartial";
    let mut whole = stream.to_string();
    let all = take_lines(&mut whole);
    for cut in 0..=stream.len() {
        if !stream.is_char_boundary(cut) {
            continue;
        }
        let mut buf = stream[..cut].to_string();
        let mut lines = take_lines(&mut buf);
        buf.push_str(&stream[cut..]);
        lines.extend(take_lines(&mut buf));
        assert_eq!(lines, all);
        assert_eq!(buf, whole);
    }
    assert_eq!(whole, "partial");
    assert_eq!(all.len(), 4);
}

#[test]
fn test_event_content_from_json_text() {
    assert_eq!(event_content(r#"{"choices":[{"delta":{"content":"Hi"}}]}"#), Some("Hi".to_string()));
    assert_eq!(event_content(r#"{"choices":[{"text":"plain"}]}"#), Some("plain".to_string()));
    assert_eq!(event_content(r#"{"choices":[{"delta":{"content":1.5}}]}"#), None);
    assert_eq!(event_content(r#"{"choices":[]}"#), None);
    assert_eq!(event_content("{not json"), None);
}
