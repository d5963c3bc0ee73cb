use rust_rag::json::{value_type_name, JsonNumber, JsonValue};
use rust_rag::mcp::{
    file_read_path, file_read_range, internal_error_message, search_queries, search_request, search_schema,
    query_question, tool_for, tools_list, METHOD_NOT_FOUND, validate_tool_input, McpState, McpStep, Tool,
};

const TEST_FILE: &str = r#"// Line 1
fn function_a() -> i32 {  // Line 2
    42                    // Line 3
}                       // Line 4

// Line 5
struct TestStruct {       // Line 6
    field: i32,           // Line 7
}                         // Line 8

// Line 9
fn function_b() {         // Line 10
    let x = 1;            // Line 11
    let y = 2;            // Line 12
    println!("{}", x + y);// Line 13
}                         // Line 14
"#;

fn s(v: &str) -> JsonValue {
    JsonValue::String(v.to_string())
}

fn n(v: u64) -> JsonValue {
    JsonValue::Number(JsonNumber { as_u64: Some(v), as_i64: Some(v as i64) })
}

fn obj(fields: Vec<(&str, JsonValue)>) -> JsonValue {
    JsonValue::Object(fields.into_iter().map(|(k, v)| (k.to_string(), v)).collect())
}

#[test]
fn test_rag_file_read_full_file() {
    let args = obj(vec![("file_path", s("src/test.rs"))]);
    assert_eq!(file_read_path(&args), Ok("src/test.rs".to_string()));
    let r = file_read_range(&args, TEST_FILE).expect("Should succeed");
    assert_eq!(r.content, TEST_FILE);
    assert_eq!(r.content.len(), TEST_FILE.len());
    assert_eq!(r.start, 1);
    assert_eq!(r.end, 16);
    assert_eq!(r.total_lines, 16);
}

#[test]
fn test_rag_file_read_line_range_start_middle() {
    let args = obj(vec![("file_path", s("src/test.rs")), ("line_start", n(6)), ("line_end", n(11))]);
    let r = file_read_range(&args, TEST_FILE).expect("Should succeed");
    assert_eq!(r.start, 6);
    assert_eq!(r.end, 11);
    assert_eq!(r.total_lines, 16);
    assert!(r.content.contains("struct TestStruct"));
    assert!(r.content.contains("field: i32"));
    assert!(r.content.starts_with("// Line 5"));
    assert!(r.content.ends_with("// Line 9"));
    assert!(!r.content.contains("function_a"));
}

#[test]
fn test_rag_file_read_line_range_single_line() {
    let args = obj(vec![("file_path", s("src/test.rs")), ("line_start", n(8)), ("line_end", n(8))]);
    let r = file_read_range(&args, TEST_FILE).expect("Should succeed");
    assert_eq!(r.start, 8);
    assert_eq!(r.end, 8);
    assert_eq!(r.total_lines, 16);
    assert_eq!(r.content, "    field: i32,           // Line 7");
}

#[test]
fn test_rag_file_read_line_range_beyond_file_bounds() {
    let args = obj(vec![("file_path", s("src/test.rs")), ("line_start", n(20)), ("line_end", n(25))]);
    let r = file_read_range(&args, TEST_FILE).expect("Should succeed");
    assert_eq!(r.start, 20);
    assert_eq!(r.end, 0);
    assert_eq!(r.total_lines, 16);
    assert_eq!(r.content, "");
}

#[test]
fn test_rag_file_read_invalid_line_range() {
    let args = obj(vec![("file_path", s("src/test.rs")), ("line_start", n(10)), ("line_end", n(5))]);
    assert!(file_read_range(&args, TEST_FILE).is_err());
    assert_eq!(
        file_read_range(&args, TEST_FILE).err(),
        Some("line_end must be >= line_start".to_string())
    );
}

#[test]
fn test_rag_file_read_line_start_less_than_one() {
    let args = obj(vec![("file_path", s("src/test.rs")), ("line_start", n(0)), ("line_end", n(5))]);
    assert_eq!(file_read_range(&args, TEST_FILE).err(), Some("line_start must be >= 1".to_string()));
}

#[test]
fn test_rag_file_read_backward_compatibility() {
    let with_start_only = obj(vec![("file_path", s("src/test.rs")), ("line_start", n(3))]);
    let r = file_read_range(&with_start_only, TEST_FILE).expect("Should succeed");
    assert_eq!(r.content, TEST_FILE);
    assert_eq!(r.start, 1);
    assert_eq!(r.end, 16);
}

#[test]
fn test_file_read_rejects_bad_arguments() {
    assert_eq!(
        file_read_path(&obj(vec![])),
        Err("Invalid arguments: Missing required field: file_path".to_string())
    );
    assert_eq!(
        file_read_path(&obj(vec![("file_path", n(3))])),
        Err("Invalid arguments: Field 'file_path' expected string, got number".to_string())
    );
}

#[test]
fn test_file_too_large() {
    let big = "x".repeat(100_001);
    let args = obj(vec![("file_path", s("f"))]);
    assert_eq!(
        file_read_range(&args, &big).err(),
        Some("File too large: 100001 bytes (max 100KB)".to_string())
    );
}

#[test]
fn test_validate_tool_input_messages() {
    let schema = search_schema(true);
    assert_eq!(validate_tool_input(&schema, &obj(vec![("query", s("q"))])), Ok(()));
    assert_eq!(
        validate_tool_input(&schema, &obj(vec![("query", s("q")), ("top_k", s("5"))])),
        Err("Field 'top_k' expected number, got string".to_string())
    );
    assert_eq!(
        validate_tool_input(&schema, &JsonValue::Null),
        Err("Missing required field: query".to_string())
    );
}

#[test]
fn test_type_names() {
    assert_eq!(value_type_name(&s("a")), "string");
    assert_eq!(value_type_name(&JsonValue::Array(vec![])), "array");
    assert_eq!(value_type_name(&obj(vec![])), "object");
    assert_eq!(value_type_name(&JsonValue::Bool(true)), "boolean");
    assert_eq!(value_type_name(&n(1)), "number");
    assert_eq!(value_type_name(&JsonValue::Null), "unknown");
}

#[test]
fn test_search_request_forms() {
    let r = search_request(&obj(vec![("query", s("find x"))])).unwrap();
    assert!(r.single);
    assert_eq!(r.top_k, 5);
    assert!(r.filters.is_none());
    assert_eq!(
        search_request(&obj(vec![])).err(),
        Some("Either 'query' or 'queries' must be provided".to_string())
    );
    assert_eq!(
        search_request(&obj(vec![("query", s("a")), ("queries", JsonValue::Array(vec![]))])).err(),
        Some("Provide either 'query' or 'queries', not both".to_string())
    );
    assert_eq!(
        search_request(&obj(vec![("query", s("a")), ("top_k", n(0))])).err(),
        Some("top_k must be between 1 and 100".to_string())
    );
    assert_eq!(
        search_request(&obj(vec![("query", s("a")), ("top_k", n(101))])).err(),
        Some("top_k must be between 1 and 100".to_string())
    );
    let minus_one = JsonValue::Number(JsonNumber { as_u64: None, as_i64: Some(-1) });
    assert_eq!(
        search_request(&obj(vec![("query", s("a")), ("top_k", minus_one)])).err(),
        Some("top_k must be between 1 and 100".to_string())
    );
    let fraction = JsonValue::Number(JsonNumber { as_u64: None, as_i64: None });
    assert_eq!(
        search_request(&obj(vec![("query", s("a")), ("top_k", fraction)])).err(),
        Some("top_k must be between 1 and 100".to_string())
    );
    assert_eq!(search_request(&obj(vec![("query", s("a")), ("top_k", n(100))])).unwrap().top_k, 100);
    assert_eq!(
        search_request(&obj(vec![("query", s("a")), ("filters", s("x"))])).err(),
        Some("filters must be an object".to_string())
    );
    let f = search_request(&obj(vec![
        ("query", s("a")),
        ("filters", obj(vec![("file_extension", s("rs")), ("symbol_kind", s("function"))])),
    ]))
    .unwrap()
    .filters
    .unwrap();
    assert_eq!(f.file_extension, Some("rs".to_string()));
    assert_eq!(f.symbol_kind, Some("function".to_string()));
}

#[test]
fn test_search_batch_queries() {
    let args = obj(vec![("queries", JsonValue::Array(vec![s("a"), s("b")]))]);
    let r = search_request(&args).unwrap();
    assert!(!r.single);
    assert_eq!(search_queries(&args, false), Ok(vec!["a".to_string(), "b".to_string()]));
    let bad = obj(vec![("queries", JsonValue::Array(vec![s("a"), n(2)]))]);
    assert_eq!(
        search_queries(&bad, false),
        Err("Query at index 1 is not a valid string".to_string())
    );
    let long = obj(vec![("query", s(&"q".repeat(4097)))]);
    assert_eq!(
        search_queries(&long, true),
        Err("Query exceeds maximum length of 4096 characters (got 4097)".to_string())
    );
}

#[test]
fn test_dispatch_requires_initialize() {
    let mut state = McpState::new("/ws");
    assert_eq!(state.store_path, "/ws/.rustrag");
    match state.dispatch_step("tools/list", true) {
        McpStep::Failed(m) => assert_eq!(m, "Not initialized. Call 'initialize' first."),
        other => panic!("unexpected {:?}", other),
    }
    match state.dispatch_step("initialize", false) {
        McpStep::Failed(m) => assert_eq!(m, "No index found. Run `rust-rag index <path>` first."),
        other => panic!("unexpected {:?}", other),
    }
    assert!(matches!(state.dispatch_step("initialize", true), McpStep::Initialized));
    assert!(matches!(state.dispatch_step("tools/list", true), McpStep::ToolList));
    assert!(matches!(state.dispatch_step("tools/call", true), McpStep::CallTool));
    match state.dispatch_step("bogus", true) {
        McpStep::MethodNotFound(m) => assert_eq!(m, "Method not found: bogus"),
        other => panic!("unexpected {:?}", other),
    }
}

#[test]
fn test_tool_names_and_errors() {
    assert_eq!(tool_for("rag_search"), Ok(Tool::Search));
    assert_eq!(tool_for("rag_file_read"), Ok(Tool::FileRead));
    assert_eq!(tool_for("rag_query"), Ok(Tool::Query));
    assert_eq!(tool_for("nope"), Err("Unknown tool: nope".to_string()));
    let long = "e".repeat(300);
    let msg = internal_error_message(&long);
    assert_eq!(msg.len(), "Internal error: ".len() + 256);
}

#[test]
fn test_query_question() {
    assert_eq!(query_question(&obj(vec![("question", s("how?"))])), Ok("how?".to_string()));
    assert_eq!(query_question(&obj(vec![])), Err("Missing or invalid 'question' argument".to_string()));
    assert_eq!(query_question(&obj(vec![("question", n(3))])), Err("Missing or invalid 'question' argument".to_string()));
    assert_eq!(
        query_question(&obj(vec![("question", s(&"q".repeat(4097)))])),
        Err("Question exceeds maximum length of 4096 characters (got 4097)".to_string())
    );
    assert_eq!(query_question(&obj(vec![("question", s(&"q".repeat(4096)))])).map(|q| q.len()), Ok(4096));
}

#[test]
fn test_unknown_method_code() {
    assert_eq!(METHOD_NOT_FOUND, -32601);
}

fn field<'a>(v: &'a JsonValue, key: &str) -> &'a JsonValue {
    v.get(key).unwrap()
}

#[test]
fn test_tools_list_names_and_schemas() {
    let list = tools_list();
    let tools = match field(&list, "tools") {
        JsonValue::Array(ts) => ts,
        _ => panic!("tools is not an array"),
    };
    let names: Vec<&str> = tools.iter().map(|t| field(t, "name").as_str().unwrap()).collect();
    assert_eq!(names, vec!["rag_search", "rag_query", "rag_workspace_info", "rag_file_read"]);
    let forms = match field(field(&tools[0], "inputSchema"), "oneOf") {
        JsonValue::Array(f) => f,
        _ => panic!("oneOf is not an array"),
    };
    assert_eq!(forms.len(), 2);
    let single = field(field(&forms[0], "properties"), "query");
    assert_eq!(field(single, "type").as_str(), Some("string"));
    assert_eq!(field(single, "maxLength").as_u64(), Some(4096));
    let question = field(field(field(&tools[1], "inputSchema"), "properties"), "question");
    assert_eq!(field(question, "maxLength").as_u64(), Some(4096));
    match field(field(&tools[3], "inputSchema"), "required") {
        JsonValue::Array(r) => assert_eq!(r.len(), 1),
        _ => panic!("required is not an array"),
    }
    // The advertised search schema accepts and refuses as the checked one does.
    let args = obj(vec![("query", s("q")), ("top_k", s("5"))]);
    assert_eq!(
        validate_tool_input(&search_schema(true), &args),
        Err("Field 'top_k' expected number, got string".to_string())
    );
}
