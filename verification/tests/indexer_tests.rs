use rust_rag::callgraph::build_call_graph;
use rust_rag::indexer::{parse_and_extract, Chunk, SymbolKind};

#[test]
fn test_callgraph_parse_call_exprs_finds_function_calls() {
    let code = r#"
fn my_func() {
    helper();
    other_helper(42);
}
"#;
    let chunks = vec![Chunk {
        file_path: "src/main.rs".to_string(),
        line_start: 0,
        line_end: 50,
        module_name: "main/my_func".to_string(),
        symbol_kind: SymbolKind::Function,
        text: code.to_string(),
        max_nesting_depth: None,
    }];

    let (graph, _name_map) = build_call_graph(&chunks).unwrap();
    assert!(graph.node_count() >= 1);
}

#[test]
fn test_callgraph_build_creates_nodes_for_all_chunks() {
    let chunks = vec![
        Chunk {
            file_path: "src/main.rs".to_string(),
            line_start: 0,
            line_end: 50,
            module_name: "main/my_func".to_string(),
            symbol_kind: SymbolKind::Function,
            text: "fn my_func() {}".to_string(),
            max_nesting_depth: None,
        },
        Chunk {
            file_path: "src/lib.rs".to_string(),
            line_start: 50,
            line_end: 100,
            module_name: "lib/helper".to_string(),
            symbol_kind: SymbolKind::Function,
            text: "fn helper() {}".to_string(),
            max_nesting_depth: None,
        },
    ];

    let (graph, _name_map) = build_call_graph(&chunks).unwrap();
    assert_eq!(graph.node_count(), 2);
}

#[test]
fn test_callgraph_ignores_non_function_chunks() {
    let chunks = vec![Chunk {
        file_path: "src/lib.rs".to_string(),
        line_start: 0,
        line_end: 10,
        module_name: "lib/my_struct".to_string(),
        symbol_kind: SymbolKind::Struct,
        text: "struct MyStruct {}".to_string(),
        max_nesting_depth: None,
    }];

    let (graph, _name_map) = build_call_graph(&chunks).unwrap();
    assert_eq!(graph.edge_count(), 0); // structs don't produce call edges
}

#[test]
fn test_indexer_parse_and_extract_function() {
    let content = r#"
fn hello_world() -> &'static str {
    "hello"
}
"#;
    let mut chunks: Vec<Chunk> = Vec::new();
    parse_and_extract(content, "test.rs", &mut chunks)
    .expect("should parse");

    let func_chunks: Vec<_> = chunks
        .iter()
        .filter(|c| c.symbol_kind == SymbolKind::Function)
        .collect();
    assert!(
        !func_chunks.is_empty(),
        "Should extract at least one function chunk"
    );
}

#[test]
fn test_indexer_parse_and_extract_impl_block() {
    let content = r#"
struct MyStruct;

impl MyStruct {
    fn method(&self) {}
}
"#;
    let mut chunks: Vec<Chunk> = Vec::new();
    parse_and_extract(content, "test.rs", &mut chunks)
    .expect("should parse");

    let impl_chunks: Vec<_> = chunks
        .iter()
        .filter(|c| c.symbol_kind == SymbolKind::ImplBlock)
        .collect();
    assert!(
        !impl_chunks.is_empty(),
        "Should extract at least one impl block chunk"
    );
}

#[test]
fn test_indexer_parse_and_extract_unsafe_block() {
    let content = r#"
struct Foo;

impl Foo {
    fn read_file(&self) -> Result<(), std::io::Error> {
        unsafe {
            std::mem::transmute::<i32, f32>(0);
            Ok(())
        }
    }
}
"#;
    let mut chunks: Vec<Chunk> = Vec::new();
    parse_and_extract(content, "test.rs", &mut chunks)
    .expect("should parse without panic");

    assert!(
        !chunks.is_empty(),
        "Should extract at least one chunk from code with unsafe, got {} total",
        chunks.len()
    );
}

#[test]
fn test_indexer_parse_and_extract_nested_struct_in_module() {
    let content = r#"
mod types {
    pub struct Person {
        name: String,
        age: u32,
    }

    impl Person {
        fn new(name: &str) -> Self {
            Self { name: name.to_string(), age: 0 }
        }
    }
}
"#;
    let mut chunks: Vec<Chunk> = Vec::new();
    parse_and_extract(content, "test.rs", &mut chunks)
    .expect("should parse without panic");

    assert!(
        !chunks.is_empty(),
        "Should extract at least one chunk from code with struct in module, got {} total",
        chunks.len()
    );
}

#[test]
fn test_indexer_parse_and_extract_nested_enum_in_module() {
    let content = r#"
mod types {
    pub enum Color {
        Red,
        Green,
        Blue,
    }

    impl Color {
        fn as_str(&self) -> &'static str {
            match self {
                Color::Red => "red",
                _ => "other"
            }
        }
    }
}
"#;
    let mut chunks: Vec<Chunk> = Vec::new();
    parse_and_extract(content, "test.rs", &mut chunks)
    .expect("should parse without panic");

    assert!(
        !chunks.is_empty(),
        "Should extract at least one chunk from code with enum in module, got {} total",
        chunks.len()
    );
}

#[test]
fn test_indexer_parse_and_extract_trait_impl() {
    let content = r#"
trait MyTrait {
    fn do_it(&self);
}

struct Wrapper;

impl MyTrait for Wrapper {
    fn do_it(&self) {}
}
"#;
    let mut chunks: Vec<Chunk> = Vec::new();
    parse_and_extract(content, "test.rs", &mut chunks)
    .expect("should parse without panic");

    assert!(
        !chunks.is_empty(),
        "Should extract at least one chunk from code with trait impl, got {} total",
        chunks.len()
    );
}

#[test]
fn test_indexer_parse_and_extract_multiple_functions() {
    let content = r#"
fn func_a() {}
fn func_b() {}
fn func_c() {}
"#;
    let mut chunks: Vec<Chunk> = Vec::new();
    parse_and_extract(content, "test.rs", &mut chunks)
    .expect("should parse");

    let func_chunks: Vec<_> = chunks
        .iter()
        .filter(|c| c.symbol_kind == SymbolKind::Function)
        .collect();
    assert_eq!(
        func_chunks.len(),
        3,
        "Should extract exactly three function chunks"
    );
}

#[test]
fn test_indexer_parse_and_extract_empty_file() {
    let content = "";
    let mut chunks: Vec<Chunk> = Vec::new();
    parse_and_extract(content, "test.rs", &mut chunks)
    .expect("should parse empty file without error");

    assert!(chunks.is_empty(), "Empty file should produce no chunks");
}


#[test]
fn test_indexer_impl_block_contains_methods_no_separate_chunks() {
    let content = r#"
struct Counter {
    count: u32,
}

impl Counter {
    fn new() -> Self {
        Counter { count: 0 }
    }

    fn increment(&mut self) {
        self.count += 1;
    }

    fn get(&self) -> u32 {
        self.count
    }
}

pub fn standalone() -> i32 {
    42
}
"#;
    let mut chunks: Vec<Chunk> = Vec::new();
    parse_and_extract(content, "test.rs", &mut chunks)
    .expect("should parse");

    let impl_chunks: Vec<_> = chunks
        .iter()
        .filter(|c| c.symbol_kind == SymbolKind::ImplBlock)
        .collect();
    let func_chunks: Vec<_> = chunks
        .iter()
        .filter(|c| c.symbol_kind == SymbolKind::Function)
        .collect();

    assert_eq!(impl_chunks.len(), 1, "Should extract one impl block");

    let impl_text = &impl_chunks[0].text;
    assert!(impl_text.contains("fn new()"), "Impl should contain 'new'");
    assert!(
        impl_text.contains("fn increment"),
        "Impl should contain 'increment'"
    );
    assert!(impl_text.contains("fn get"), "Impl should contain 'get'");

    for chunk in &chunks {
        if let SymbolKind::Function = chunk.symbol_kind {
            assert!(
                !chunk.text.contains("fn new()") && !chunk.text.contains("fn increment"),
                "Method 'new' or 'increment' should NOT appear as a separate Function chunk"
            );
        }
    }

    assert_eq!(
        func_chunks.len(),
        1,
        "Should extract exactly one standalone function"
    );
}

#[test]
fn test_indexer_trait_impl_methods_not_separate() {
    let content = r#"
trait Draw {
    fn draw(&self);
}

struct Circle;

impl Draw for Circle {
    fn draw(&self) {
        println!("drawing circle");
    }
}
"#;
    let mut chunks: Vec<Chunk> = Vec::new();
    parse_and_extract(content, "test.rs", &mut chunks)
    .expect("should parse");

    let func_chunks: Vec<_> = chunks
        .iter()
        .filter(|c| c.symbol_kind == SymbolKind::Function)
        .collect();
    assert!(
        func_chunks.is_empty(),
        "Methods inside trait impl should not produce separate Function chunks"
    );
}


#[test]
fn test_indexer_macro_definition_becomes_chunk() {
    let content = r#"
macro_rules! my_macro {
    ($name:ident) => {
        fn $name() { println!("hello"); }
    };
}

my_macro!(my_fn);
"#;
    let mut chunks: Vec<Chunk> = Vec::new();
    parse_and_extract(content, "test.rs", &mut chunks)
    .expect("should parse");

    let macro_chunks: Vec<_> = chunks
        .iter()
        .filter(|c| c.symbol_kind == SymbolKind::Macro)
        .collect();
    assert_eq!(
        macro_chunks.len(),
        1,
        "Should extract one macro definition chunk"
    );
    assert!(
        macro_chunks[0].text.contains("macro_rules!"),
        "Chunk should contain the full macro definition"
    );

    for chunk in &chunks {
        if let SymbolKind::Macro = chunk.symbol_kind {
            assert!(
                !chunk.text.contains("my_macro!("),
                "Macro invocation should not appear as a separate Macro chunk"
            );
        }
    }
}

#[test]
fn test_indexer_nested_macros_not_split() {
    let content = r#"
macro_rules! outer {
    ($inner:expr) => {
        macro_rules! inner {
            () => { $inner };
        }
        inner!();
    };
}
"#;
    let mut chunks: Vec<Chunk> = Vec::new();
    parse_and_extract(content, "test.rs", &mut chunks)
    .expect("should parse");

    let macro_chunks: Vec<_> = chunks
        .iter()
        .filter(|c| c.symbol_kind == SymbolKind::Macro)
        .collect();
    assert!(
        !macro_chunks.is_empty(),
        "Should extract at least one macro chunk"
    );

    for chunk in &chunks {
        if !chunk.text.contains("macro_rules!") {
            assert!(
                !chunk.text.trim().starts_with("inner!("),
                "Macro invocation should not be a separate chunk"
            );
        }
    }
}


#[test]
fn test_indexer_nesting_depth_top_level_function() {
    let content = r#"
fn simple() -> i32 { 42 }

fn with_nested_blocks() -> i32 {
    if true {
        for _ in 0..1 {
            loop {
                break;
            }
        }
    }
    42
}
"#;
    let mut chunks: Vec<Chunk> = Vec::new();
    parse_and_extract(content, "test.rs", &mut chunks)
    .expect("should parse");

    let func_chunks: Vec<_> = chunks
        .iter()
        .filter(|c| c.symbol_kind == SymbolKind::Function)
        .collect();
    assert_eq!(func_chunks.len(), 2);

    let simple = func_chunks
        .iter()
        .find(|c| c.text.contains("fn simple"))
        .unwrap();
    if let Some(d) = simple.max_nesting_depth {
        assert_eq!(
            d, 2,
            "Top-level function has fn(1) + body block(1) = depth 2"
        );
    } else {
        panic!("max_nesting_depth should be set for Function chunks");
    }

    let complex = func_chunks
        .iter()
        .find(|c| c.text.contains("fn with_nested_blocks"))
        .unwrap();
    if let Some(d) = complex.max_nesting_depth {
        assert!(
            d >= 4,
            "Function with if/for/loop should have nesting depth >= 4, got {}",
            d
        );
    } else {
        panic!("max_nesting_depth should be set for Function chunks");
    }

    assert!(
        simple.max_nesting_depth.unwrap() < complex.max_nesting_depth.unwrap(),
        "Shallow function depth ({}) should be less than complex function ({})",
        simple.max_nesting_depth.unwrap(),
        complex.max_nesting_depth.unwrap()
    );
}

#[test]
fn test_indexer_impl_block_has_positive_nesting() {
    let content = r#"
struct Foo;

impl Foo {
    fn method_a(&self) {}

    fn method_b(&mut self, x: i32) -> String {
        if x > 0 {
            format!("positive: {}", x)
        } else {
            "non-positive".to_string()
        }
    }
}
"#;
    let mut chunks: Vec<Chunk> = Vec::new();
    parse_and_extract(content, "test.rs", &mut chunks)
    .expect("should parse");

    let impl_chunks: Vec<_> = chunks
        .iter()
        .filter(|c| c.symbol_kind == SymbolKind::ImplBlock)
        .collect();
    assert_eq!(impl_chunks.len(), 1);

    if let Some(d) = impl_chunks[0].max_nesting_depth {
        assert!(
            d >= 2,
            "Impl block should have nesting depth >= 2, got {}",
            d
        );
    } else {
        panic!("max_nesting_depth should be set for ImplBlock chunks");
    }

    let text = &impl_chunks[0].text;
    assert!(
        text.contains("fn method_a"),
        "Impl chunk should contain method_a"
    );
    assert!(
        text.contains("fn method_b"),
        "Impl chunk should contain method_b"
    );
}


#[test]
fn test_parsed_chunks_lie_in_the_file() {
    let content = "// é\nfn a() { let x = 1; }\n\nmod m {\n    struct S { f: u8 }\n}\n";
    let mut chunks: Vec<Chunk> = vec![Chunk {
        file_path: "old.rs".to_string(),
        line_start: 0,
        line_end: 1,
        module_name: "old".to_string(),
        symbol_kind: SymbolKind::Struct,
        text: "x".to_string(),
        max_nesting_depth: None,
    }];
    parse_and_extract(content, "f.rs", &mut chunks).unwrap();
    assert_eq!(chunks[0].file_path, "old.rs");
    assert_eq!(chunks.len(), 3);
    for c in &chunks[1..] {
        assert_eq!(c.file_path, "f.rs");
        assert!(c.max_nesting_depth.is_some());
        assert!(c.line_start <= c.line_end && c.line_end <= content.len());
        assert_eq!(c.text, &content[c.line_start..c.line_end]);
    }
    assert_eq!(chunks[1].text, "fn a() { let x = 1; }");
    assert_eq!(chunks[1].module_name, "/a");
    assert_eq!(chunks[2].module_name, "m/S");
}
