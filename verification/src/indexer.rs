//! Chunks of Rust source and their extraction from a syntax tree.
//!
//! A source file is parsed with tree-sitter's Rust grammar, whose tree comes
//! back as a preorder listing and is rebuilt as a [`SyntaxNode`] tree
//! ([`parse_and_extract`]); [`extract_chunks`] walks that tree and turns
//! semantic items (functions, impl blocks, unsafe blocks, structs, enums,
//! traits, unions, macro definitions) into [`Chunk`]s, recursing into modules.
use vstd::prelude::*;
use tree_sitter::{Node as TsNode, Parser as TsParser};
use tree_sitter_rust::LANGUAGE as RUST_GRAMMAR;
use crate::error::RagCoreError;
use crate::text::{byte_len, concat2, concat3, str_eq};
use vstd::utf8::encode_utf8;

verus! {

/// The kind of code item a chunk holds.
#[derive(Debug, Clone, Copy, PartialEq, Eq, Structural)]
pub enum SymbolKind {
    /// A free function.
    Function,
    /// An inherent impl block (with its methods).
    ImplBlock,
    /// An `unsafe` block.
    UnsafeRegion,
    /// A trait definition or trait impl.
    TraitImpl,
    /// A module.
    Module,
    /// A struct (or union).
    Struct,
    /// An enum.
    Enum,
    /// A macro definition.
    Macro,
}

/// A unit of code to be embedded — typically a function, impl block, or unsafe region.
#[derive(Debug)]
pub struct Chunk {
    /// The file the chunk was extracted from.
    pub file_path: String,
    /// Start offset of the chunk (a byte offset into the file).
    pub line_start: usize,
    /// End offset of the chunk (a byte offset into the file).
    pub line_end: usize,
    /// Module-qualified name of the item.
    pub module_name: String,
    /// The kind of item.
    pub symbol_kind: SymbolKind,
    /// The source text of the item.
    pub text: String,
    /// Maximum syntactic nesting depth within the chunk, when computed.
    pub max_nesting_depth: Option<usize>,
}

/// A chunk as plain values.
pub struct ChunkView {
    pub file_path: Seq<char>,
    pub line_start: usize,
    pub line_end: usize,
    pub module_name: Seq<char>,
    pub symbol_kind: SymbolKind,
    pub text: Seq<char>,
    pub max_nesting_depth: Option<usize>,
}

impl View for Chunk {
    type V = ChunkView;

    open spec fn view(&self) -> ChunkView {
        ChunkView {
            file_path: self.file_path@,
            line_start: self.line_start,
            line_end: self.line_end,
            module_name: self.module_name@,
            symbol_kind: self.symbol_kind,
            text: self.text@,
            max_nesting_depth: self.max_nesting_depth,
        }
    }
}

impl Clone for Chunk {
    fn clone(&self) -> (res: Self)
        ensures
            res == *self,
    {
        Chunk {
            file_path: self.file_path.clone(),
            line_start: self.line_start,
            line_end: self.line_end,
            module_name: self.module_name.clone(),
            symbol_kind: self.symbol_kind,
            text: self.text.clone(),
            max_nesting_depth: self.max_nesting_depth,
        }
    }
}

/// The views of a sequence of chunks.
pub open spec fn views(s: Seq<Chunk>) -> Seq<ChunkView> {
    s.map_values(|c: Chunk| c@)
}

/// The lowercase storage name of a symbol kind.
pub open spec fn kind_storage_name(k: SymbolKind) -> Seq<char> {
    match k {
        SymbolKind::Function => "function"@,
        SymbolKind::ImplBlock => "implblock"@,
        SymbolKind::UnsafeRegion => "unsaferegion"@,
        SymbolKind::TraitImpl => "traitimpl"@,
        SymbolKind::Module => "module"@,
        SymbolKind::Struct => "struct"@,
        SymbolKind::Enum => "enum"@,
        SymbolKind::Macro => "macro"@,
    }
}

/// The display name of a symbol kind.
pub open spec fn kind_display_name(k: SymbolKind) -> Seq<char> {
    match k {
        SymbolKind::Function => "Function"@,
        SymbolKind::ImplBlock => "ImplBlock"@,
        SymbolKind::UnsafeRegion => "UnsafeRegion"@,
        SymbolKind::TraitImpl => "TraitImpl"@,
        SymbolKind::Module => "Module"@,
        SymbolKind::Struct => "Struct"@,
        SymbolKind::Enum => "Enum"@,
        SymbolKind::Macro => "Macro"@,
    }
}

impl SymbolKind {
    /// The lowercase string name used in index storage.
    pub fn as_str(&self) -> (res: &'static str)
        ensures
            res@ == kind_storage_name(*self),
    {
        match self {
            SymbolKind::Function => "function",
            SymbolKind::ImplBlock => "implblock",
            SymbolKind::UnsafeRegion => "unsaferegion",
            SymbolKind::TraitImpl => "traitimpl",
            SymbolKind::Module => "module",
            SymbolKind::Struct => "struct",
            SymbolKind::Enum => "enum",
            SymbolKind::Macro => "macro",
        }
    }

    /// The display name (the variant's name).
    pub fn symbol_name(&self) -> (res: &'static str)
        ensures
            res@ == kind_display_name(*self),
    {
        match self {
            SymbolKind::Function => "Function",
            SymbolKind::ImplBlock => "ImplBlock",
            SymbolKind::UnsafeRegion => "UnsafeRegion",
            SymbolKind::TraitImpl => "TraitImpl",
            SymbolKind::Module => "Module",
            SymbolKind::Struct => "Struct",
            SymbolKind::Enum => "Enum",
            SymbolKind::Macro => "Macro",
        }
    }
}

impl Chunk {
    /// Create a new chunk without nesting-depth tracking.
    pub fn new(
        file_path: String,
        line_start: usize,
        line_end: usize,
        module_name: String,
        symbol_kind: SymbolKind,
        text: String,
    ) -> (res: Self)
        ensures
            res.file_path == file_path,
            res.line_start == line_start,
            res.line_end == line_end,
            res.module_name == module_name,
            res.symbol_kind == symbol_kind,
            res.text == text,
            res.max_nesting_depth is None,
    {
        Chunk { file_path, line_start, line_end, module_name, symbol_kind, text, max_nesting_depth: None }
    }

    /// The display name of this chunk's symbol kind.
    pub fn symbol_kind_name(&self) -> (res: &'static str)
        ensures
            res@ == kind_display_name(self.symbol_kind),
    {
        self.symbol_kind.symbol_name()
    }
}

// ---------------------------------------------------------------------------
// Syntax trees
// ---------------------------------------------------------------------------

/// A node of a concrete syntax tree of a Rust source file.
#[derive(Debug)]
pub struct SyntaxNode {
    /// The grammar kind of the node (e.g. `"function_item"`).
    pub kind: String,
    /// Byte offset where the node starts.
    pub start_byte: usize,
    /// Byte offset where the node ends.
    pub end_byte: usize,
    /// The source text the node spans.
    pub text: String,
    /// Text of the node's `name` field, if it has one.
    pub name: Option<String>,
    /// Text of the node's `self_type` field, if it has one.
    pub self_type: Option<String>,
    /// The node's children, in source order.
    pub children: Vec<SyntaxNode>,
}

/// Node kinds that add one level of nesting.
pub open spec fn is_container(k: Seq<char>) -> bool {
    ||| k == "block"@
    ||| k == "function_item"@
    ||| k == "impl_item"@
    ||| k == "mod_item"@
    ||| k == "unsafe_block"@
    ||| k == "struct_expression"@
    ||| k == "tuple_struct"@
    ||| k == "for_statement"@
    ||| k == "while_statement"@
    ||| k == "loop_statement"@
}

/// Node kinds that are never split into chunks nor recursed into.
pub open spec fn is_atomic(k: Seq<char>) -> bool {
    ||| k == "macro_invocation"@
    ||| k == "use_declaration"@
    ||| k == "use_tree"@
    ||| k == "extern_crate_declaration"@
    ||| k == "attribute"@
}

/// The larger of two naturals.
pub open spec fn max_nat(a: nat, b: nat) -> nat {
    if a >= b { a } else { b }
}

/// Maximum nesting depth of a subtree: containers count one level each.
pub open spec fn nesting_depth(n: SyntaxNode) -> nat
    decreases n, 1nat,
{
    let m = max_depth_of(n.children@);
    if is_container(n.kind@) {
        1 + m
    } else {
        m
    }
}

/// The largest nesting depth among a list of subtrees (0 for none).
pub open spec fn max_depth_of(s: Seq<SyntaxNode>) -> nat
    decreases s, 0nat,
{
    if s.len() == 0 {
        0
    } else {
        max_nat(max_depth_of(s.drop_last()), nesting_depth(s.last()))
    }
}

/// A natural number, saturated to `usize`.
pub open spec fn sat(n: nat) -> usize {
    if n <= usize::MAX { n as usize } else { usize::MAX }
}

/// The text of an optional field, or `default` when the field is absent.
pub open spec fn field_or(f: Option<String>, default: Seq<char>) -> Seq<char> {
    match f {
        Some(s) => s@,
        None => default,
    }
}

/// The chunk of node `n`.
pub open spec fn node_chunk(
    n: SyntaxNode,
    path: Seq<char>,
    module: Seq<char>,
    kind: SymbolKind,
    depth: usize,
) -> ChunkView {
    ChunkView {
        file_path: path,
        line_start: n.start_byte,
        line_end: n.end_byte,
        module_name: module,
        symbol_kind: kind,
        text: n.text@,
        max_nesting_depth: Some(depth),
    }
}

/// The module prefix inside a module named `name`.
pub open spec fn module_prefix_in(prefix: Seq<char>, name: Seq<char>) -> Seq<char> {
    if prefix.len() == 0 || prefix == "<root>"@ {
        name
    } else {
        prefix + "/"@ + name
    }
}

/// The chunks extracted from subtree `n` whose parent has kind `parent`,
/// inside module `prefix` of file `path`.
pub open spec fn extract(n: SyntaxNode, parent: Option<Seq<char>>, path: Seq<char>, prefix: Seq<char>) -> Seq<ChunkView>
    decreases n, 1nat,
{
    let k = n.kind@;
    let name = field_or(n.name, "<anon>"@);
    let depth = sat(nesting_depth(n));
    if k == "macro_definition"@ {
        seq![node_chunk(n, path, prefix + "/macro "@ + name, SymbolKind::Macro, depth)]
    } else if is_atomic(k) {
        seq![]
    } else if k == "function_item"@ {
        if parent == Some("impl_item"@) {
            seq![]
        } else {
            seq![node_chunk(n, path, prefix + "/"@ + name, SymbolKind::Function, depth)]
        }
    } else if k == "impl_item"@ {
        seq![node_chunk(n, path, prefix + "/impl "@ + field_or(n.self_type, "<unknown>"@),
            SymbolKind::ImplBlock, sat(nesting_depth(n) + 1))]
    } else if k == "unsafe_block"@ {
        seq![node_chunk(n, path, prefix + "/unsafe"@, SymbolKind::UnsafeRegion, depth)]
    } else if k == "mod_item"@ {
        extract_all(n.children@, Some(k), path, module_prefix_in(prefix, name))
    } else if k == "struct_item"@ || k == "union_item"@ {
        seq![node_chunk(n, path, prefix + "/"@ + name, SymbolKind::Struct, depth)]
    } else if k == "enum_item"@ {
        seq![node_chunk(n, path, prefix + "/"@ + name, SymbolKind::Enum, depth)]
    } else if k == "trait_item"@ {
        seq![node_chunk(n, path, prefix + "/trait "@ + name, SymbolKind::TraitImpl, depth)]
    } else {
        extract_all(n.children@, Some(k), path, prefix)
    }
}

/// The chunks extracted from a list of sibling subtrees, in order.
pub open spec fn extract_all(s: Seq<SyntaxNode>, parent: Option<Seq<char>>, path: Seq<char>, prefix: Seq<char>) -> Seq<ChunkView>
    decreases s, 0nat,
{
    if s.len() == 0 {
        seq![]
    } else {
        extract_all(s.drop_last(), parent, path, prefix) + extract(s.last(), parent, path, prefix)
    }
}

/// The node kinds the extraction tells apart are all different.
proof fn lemma_item_kinds_distinct()
    ensures
        "macro_invocation"@ != "macro_definition"@,
        "use_declaration"@ != "macro_definition"@,
        "use_declaration"@ != "macro_invocation"@,
        "use_tree"@ != "macro_definition"@,
        "use_tree"@ != "macro_invocation"@,
        "use_tree"@ != "use_declaration"@,
        "extern_crate_declaration"@ != "macro_definition"@,
        "extern_crate_declaration"@ != "macro_invocation"@,
        "extern_crate_declaration"@ != "use_declaration"@,
        "extern_crate_declaration"@ != "use_tree"@,
        "attribute"@ != "macro_definition"@,
        "attribute"@ != "macro_invocation"@,
        "attribute"@ != "use_declaration"@,
        "attribute"@ != "use_tree"@,
        "attribute"@ != "extern_crate_declaration"@,
        "function_item"@ != "macro_definition"@,
        "function_item"@ != "macro_invocation"@,
        "function_item"@ != "use_declaration"@,
        "function_item"@ != "use_tree"@,
        "function_item"@ != "extern_crate_declaration"@,
        "function_item"@ != "attribute"@,
        "impl_item"@ != "macro_definition"@,
        "impl_item"@ != "macro_invocation"@,
        "impl_item"@ != "use_declaration"@,
        "impl_item"@ != "use_tree"@,
        "impl_item"@ != "extern_crate_declaration"@,
        "impl_item"@ != "attribute"@,
        "impl_item"@ != "function_item"@,
        "unsafe_block"@ != "macro_definition"@,
        "unsafe_block"@ != "macro_invocation"@,
        "unsafe_block"@ != "use_declaration"@,
        "unsafe_block"@ != "use_tree"@,
        "unsafe_block"@ != "extern_crate_declaration"@,
        "unsafe_block"@ != "attribute"@,
        "unsafe_block"@ != "function_item"@,
        "unsafe_block"@ != "impl_item"@,
        "mod_item"@ != "macro_definition"@,
        "mod_item"@ != "macro_invocation"@,
        "mod_item"@ != "use_declaration"@,
        "mod_item"@ != "use_tree"@,
        "mod_item"@ != "extern_crate_declaration"@,
        "mod_item"@ != "attribute"@,
        "mod_item"@ != "function_item"@,
        "mod_item"@ != "impl_item"@,
        "mod_item"@ != "unsafe_block"@,
        "struct_item"@ != "macro_definition"@,
        "struct_item"@ != "macro_invocation"@,
        "struct_item"@ != "use_declaration"@,
        "struct_item"@ != "use_tree"@,
        "struct_item"@ != "extern_crate_declaration"@,
        "struct_item"@ != "attribute"@,
        "struct_item"@ != "function_item"@,
        "struct_item"@ != "impl_item"@,
        "struct_item"@ != "unsafe_block"@,
        "struct_item"@ != "mod_item"@,
        "union_item"@ != "macro_definition"@,
        "union_item"@ != "macro_invocation"@,
        "union_item"@ != "use_declaration"@,
        "union_item"@ != "use_tree"@,
        "union_item"@ != "extern_crate_declaration"@,
        "union_item"@ != "attribute"@,
        "union_item"@ != "function_item"@,
        "union_item"@ != "impl_item"@,
        "union_item"@ != "unsafe_block"@,
        "union_item"@ != "mod_item"@,
        "union_item"@ != "struct_item"@,
        "enum_item"@ != "macro_definition"@,
        "enum_item"@ != "macro_invocation"@,
        "enum_item"@ != "use_declaration"@,
        "enum_item"@ != "use_tree"@,
        "enum_item"@ != "extern_crate_declaration"@,
        "enum_item"@ != "attribute"@,
        "enum_item"@ != "function_item"@,
        "enum_item"@ != "impl_item"@,
        "enum_item"@ != "unsafe_block"@,
        "enum_item"@ != "mod_item"@,
        "enum_item"@ != "struct_item"@,
        "enum_item"@ != "union_item"@,
        "trait_item"@ != "macro_definition"@,
        "trait_item"@ != "macro_invocation"@,
        "trait_item"@ != "use_declaration"@,
        "trait_item"@ != "use_tree"@,
        "trait_item"@ != "extern_crate_declaration"@,
        "trait_item"@ != "attribute"@,
        "trait_item"@ != "function_item"@,
        "trait_item"@ != "impl_item"@,
        "trait_item"@ != "unsafe_block"@,
        "trait_item"@ != "mod_item"@,
        "trait_item"@ != "struct_item"@,
        "trait_item"@ != "union_item"@,
        "trait_item"@ != "enum_item"@,
{
    reveal_strlit("macro_definition");
    reveal_strlit("macro_invocation");
    reveal_strlit("use_declaration");
    reveal_strlit("use_tree");
    reveal_strlit("extern_crate_declaration");
    reveal_strlit("attribute");
    reveal_strlit("function_item");
    reveal_strlit("impl_item");
    reveal_strlit("unsafe_block");
    reveal_strlit("mod_item");
    reveal_strlit("struct_item");
    reveal_strlit("union_item");
    reveal_strlit("enum_item");
    reveal_strlit("trait_item");
    assert("macro_invocation"@[6] != "macro_definition"@[6]);
    assert("use_declaration"@.len() != "macro_definition"@.len());
    assert("use_declaration"@.len() != "macro_invocation"@.len());
    assert("use_tree"@.len() != "macro_definition"@.len());
    assert("use_tree"@.len() != "macro_invocation"@.len());
    assert("use_tree"@.len() != "use_declaration"@.len());
    assert("extern_crate_declaration"@.len() != "macro_definition"@.len());
    assert("extern_crate_declaration"@.len() != "macro_invocation"@.len());
    assert("extern_crate_declaration"@.len() != "use_declaration"@.len());
    assert("extern_crate_declaration"@.len() != "use_tree"@.len());
    assert("attribute"@.len() != "macro_definition"@.len());
    assert("attribute"@.len() != "macro_invocation"@.len());
    assert("attribute"@.len() != "use_declaration"@.len());
    assert("attribute"@.len() != "use_tree"@.len());
    assert("attribute"@.len() != "extern_crate_declaration"@.len());
    assert("function_item"@.len() != "macro_definition"@.len());
    assert("function_item"@.len() != "macro_invocation"@.len());
    assert("function_item"@.len() != "use_declaration"@.len());
    assert("function_item"@.len() != "use_tree"@.len());
    assert("function_item"@.len() != "extern_crate_declaration"@.len());
    assert("function_item"@.len() != "attribute"@.len());
    assert("impl_item"@.len() != "macro_definition"@.len());
    assert("impl_item"@.len() != "macro_invocation"@.len());
    assert("impl_item"@.len() != "use_declaration"@.len());
    assert("impl_item"@.len() != "use_tree"@.len());
    assert("impl_item"@.len() != "extern_crate_declaration"@.len());
    assert("impl_item"@[0] != "attribute"@[0]);
    assert("impl_item"@.len() != "function_item"@.len());
    assert("unsafe_block"@.len() != "macro_definition"@.len());
    assert("unsafe_block"@.len() != "macro_invocation"@.len());
    assert("unsafe_block"@.len() != "use_declaration"@.len());
    assert("unsafe_block"@.len() != "use_tree"@.len());
    assert("unsafe_block"@.len() != "extern_crate_declaration"@.len());
    assert("unsafe_block"@.len() != "attribute"@.len());
    assert("unsafe_block"@.len() != "function_item"@.len());
    assert("unsafe_block"@.len() != "impl_item"@.len());
    assert("mod_item"@.len() != "macro_definition"@.len());
    assert("mod_item"@.len() != "macro_invocation"@.len());
    assert("mod_item"@.len() != "use_declaration"@.len());
    assert("mod_item"@[0] != "use_tree"@[0]);
    assert("mod_item"@.len() != "extern_crate_declaration"@.len());
    assert("mod_item"@.len() != "attribute"@.len());
    assert("mod_item"@.len() != "function_item"@.len());
    assert("mod_item"@.len() != "impl_item"@.len());
    assert("mod_item"@.len() != "unsafe_block"@.len());
    assert("struct_item"@.len() != "macro_definition"@.len());
    assert("struct_item"@.len() != "macro_invocation"@.len());
    assert("struct_item"@.len() != "use_declaration"@.len());
    assert("struct_item"@.len() != "use_tree"@.len());
    assert("struct_item"@.len() != "extern_crate_declaration"@.len());
    assert("struct_item"@.len() != "attribute"@.len());
    assert("struct_item"@.len() != "function_item"@.len());
    assert("struct_item"@.len() != "impl_item"@.len());
    assert("struct_item"@.len() != "unsafe_block"@.len());
    assert("struct_item"@.len() != "mod_item"@.len());
    assert("union_item"@.len() != "macro_definition"@.len());
    assert("union_item"@.len() != "macro_invocation"@.len());
    assert("union_item"@.len() != "use_declaration"@.len());
    assert("union_item"@.len() != "use_tree"@.len());
    assert("union_item"@.len() != "extern_crate_declaration"@.len());
    assert("union_item"@.len() != "attribute"@.len());
    assert("union_item"@.len() != "function_item"@.len());
    assert("union_item"@.len() != "impl_item"@.len());
    assert("union_item"@.len() != "unsafe_block"@.len());
    assert("union_item"@.len() != "mod_item"@.len());
    assert("union_item"@.len() != "struct_item"@.len());
    assert("enum_item"@.len() != "macro_definition"@.len());
    assert("enum_item"@.len() != "macro_invocation"@.len());
    assert("enum_item"@.len() != "use_declaration"@.len());
    assert("enum_item"@.len() != "use_tree"@.len());
    assert("enum_item"@.len() != "extern_crate_declaration"@.len());
    assert("enum_item"@[0] != "attribute"@[0]);
    assert("enum_item"@.len() != "function_item"@.len());
    assert("enum_item"@[0] != "impl_item"@[0]);
    assert("enum_item"@.len() != "unsafe_block"@.len());
    assert("enum_item"@.len() != "mod_item"@.len());
    assert("enum_item"@.len() != "struct_item"@.len());
    assert("enum_item"@.len() != "union_item"@.len());
    assert("trait_item"@.len() != "macro_definition"@.len());
    assert("trait_item"@.len() != "macro_invocation"@.len());
    assert("trait_item"@.len() != "use_declaration"@.len());
    assert("trait_item"@.len() != "use_tree"@.len());
    assert("trait_item"@.len() != "extern_crate_declaration"@.len());
    assert("trait_item"@.len() != "attribute"@.len());
    assert("trait_item"@.len() != "function_item"@.len());
    assert("trait_item"@.len() != "impl_item"@.len());
    assert("trait_item"@.len() != "unsafe_block"@.len());
    assert("trait_item"@.len() != "mod_item"@.len());
    assert("trait_item"@.len() != "struct_item"@.len());
    assert("trait_item"@[0] != "union_item"@[0]);
    assert("trait_item"@.len() != "enum_item"@.len());
}

/// Each kind of item node is one chunk of its symbol kind, holding the whole
/// node (its text and byte offsets) under the module path `prefix` and the
/// item's name: an enum is an `Enum` chunk, a struct or union a `Struct`
/// chunk, a trait a `TraitImpl` chunk, an unsafe block an `UnsafeRegion`
/// chunk, a macro definition a `Macro` chunk, an impl block an `ImplBlock`
/// chunk, and a function outside an impl block a `Function` chunk.
pub proof fn lemma_item_chunks(n: SyntaxNode, parent: Option<Seq<char>>, path: Seq<char>, prefix: Seq<char>)
    ensures
        ({
            let k = n.kind@;
            let name = field_or(n.name, "<anon>"@);
            let cs = extract(n, parent, path, prefix);
            let d = nesting_depth(n);
            let one = |kind: SymbolKind, module: Seq<char>, depth: nat| cs.len() == 1 && cs[0].symbol_kind == kind
                && cs[0].module_name == module && cs[0].text == n.text@ && cs[0].file_path == path
                && cs[0].line_start == n.start_byte && cs[0].line_end == n.end_byte
                && cs[0].max_nesting_depth == Some(sat(depth));
            &&& k == "enum_item"@ ==> one(SymbolKind::Enum, prefix + "/"@ + name, d)
            &&& (k == "struct_item"@ || k == "union_item"@) ==> one(SymbolKind::Struct, prefix + "/"@ + name, d)
            &&& k == "trait_item"@ ==> one(SymbolKind::TraitImpl, prefix + "/trait "@ + name, d)
            &&& k == "unsafe_block"@ ==> one(SymbolKind::UnsafeRegion, prefix + "/unsafe"@, d)
            &&& k == "macro_definition"@ ==> one(SymbolKind::Macro, prefix + "/macro "@ + name, d)
            &&& k == "impl_item"@ ==> one(SymbolKind::ImplBlock, prefix + "/impl "@ + field_or(n.self_type, "<unknown>"@), d + 1)
            &&& (k == "function_item"@ && parent != Some("impl_item"@)) ==> one(SymbolKind::Function, prefix + "/"@ + name, d)
            &&& (k == "function_item"@ && parent == Some("impl_item"@)) ==> cs.len() == 0
        }),
{
    lemma_item_kinds_distinct();
}

proof fn lemma_max_depth_bounds(s: Seq<SyntaxNode>)
    ensures
        forall|i: int| 0 <= i < s.len() ==> nesting_depth(#[trigger] s[i]) <= max_depth_of(s),
        s.len() == 0 ==> max_depth_of(s) == 0,
        s.len() > 0 ==> exists|i: int| 0 <= i < s.len() && max_depth_of(s) == nesting_depth(#[trigger] s[i]),
    decreases s.len(),
{
    if s.len() > 0 {
        lemma_max_depth_bounds(s.drop_last());
        assert forall|i: int| 0 <= i < s.len() implies nesting_depth(#[trigger] s[i]) <= max_depth_of(s) by {
            if i < s.len() - 1 {
                assert(s.drop_last()[i] == s[i]);
            }
        }
        if s.len() > 1 && max_depth_of(s.drop_last()) >= nesting_depth(s.last()) {
            let i = choose|i: int| 0 <= i < s.drop_last().len() && max_depth_of(s.drop_last()) == nesting_depth(#[trigger] s.drop_last()[i]);
            assert(s.drop_last()[i] == s[i]);
        } else {
            assert(s[s.len() - 1] == s.last());
        }
    }
}

/// The nesting depth of a node is the depth of its deepest child, one more
/// when the node is a container: a node is at least as deep as each child
/// (deeper when it is a container), some child reaches that depth, and a node
/// without children has depth 1 when it is a container and 0 otherwise.
pub proof fn lemma_depth_counts_containers(n: SyntaxNode)
    ensures
        ({
            let own: nat = if is_container(n.kind@) { 1nat } else { 0nat };
            &&& forall|i: int| 0 <= i < n.children@.len() ==>
                nesting_depth(#[trigger] n.children@[i]) + own <= nesting_depth(n)
            &&& n.children@.len() == 0 ==> nesting_depth(n) == own
            &&& n.children@.len() > 0 ==> exists|i: int| 0 <= i < n.children@.len()
                && nesting_depth(n) == nesting_depth(#[trigger] n.children@[i]) + own
        }),
{
    lemma_max_depth_bounds(n.children@);
}

/// An impl block is one chunk of kind `ImplBlock` holding the whole block:
/// its methods are not split off.
pub proof fn lemma_impl_block_is_one_chunk(n: SyntaxNode, parent: Option<Seq<char>>, path: Seq<char>, prefix: Seq<char>)
    requires
        n.kind@ == "impl_item"@,
    ensures
        extract(n, parent, path, prefix).len() == 1,
        extract(n, parent, path, prefix)[0].symbol_kind == SymbolKind::ImplBlock,
        extract(n, parent, path, prefix)[0].text == n.text@,
{
    lemma_kind_names_differ();
    assert(!is_atomic(n.kind@));
    assert(n.kind@ != "macro_definition"@);
    assert(n.kind@ != "function_item"@);
}

/// A function directly inside an impl block gives no chunk of its own.
pub proof fn lemma_method_not_a_chunk(n: SyntaxNode, path: Seq<char>, prefix: Seq<char>)
    requires
        n.kind@ == "function_item"@,
    ensures
        extract(n, Some("impl_item"@), path, prefix) == Seq::<ChunkView>::empty(),
{
    lemma_kind_names_differ();
    assert(!is_atomic(n.kind@));
    assert(n.kind@ != "macro_definition"@);
}

/// A macro invocation, a `use` or an attribute gives no chunk, whatever it holds.
pub proof fn lemma_atomic_nodes_give_no_chunk(n: SyntaxNode, parent: Option<Seq<char>>, path: Seq<char>, prefix: Seq<char>)
    requires
        is_atomic(n.kind@),
    ensures
        extract(n, parent, path, prefix) == Seq::<ChunkView>::empty(),
{
    lemma_kind_names_differ();
    assert(n.kind@ != "macro_definition"@);
}

/// The node kinds the extraction tells apart are different names.
proof fn lemma_kind_names_differ()
    ensures
        "impl_item"@ != "macro_definition"@,
        "impl_item"@ != "function_item"@,
        "function_item"@ != "macro_definition"@,
        !is_atomic("impl_item"@),
        !is_atomic("function_item"@),
        "macro_invocation"@ != "macro_definition"@,
        "use_declaration"@ != "macro_definition"@,
        "use_tree"@ != "macro_definition"@,
        "extern_crate_declaration"@ != "macro_definition"@,
        "attribute"@ != "macro_definition"@,
{
    reveal_strlit("impl_item");
    reveal_strlit("function_item");
    reveal_strlit("macro_definition");
    reveal_strlit("macro_invocation");
    reveal_strlit("use_declaration");
    reveal_strlit("use_tree");
    reveal_strlit("extern_crate_declaration");
    reveal_strlit("attribute");
    assert("impl_item"@.len() != "macro_definition"@.len());
    assert("impl_item"@.len() != "function_item"@.len());
    assert("function_item"@.len() != "macro_definition"@.len());
    assert("impl_item"@.len() != "macro_invocation"@.len());
    assert("impl_item"@.len() != "use_declaration"@.len());
    assert("impl_item"@.len() != "use_tree"@.len());
    assert("impl_item"@.len() != "extern_crate_declaration"@.len());
    assert("impl_item"@[0] != "attribute"@[0]);
    assert("function_item"@.len() != "macro_invocation"@.len());
    assert("function_item"@.len() != "use_declaration"@.len());
    assert("function_item"@.len() != "use_tree"@.len());
    assert("function_item"@.len() != "extern_crate_declaration"@.len());
    assert("function_item"@.len() != "attribute"@.len());
    assert("macro_invocation"@[6] != "macro_definition"@[6]);
    assert("use_declaration"@.len() != "macro_definition"@.len());
    assert("use_tree"@.len() != "macro_definition"@.len());
    assert("extern_crate_declaration"@.len() != "macro_definition"@.len());
    assert("attribute"@.len() != "macro_definition"@.len());
}

/// The view of an optional kind name.
pub open spec fn opt_view(o: Option<&str>) -> Option<Seq<char>> {
    match o {
        Some(s) => Some(s@),
        None => None,
    }
}

/// Whether a node kind adds a nesting level.
pub fn is_container_kind(kind: &str) -> (res: bool)
    ensures
        res == is_container(kind@),
{
    str_eq(kind, "block") || str_eq(kind, "function_item") || str_eq(kind, "impl_item")
        || str_eq(kind, "mod_item") || str_eq(kind, "unsafe_block") || str_eq(kind, "struct_expression")
        || str_eq(kind, "tuple_struct") || str_eq(kind, "for_statement") || str_eq(kind, "while_statement")
        || str_eq(kind, "loop_statement")
}

/// Whether a node kind is an atomic unit that is neither chunked nor recursed into.
pub fn is_atomic_kind(kind: &str) -> (res: bool)
    ensures
        res == is_atomic(kind@),
{
    str_eq(kind, "macro_invocation") || str_eq(kind, "use_declaration") || str_eq(kind, "use_tree")
        || str_eq(kind, "extern_crate_declaration") || str_eq(kind, "attribute")
}

/// Maximum nesting depth within a node's subtree (saturated to `usize`).
pub fn compute_nesting_depth(node: &SyntaxNode) -> (d: usize)
    ensures
        d == sat(nesting_depth(*node)),
    decreases *node,
{
    let mut max_child: usize = 0;
    let mut i: usize = 0;
    while i < node.children.len()
        invariant
            i <= node.children@.len(),
            max_child == sat(max_depth_of(node.children@.take(i as int))),
        decreases node.children@.len() - i,
    {
        proof {
            assert(decreases_to!(*node => node.children));
            assert(decreases_to!(node.children => node.children@));
            assert(decreases_to!(node.children@ => node.children@[i as int]));
        }
        let d = compute_nesting_depth(&node.children[i]);
        proof {
            let t = node.children@.take(i + 1);
            assert(t.drop_last() =~= node.children@.take(i as int));
            assert(t.last() == node.children@[i as int]);
        }
        if d > max_child {
            max_child = d;
        }
        i += 1;
    }
    proof {
        assert(node.children@.take(node.children@.len() as int) =~= node.children@);
    }
    if is_container_kind(node.kind.as_str()) {
        max_child.saturating_add(1)
    } else {
        max_child
    }
}

/// The text of an optional field, or `default` when absent.
fn field_text(f: &Option<String>, default: &str) -> (res: String)
    ensures
        res@ == field_or(*f, default@),
{
    match f {
        Some(s) => s.clone(),
        None => default.to_owned(),
    }
}

/// Append the chunk of node `n`.
fn push_node_chunk(
    chunks: &mut Vec<Chunk>,
    n: &SyntaxNode,
    file_path: &str,
    module_name: String,
    kind: SymbolKind,
    depth: usize,
)
    ensures
        views(final(chunks)@) == views(old(chunks)@).push(node_chunk(*n, file_path@, module_name@, kind, depth)),
{
    let c = Chunk {
        file_path: file_path.to_owned(),
        line_start: n.start_byte,
        line_end: n.end_byte,
        module_name,
        symbol_kind: kind,
        text: n.text.clone(),
        max_nesting_depth: Some(depth),
    };
    chunks.push(c);
    proof {
        assert(views(chunks@) =~= views(old(chunks)@).push(c@));
    }
}

/// Walk subtree `node` (whose parent has kind `parent_kind`) inside module
/// `module_prefix`, appending the chunks it yields.
fn extract_nodes(
    node: &SyntaxNode,
    file_path: &str,
    module_prefix: &str,
    parent_kind: Option<&str>,
    chunks: &mut Vec<Chunk>,
)
    ensures
        views(final(chunks)@) == views(old(chunks)@) + extract(*node, opt_view(parent_kind), file_path@, module_prefix@),
    decreases *node, 1nat,
{
    let kind = node.kind.as_str();
    if str_eq(kind, "macro_definition") {
        let name = field_text(&node.name, "<anon>");
        let module = concat3(module_prefix, "/macro ", name.as_str());
        let depth = compute_nesting_depth(node);
        push_node_chunk(chunks, node, file_path, module, SymbolKind::Macro, depth);
        return;
    }
    if is_atomic_kind(kind) {
        proof {
            assert(views(chunks@) + seq![] =~= views(chunks@));
        }
        return;
    }
    if str_eq(kind, "function_item") {
        let in_impl = match parent_kind {
            Some(p) => str_eq(p, "impl_item"),
            None => false,
        };
        if in_impl {
            proof {
                assert(views(chunks@) + seq![] =~= views(chunks@));
            }
            return;
        }
        let name = field_text(&node.name, "<anon>");
        let module = concat3(module_prefix, "/", name.as_str());
        let depth = compute_nesting_depth(node);
        push_node_chunk(chunks, node, file_path, module, SymbolKind::Function, depth);
    } else if str_eq(kind, "impl_item") {
        let self_ty = field_text(&node.self_type, "<unknown>");
        let module = concat3(module_prefix, "/impl ", self_ty.as_str());
        let depth = compute_nesting_depth(node).saturating_add(1);
        push_node_chunk(chunks, node, file_path, module, SymbolKind::ImplBlock, depth);
    } else if str_eq(kind, "unsafe_block") {
        let module = concat2(module_prefix, "/unsafe");
        let depth = compute_nesting_depth(node);
        push_node_chunk(chunks, node, file_path, module, SymbolKind::UnsafeRegion, depth);
    } else if str_eq(kind, "mod_item") {
        let name = field_text(&node.name, "<anon>");
        let new_prefix = if module_prefix.is_empty() || str_eq(module_prefix, "<root>") {
            name
        } else {
            concat3(module_prefix, "/", name.as_str())
        };
        extract_children(node, file_path, new_prefix.as_str(), kind, chunks);
    } else if str_eq(kind, "struct_item") || str_eq(kind, "union_item") {
        let name = field_text(&node.name, "<anon>");
        let module = concat3(module_prefix, "/", name.as_str());
        let depth = compute_nesting_depth(node);
        push_node_chunk(chunks, node, file_path, module, SymbolKind::Struct, depth);
    } else if str_eq(kind, "enum_item") {
        let name = field_text(&node.name, "<anon>");
        let module = concat3(module_prefix, "/", name.as_str());
        let depth = compute_nesting_depth(node);
        push_node_chunk(chunks, node, file_path, module, SymbolKind::Enum, depth);
    } else if str_eq(kind, "trait_item") {
        let name = field_text(&node.name, "<anon>");
        let module = concat3(module_prefix, "/trait ", name.as_str());
        let depth = compute_nesting_depth(node);
        push_node_chunk(chunks, node, file_path, module, SymbolKind::TraitImpl, depth);
    } else {
        extract_children(node, file_path, module_prefix, kind, chunks);
    }
}

/// Walk every child of `node`, in order, with `node`'s kind as their parent kind.
fn extract_children(
    node: &SyntaxNode,
    file_path: &str,
    module_prefix: &str,
    kind: &str,
    chunks: &mut Vec<Chunk>,
)
    requires
        kind@ == node.kind@,
    ensures
        views(final(chunks)@) == views(old(chunks)@) + extract_all(node.children@, Some(kind@), file_path@, module_prefix@),
    decreases *node, 0nat,
{
    let ghost start = views(chunks@);
    let mut i: usize = 0;
    while i < node.children.len()
        invariant
            i <= node.children@.len(),
            views(chunks@) == start + extract_all(node.children@.take(i as int), Some(kind@), file_path@, module_prefix@),
        decreases node.children@.len() - i,
    {
        proof {
            assert(decreases_to!(*node => node.children));
            assert(decreases_to!(node.children => node.children@));
            assert(decreases_to!(node.children@ => node.children@[i as int]));
        }
        let ghost before = views(chunks@);
        extract_nodes(&node.children[i], file_path, module_prefix, Some(kind), chunks);
        proof {
            let t = node.children@.take(i + 1);
            assert(t.drop_last() =~= node.children@.take(i as int));
            assert(t.last() == node.children@[i as int]);
            assert(start + extract_all(t, Some(kind@), file_path@, module_prefix@)
                =~= before + extract(node.children@[i as int], Some(kind@), file_path@, module_prefix@));
        }
        i += 1;
    }
    proof {
        assert(node.children@.take(node.children@.len() as int) =~= node.children@);
    }
}

/// Append the chunks of a parsed source file, walking its whole tree.
pub fn extract_chunks(tree: &SyntaxNode, file_path: &str, chunks: &mut Vec<Chunk>)
    ensures
        views(final(chunks)@) == views(old(chunks)@) + extract(*tree, None, file_path@, Seq::empty()),
{
    let root = String::new();
    extract_nodes(tree, file_path, root.as_str(), None, chunks);
}

// ---------------------------------------------------------------------------
// Parsing a source file
// ---------------------------------------------------------------------------

/// One node of a syntax tree as listed in preorder: its own data and the
/// number of its children (which follow it, each with its subtree).
#[derive(Debug)]
pub struct SyntaxEntry {
    /// The grammar kind of the node.
    pub kind: String,
    /// Byte offset where the node starts.
    pub start_byte: usize,
    /// Byte offset where the node ends.
    pub end_byte: usize,
    /// The source text the node spans.
    pub text: String,
    /// Text of the node's `name` field, if it has one.
    pub name: Option<String>,
    /// Text of the node's `self_type` field, if it has one.
    pub self_type: Option<String>,
    /// How many children the node has.
    pub child_count: usize,
}

/// The preorder listing of the Rust grammar's syntax tree of `content`, or
/// the message of the failure to set the grammar.
pub uninterp spec fn rust_entries_of(content: Seq<char>) -> Result<Seq<SyntaxEntry>, Seq<char>>;

/// Parses `content` with tree-sitter's Rust grammar (`Parser::set_language`
/// with `tree_sitter_rust::LANGUAGE`, then `Parser::parse`) and lists every
/// node of the tree in preorder (`TreeCursor::goto_descendant` over
/// `Node::descendant_count`). Claimed: the result is `rust_entries_of` of the
/// content, the language error's message when the grammar cannot be set;
/// once it is set a tree always comes back (`parse` gives none only without
/// a language, after a timeout or on cancellation, none of which is set
/// here); each entry's text is the content's bytes from its start to its end
/// (it is cut from the content by the node's byte range, which must lie in it).
#[verifier::external_body]
fn parse_rust_entries(content: &str) -> (r: Result<Option<Vec<SyntaxEntry>>, String>)
    ensures
        match r {
            Ok(Some(v)) => rust_entries_of(content@) == Ok::<Seq<SyntaxEntry>, Seq<char>>(v@)
                && forall|k: int| 0 <= k < v@.len() ==> #[trigger] entry_in(v@[k], content@),
            Ok(None) => false,
            Err(e) => rust_entries_of(content@) == Err::<Seq<SyntaxEntry>, Seq<char>>(e@),
        },
{
    let mut parser = TsParser::new();
    parser.set_language(&RUST_GRAMMAR.into()).map_err(|e| e.to_string())?;
    let text = |x: TsNode| content[x.byte_range()].to_string();
    Ok(parser.parse(content, None).map(|tree| {
        let mut c = tree.walk();
        (0..c.node().descendant_count()).map(|i| {
            c.goto_descendant(i);
            let n = c.node();
            SyntaxEntry { kind: n.kind().into(), start_byte: n.start_byte(), end_byte: n.end_byte(), text: text(n),
                name: n.child_by_field_name("name").map(text), self_type: n.child_by_field_name("self_type").map(text),
                child_count: n.child_count() }
        }).collect()
    }))
}

/// The text of entry `e` is the part of `content` between its byte offsets.
pub open spec fn entry_in(e: SyntaxEntry, content: Seq<char>) -> bool {
    &&& e.start_byte <= e.end_byte <= byte_len(content)
    &&& encode_utf8(e.text@) == encode_utf8(content).subrange(e.start_byte as int, e.end_byte as int)
}

/// Chunk `c` of file `path` carries a nesting depth, and the text and byte
/// offsets of one of the entries `es`.
pub open spec fn chunk_of_entry(c: ChunkView, es: Seq<SyntaxEntry>, path: Seq<char>) -> bool {
    &&& c.file_path == path
    &&& c.max_nesting_depth is Some
    &&& exists|k: int| 0 <= k < es.len() && c.text == (#[trigger] es[k]).text@
        && c.line_start == es[k].start_byte && c.line_end == es[k].end_byte
}

/// Number of nodes of a subtree.
pub open spec fn tree_size(n: SyntaxNode) -> nat
    decreases n, 1nat,
{
    1 + forest_size(n.children@)
}

/// Number of nodes of a list of subtrees.
pub open spec fn forest_size(s: Seq<SyntaxNode>) -> nat
    decreases s, 0nat,
{
    if s.len() == 0 {
        0
    } else {
        forest_size(s.drop_last()) + tree_size(s.last())
    }
}

/// Node `n` carries the data of entry `e` and as many children as it counts.
pub open spec fn entry_matches(n: SyntaxNode, e: SyntaxEntry) -> bool {
    &&& n.kind == e.kind
    &&& n.start_byte == e.start_byte
    &&& n.end_byte == e.end_byte
    &&& n.text == e.text
    &&& n.name == e.name
    &&& n.self_type == e.self_type
    &&& n.children@.len() == e.child_count
}

/// `n` is the subtree whose preorder listing starts at entry `i` of `es`.
pub open spec fn listed_at(n: SyntaxNode, es: Seq<SyntaxEntry>, i: int) -> bool
    decreases n, 1nat,
{
    &&& 0 <= i < es.len()
    &&& entry_matches(n, es[i])
    &&& forest_listed_at(n.children@, es, i + 1)
}

/// The subtrees `s` are listed one after another from entry `i` of `es`.
pub open spec fn forest_listed_at(s: Seq<SyntaxNode>, es: Seq<SyntaxEntry>, i: int) -> bool
    decreases s, 0nat,
{
    if s.len() == 0 {
        true
    } else {
        forest_listed_at(s.drop_last(), es, i) && listed_at(s.last(), es, i + forest_size(s.drop_last()))
    }
}

/// Two subtrees listed from the same entry have the same size.
proof fn lemma_listed_same_size(n1: SyntaxNode, n2: SyntaxNode, es: Seq<SyntaxEntry>, i: int)
    requires
        listed_at(n1, es, i),
        listed_at(n2, es, i),
    ensures
        tree_size(n1) == tree_size(n2),
    decreases n1, 1nat,
{
    lemma_forests_same_size(n1.children@, n2.children@, es, i + 1);
}

/// Two lists of subtrees of one length listed from the same entry have the
/// same size.
proof fn lemma_forests_same_size(s1: Seq<SyntaxNode>, s2: Seq<SyntaxNode>, es: Seq<SyntaxEntry>, i: int)
    requires
        s1.len() == s2.len(),
        forest_listed_at(s1, es, i),
        forest_listed_at(s2, es, i),
    ensures
        forest_size(s1) == forest_size(s2),
    decreases s1, 0nat,
{
    if s1.len() > 0 {
        lemma_forests_same_size(s1.drop_last(), s2.drop_last(), es, i);
        lemma_listed_same_size(s1.last(), s2.last(), es, i + forest_size(s1.drop_last()));
    }
}

/// The first `m` of a listed run of subtrees are listed too.
proof fn lemma_forest_prefix_listed(s: Seq<SyntaxNode>, es: Seq<SyntaxEntry>, i: int, m: int)
    requires
        0 <= m <= s.len(),
        forest_listed_at(s, es, i),
    ensures
        forest_listed_at(s.take(m), es, i),
    decreases s.len(),
{
    if m < s.len() {
        assert(s.drop_last().take(m) =~= s.take(m));
        lemma_forest_prefix_listed(s.drop_last(), es, i, m);
    } else {
        assert(s.take(m) =~= s);
    }
}

/// The subtree listed from entry `pos` of `es` on, with the position after
/// its listing, or `None` when the entries from `pos` list no complete tree.
fn build_tree(es: &Vec<SyntaxEntry>, pos: usize) -> (r: Option<(SyntaxNode, usize)>)
    ensures
        match r {
            Some((n, e)) => listed_at(n, es@, pos as int) && e == pos + tree_size(n) && e <= es@.len(),
            None => forall|n: SyntaxNode| !#[trigger] listed_at(n, es@, pos as int),
        },
    decreases es@.len() - pos,
{
    if pos >= es.len() {
        return None;
    }
    let count = es[pos].child_count;
    let mut children: Vec<SyntaxNode> = Vec::new();
    let mut next = pos + 1;
    let mut k: usize = 0;
    while k < count
        invariant
            pos < es@.len(),
            count == es@[pos as int].child_count,
            pos < next <= es@.len(),
            k <= count,
            children@.len() == k,
            forest_listed_at(children@, es@, pos + 1),
            next == pos + 1 + forest_size(children@),
        decreases count - k,
    {
        match build_tree(es, next) {
            Some((c, e)) => {
                let ghost before = children@;
                children.push(c);
                proof {
                    assert(children@.drop_last() =~= before);
                    assert(children@.last() == c);
                }
                next = e;
            },
            None => {
                proof {
                    assert forall|n: SyntaxNode| !#[trigger] listed_at(n, es@, pos as int) by {
                        if listed_at(n, es@, pos as int) {
                            lemma_forest_prefix_listed(n.children@, es@, pos + 1, k + 1);
                            let p = n.children@.take(k + 1);
                            assert(p.drop_last() =~= n.children@.take(k as int));
                            assert(p.last() == n.children@[k as int]);
                            lemma_forests_same_size(p.drop_last(), children@, es@, pos + 1);
                            assert(listed_at(n.children@[k as int], es@, next as int));
                        }
                    }
                }
                return None;
            },
        }
        k += 1;
    }
    let e = &es[pos];
    let name = match &e.name { Some(s) => Some(s.clone()), None => None };
    let self_type = match &e.self_type { Some(s) => Some(s.clone()), None => None };
    let n = SyntaxNode {
        kind: e.kind.clone(),
        start_byte: e.start_byte,
        end_byte: e.end_byte,
        text: e.text.clone(),
        name,
        self_type,
        children,
    };
    proof {
        assert(n.children@ == children@);
    }
    Some((n, next))
}

/// Every chunk extracted from a subtree listed by `es` carries the text and
/// byte offsets of one of the entries, its file, and a nesting depth.
proof fn lemma_listed_chunks(n: SyntaxNode, es: Seq<SyntaxEntry>, i: int, parent: Option<Seq<char>>, path: Seq<char>, prefix: Seq<char>)
    requires
        listed_at(n, es, i),
    ensures
        forall|x: int| 0 <= x < extract(n, parent, path, prefix).len() ==>
            chunk_of_entry(#[trigger] extract(n, parent, path, prefix)[x], es, path),
    decreases n, 1nat,
{
    let k = n.kind@;
    let name = field_or(n.name, "<anon>"@);
    let own = k == "macro_definition"@ || (!is_atomic(k) && (k == "function_item"@ || k == "impl_item"@
        || k == "unsafe_block"@));
    let after_mod = !own && !is_atomic(k) && k != "mod_item"@ && (k == "struct_item"@ || k == "union_item"@
        || k == "enum_item"@ || k == "trait_item"@);
    if own || after_mod {
        assert forall|x: int| 0 <= x < extract(n, parent, path, prefix).len() implies
            chunk_of_entry(#[trigger] extract(n, parent, path, prefix)[x], es, path) by {
            assert(es[i].text@ == n.text@);
        }
    } else if is_atomic(k) {
        assert(extract(n, parent, path, prefix).len() == 0);
    } else if k == "mod_item"@ {
        lemma_forest_chunks(n.children@, es, i + 1, Some(k), path, module_prefix_in(prefix, name));
        assert(extract(n, parent, path, prefix) == extract_all(n.children@, Some(k), path, module_prefix_in(prefix, name)));
    } else {
        lemma_forest_chunks(n.children@, es, i + 1, Some(k), path, prefix);
        assert(extract(n, parent, path, prefix) == extract_all(n.children@, Some(k), path, prefix));
    }
}

/// Every chunk extracted from subtrees listed by `es` one after another
/// carries the text and byte offsets of one of the entries, its file, and a
/// nesting depth.
proof fn lemma_forest_chunks(s: Seq<SyntaxNode>, es: Seq<SyntaxEntry>, i: int, parent: Option<Seq<char>>, path: Seq<char>, prefix: Seq<char>)
    requires
        forest_listed_at(s, es, i),
    ensures
        forall|x: int| 0 <= x < extract_all(s, parent, path, prefix).len() ==>
            chunk_of_entry(#[trigger] extract_all(s, parent, path, prefix)[x], es, path),
    decreases s, 0nat,
{
    if s.len() > 0 {
        let a = extract_all(s.drop_last(), parent, path, prefix);
        let b = extract(s.last(), parent, path, prefix);
        lemma_forest_chunks(s.drop_last(), es, i, parent, path, prefix);
        lemma_listed_chunks(s.last(), es, i + forest_size(s.drop_last()), parent, path, prefix);
        assert forall|x: int| 0 <= x < extract_all(s, parent, path, prefix).len() implies
            chunk_of_entry(#[trigger] extract_all(s, parent, path, prefix)[x], es, path) by {
            if x < a.len() {
                assert(extract_all(s, parent, path, prefix)[x] == a[x]);
            } else {
                assert(extract_all(s, parent, path, prefix)[x] == b[x - a.len()]);
            }
        }
    }
}

/// Every chunk that parsing a file appends lies in the file: its offsets
/// bound a part of the content, its text is that part, and it names the file
/// and carries a nesting depth.
pub open spec fn chunk_in_file(c: ChunkView, content: Seq<char>, path: Seq<char>) -> bool {
    &&& c.file_path == path
    &&& c.max_nesting_depth is Some
    &&& c.line_start <= c.line_end <= byte_len(content)
    &&& encode_utf8(c.text) == encode_utf8(content).subrange(c.line_start as int, c.line_end as int)
}

/// The parser lists a complete syntax tree for `content`.
pub open spec fn parses_to_tree(content: Seq<char>) -> bool {
    &&& rust_entries_of(content) is Ok
    &&& exists|t: SyntaxNode| #[trigger] listed_at(t, rust_entries_of(content)->Ok_0, 0)
}

/// Parses a Rust source file and appends its chunks. When the parser gives
/// no tree, or its listing holds no complete tree, the chunks are left
/// unchanged and the error names the file.
pub fn parse_and_extract(content: &str, file_path: &str, chunks: &mut Vec<Chunk>) -> (r: Result<(), RagCoreError>)
    ensures
        r is Ok <==> parses_to_tree(content@),
        r is Ok ==> exists|es: Seq<SyntaxEntry>, t: SyntaxNode| {
            &&& rust_entries_of(content@) == Ok::<Seq<SyntaxEntry>, Seq<char>>(es)
            &&& #[trigger] listed_at(t, es, 0)
            &&& views(final(chunks)@) == views(old(chunks)@) + extract(t, None, file_path@, Seq::empty())
        },
        r is Ok ==> forall|x: int| old(chunks)@.len() <= x < final(chunks)@.len() ==>
            chunk_in_file(#[trigger] views(final(chunks)@)[x], content@, file_path@),
        r is Err ==> final(chunks)@ == old(chunks)@,
        r matches Err(e) ==> e matches RagCoreError::ParseError(p, _) && p@ == file_path@,
        rust_entries_of(content@) matches Err(m) ==>
            (r matches Err(RagCoreError::ParseError(_, msg)) && msg@ == "setting language: "@ + m),
{
    match parse_rust_entries(content) {
        Ok(Some(es)) => match build_tree(&es, 0) {
            Some((tree, _)) => {
                extract_chunks(&tree, file_path, chunks);
                proof {
                    assert(rust_entries_of(content@) == Ok::<Seq<SyntaxEntry>, Seq<char>>(es@));
                    assert(listed_at(tree, es@, 0));
                    assert(views(chunks@) == views(old(chunks)@) + extract(tree, None, file_path@, Seq::empty()));
                    lemma_listed_chunks(tree, es@, 0, None, file_path@, Seq::empty());
                    let ext = extract(tree, None, file_path@, Seq::empty());
                    assert forall|x: int| old(chunks)@.len() <= x < chunks@.len() implies
                        chunk_in_file(#[trigger] views(chunks@)[x], content@, file_path@) by {
                        assert(views(chunks@)[x] == ext[x - old(chunks)@.len()]);
                        assert(chunk_of_entry(ext[x - old(chunks)@.len()], es@, file_path@));
                        let k = choose|k: int| 0 <= k < es@.len() && ext[x - old(chunks)@.len()].text == (#[trigger] es@[k]).text@
                            && ext[x - old(chunks)@.len()].line_start == es@[k].start_byte && ext[x - old(chunks)@.len()].line_end == es@[k].end_byte;
                        assert(entry_in(es@[k], content@));
                    }
                    assert(rust_entries_of(content@)->Ok_0 == es@);
                    assert(listed_at(tree, rust_entries_of(content@)->Ok_0, 0));
                    assert(parses_to_tree(content@));
                }
                Ok(())
            },
            None => {
                proof {
                    assert(rust_entries_of(content@) == Ok::<Seq<SyntaxEntry>, Seq<char>>(es@));
                    assert(!parses_to_tree(content@));
                }
                Err(RagCoreError::ParseError(file_path.to_owned(), "tree-sitter parse failed (unreachable)".to_owned()))
            },
        },
        Ok(None) => Err(RagCoreError::ParseError(file_path.to_owned(), "tree-sitter parse failed (unreachable)".to_owned())),
        Err(e) => Err(RagCoreError::ParseError(file_path.to_owned(), concat2("setting language: ", e.as_str()))),
    }
}

} // verus!
