//! Call graph of indexed chunks: one node per chunk key, one edge per call
//! from a function or impl block to the node whose symbol the callee names.
use vstd::prelude::*;
use crate::text::{chars_of, decimal, decimal_string, str_eq, string_of, trim_chars, trimmed};
use crate::indexer::{Chunk, ChunkView, SymbolKind, kind_display_name, views};
use crate::error::RagCoreError;
use ra_ap_syntax::{ast::AstNode, Edition, SourceFile};

verus! {

/// A node in the call graph: a symbol (function, method, ...).
#[derive(Debug)]
pub struct Symbol {
    /// Display name of the symbol.
    pub name: String,
    /// Source file path where this symbol is defined.
    pub file_path: String,
}

// ---------------------------------------------------------------------------
// The graph
// ---------------------------------------------------------------------------

#[verifier::external_type_specification]
#[verifier::external_body]
#[verifier::reject_recursive_types(N)]
#[verifier::reject_recursive_types(E)]
#[verifier::reject_recursive_types(Ty)]
#[verifier::reject_recursive_types(Ix)]
pub struct ExGraph<N, E, Ty, Ix>(petgraph::graph::Graph<N, E, Ty, Ix>);

#[verifier::external_type_specification]
#[verifier::external_body]
pub struct ExDirected(petgraph::Directed);

/// The weight of a call edge (one call).
pub const CALL_WEIGHT: u32 = 1;

/// The graph type of the call graph: symbols as nodes, directed edges of
/// weight 1, indices of type `usize` (so that no count can overflow them).
pub type SymbolGraph = petgraph::graph::Graph<Symbol, u32, petgraph::Directed, usize>;

/// The nodes of a graph, in index order: each symbol's name and file.
pub uninterp spec fn graph_nodes(g: SymbolGraph) -> Seq<(Seq<char>, Seq<char>)>;

/// The edges of a graph, in index order: each edge's source and target.
pub uninterp spec fn graph_edges(g: SymbolGraph) -> Seq<(usize, usize)>;

/// `Graph::with_capacity(0, 0)`: a graph with no node and no edge.
#[verifier::external_body]
fn graph_new() -> (g: SymbolGraph)
    ensures
        graph_nodes(g) == Seq::<(Seq<char>, Seq<char>)>::empty(),
        graph_edges(g) == Seq::<(usize, usize)>::empty(),
{
    petgraph::graph::Graph::with_capacity(0, 0)
}

/// `Graph::add_node`: the symbol becomes the last node, whose index is
/// returned; the edges stay as they were.
#[verifier::external_body]
fn graph_add_node(g: &mut SymbolGraph, s: Symbol) -> (i: usize)
    ensures
        graph_nodes(*final(g)) == graph_nodes(*old(g)).push((s.name@, s.file_path@)),
        graph_edges(*final(g)) == graph_edges(*old(g)),
        i == graph_nodes(*old(g)).len(),
{
    g.add_node(s).index()
}

/// `Graph::add_edge` with the given weight: the edge from `a` to `b` becomes the
/// last edge; the nodes stay as they were. Both nodes must exist (the call
/// panics otherwise).
#[verifier::external_body]
fn graph_add_edge(g: &mut SymbolGraph, a: usize, b: usize, weight: u32)
    requires
        a < graph_nodes(*old(g)).len(),
        b < graph_nodes(*old(g)).len(),
    ensures
        graph_nodes(*final(g)) == graph_nodes(*old(g)),
        graph_edges(*final(g)) == graph_edges(*old(g)).push((a, b)),
{
    g.add_edge(petgraph::graph::NodeIndex::new(a), petgraph::graph::NodeIndex::new(b), weight);
}

/// The file stem of a path: its last component without the extension
/// (`Path::file_stem`).
pub uninterp spec fn file_stem_of(path: Seq<char>) -> Option<Seq<char>>;

/// `Path::file_stem`, converted lossily to a string: the result is the
/// named stem of the argument.
#[verifier::external_body]
fn path_file_stem(path: &str) -> (r: Option<String>)
    ensures
        match r {
            Some(s) => file_stem_of(path@) == Some(s@),
            None => file_stem_of(path@) is None,
        },
{
    std::path::Path::new(path).file_stem().map(|s| s.to_string_lossy().to_string())
}

/// The name used for a path without a file stem.
pub open spec fn unknown_stem() -> Seq<char> {
    seq!['u', 'n', 'k', 'n', 'o', 'w', 'n']
}

/// The file stem of `path`, or `"unknown"` when it has none.
pub fn file_stem(path: &str) -> (r: String)
    ensures
        r@ == match file_stem_of(path@) {
            Some(s) => s,
            None => unknown_stem(),
        },
{
    match path_file_stem(path) {
        Some(s) => s,
        None => {
            let v: Vec<char> = vec!['u', 'n', 'k', 'n', 'o', 'w', 'n'];
            proof {
                assert(v@ =~= unknown_stem());
            }
            string_of(v.as_slice())
        },
    }
}

/// Callee texts that name no function: literals, `self`, `Self`, `super`, `_` and nothing.
pub open spec fn trivial_name(s: Seq<char>) -> bool {
    ||| s == "true"@
    ||| s == "false"@
    ||| s == "self"@
    ||| s == "Self"@
    ||| s == "super"@
    ||| s == "_"@
    ||| s == ""@
}

/// Whether a callee text, trimmed, names no function.
pub fn is_trivial_call(name: &str) -> (r: bool)
    ensures
        r == trivial_name(trimmed(name@)),
{
    let chars = chars_of(name);
    let t = string_of(trim_chars(&chars).as_slice());
    let s = t.as_str();
    str_eq(s, "true") || str_eq(s, "false") || str_eq(s, "self") || str_eq(s, "Self")
        || str_eq(s, "super") || str_eq(s, "_") || str_eq(s, "")
}

/// The callee texts of the call expressions of a Rust text, in syntax-tree
/// order, as `ra_ap_syntax` parses it.
pub uninterp spec fn call_exprs_of(text: Seq<char>) -> Seq<Seq<char>>;

/// Parses `text` with `ra_ap_syntax` (`SourceFile::parse`, edition 2021)
/// and lists the text of the callee of each `CallExpr` that has one, in
/// the order of `descendants()`: the result is the named list of the
/// argument.
#[verifier::external_body]
fn call_expr_texts(text: &str) -> (r: Vec<String>)
    ensures
        r@.map_values(|s: String| s@) == call_exprs_of(text@),
{
    let root = SourceFile::parse(text, Edition::Edition2021).tree();
    root.syntax()
        .descendants()
        .filter_map(ra_ap_syntax::ast::CallExpr::cast)
        .filter_map(|call| call.expr())
        .map(|callee| callee.to_string())
        .collect()
}

/// The distinct non-trivial callees of a list of callee texts, each at its
/// first occurrence.
pub open spec fn callees(names: Seq<Seq<char>>) -> Seq<Seq<char>>
    decreases names.len(),
{
    if names.len() == 0 {
        seq![]
    } else {
        let rest = callees(names.drop_last());
        let n = names.last();
        if !trivial_name(trimmed(n)) && !rest.contains(n) { rest.push(n) } else { rest }
    }
}

/// The strings of a list, as character sequences.
pub open spec fn texts(v: Seq<String>) -> Seq<Seq<char>> {
    v.map_values(|s: String| s@)
}

/// Whether `name` is among `v`.
fn contains_text(v: &Vec<String>, name: &String) -> (r: bool)
    ensures
        r == texts(v@).contains(name@),
{
    let mut i: usize = 0;
    while i < v.len()
        invariant
            i <= v@.len(),
            forall|k: int| 0 <= k < i ==> v@[k]@ != name@,
        decreases v@.len() - i,
    {
        if v[i] == *name {
            proof {
                assert(texts(v@)[i as int] == name@);
            }
            return true;
        }
        i += 1;
    }
    proof {
        if texts(v@).contains(name@) {
            let k = choose|k: int| 0 <= k < texts(v@).len() && texts(v@)[k] == name@;
            assert(v@[k]@ == name@);
        }
    }
    false
}

/// The distinct functions that `text` calls, in order of first call;
/// trivial callees (`self`, literals, ...) are left out.
pub fn parse_call_exprs(text: &str) -> (r: Vec<String>)
    ensures
        texts(r@) == callees(call_exprs_of(text@)),
        texts(r@).no_duplicates(),
        forall|x: Seq<char>| #[trigger] texts(r@).contains(x)
            <==> (call_exprs_of(text@).contains(x) && !trivial_name(trimmed(x))),
{
    let names = call_expr_texts(text);
    let ghost ns = texts(names@);
    let mut out: Vec<String> = Vec::new();
    let mut i: usize = 0;
    while i < names.len()
        invariant
            ns == texts(names@),
            i <= names@.len(),
            texts(out@) == callees(ns.take(i as int)),
        decreases names@.len() - i,
    {
        proof {
            assert(ns.take(i + 1).drop_last() =~= ns.take(i as int));
            assert(ns.take(i + 1).last() == names@[i as int]@);
        }
        if !is_trivial_call(names[i].as_str()) && !contains_text(&out, &names[i]) {
            let ghost before = out@;
            out.push(names[i].clone());
            proof {
                assert(texts(out@) =~= texts(before).push(names@[i as int]@));
            }
        }
        i += 1;
    }
    proof {
        assert(ns.take(ns.len() as int) =~= ns);
        lemma_callees_distinct_calls(ns);
    }
    out
}

/// The callees of a list of callee texts name each function once: no text
/// occurs twice among them, and a text is among them exactly when some
/// callee text is that text and is not trivial.
pub proof fn lemma_callees_distinct_calls(names: Seq<Seq<char>>)
    ensures
        callees(names).no_duplicates(),
        forall|x: Seq<char>| #[trigger] callees(names).contains(x) <==> (names.contains(x) && !trivial_name(trimmed(x))),
    decreases names.len(),
{
    if names.len() > 0 {
        let d = names.drop_last();
        let n = names.last();
        let rest = callees(d);
        lemma_callees_distinct_calls(d);
        assert(names[names.len() - 1] == n);
        assert forall|x: Seq<char>| #[trigger] names.contains(x) <==> (d.contains(x) || x == n) by {
            if names.contains(x) {
                let k = choose|k: int| 0 <= k < names.len() && names[k] == x;
                if k < d.len() {
                    assert(d[k] == x);
                }
            }
            if d.contains(x) {
                let k = choose|k: int| 0 <= k < d.len() && d[k] == x;
                assert(names[k] == x);
            }
        }
        if !trivial_name(trimmed(n)) && !rest.contains(n) {
            let r = rest.push(n);
            assert forall|x: Seq<char>| #[trigger] r.contains(x) <==> (rest.contains(x) || x == n) by {
                if r.contains(x) {
                    let k = choose|k: int| 0 <= k < r.len() && r[k] == x;
                    if k < rest.len() {
                        assert(rest[k] == x);
                    }
                }
                if rest.contains(x) {
                    let k = choose|k: int| 0 <= k < rest.len() && rest[k] == x;
                    assert(r[k] == x);
                }
                assert(r[rest.len() as int] == n);
            }
            assert forall|a: int, b: int| 0 <= a < r.len() && 0 <= b < r.len() && a != b implies r[a] != r[b] by {
                if a < rest.len() && b < rest.len() {
                    assert(r[a] == rest[a] && r[b] == rest[b]);
                } else if a < rest.len() {
                    assert(r[a] == rest[a]);
                } else {
                    assert(r[b] == rest[b]);
                }
            }
        }
    }
}

/// The node key of a chunk: file stem, start, module name and kind, joined by `:`.
pub open spec fn node_key(c: ChunkView) -> Seq<char> {
    let stem = match file_stem_of(c.file_path) {
        Some(s) => s,
        None => unknown_stem(),
    };
    stem + seq![':'] + decimal(c.line_start as nat) + seq![':'] + c.module_name + seq![':']
        + kind_display_name(c.symbol_kind)
}

/// Appends the characters of `s`.
fn push_str(v: &mut Vec<char>, s: &str)
    ensures
        final(v)@ == old(v)@ + s@,
{
    let mut c = chars_of(s);
    v.append(&mut c);
}

/// The node key of chunk `c`.
pub fn chunk_key(c: &Chunk) -> (k: String)
    ensures
        k@ == node_key(c@),
{
    let mut v: Vec<char> = Vec::new();
    push_str(&mut v, file_stem(c.file_path.as_str()).as_str());
    v.push(':');
    push_str(&mut v, decimal_string(c.line_start).as_str());
    v.push(':');
    push_str(&mut v, c.module_name.as_str());
    v.push(':');
    push_str(&mut v, c.symbol_kind_name());
    proof {
        assert(v@ =~= node_key(c@));
    }
    string_of(v.as_slice())
}

/// The distinct node keys of the chunks, in order of first occurrence.
pub open spec fn distinct_keys(cs: Seq<ChunkView>) -> Seq<Seq<char>>
    decreases cs.len(),
{
    if cs.len() == 0 {
        seq![]
    } else {
        let rest = distinct_keys(cs.drop_last());
        let k = node_key(cs.last());
        if rest.contains(k) { rest } else { rest.push(k) }
    }
}

/// The chunk that first has each distinct key.
pub open spec fn key_owner(cs: Seq<ChunkView>, k: Seq<char>) -> int {
    choose|i: int| 0 <= i < cs.len() && node_key(cs[i]) == k && forall|j: int| 0 <= j < i ==> node_key(#[trigger] cs[j]) != k
}

/// Chunks of functions and impl blocks are the callers of the graph.
pub open spec fn is_caller(c: ChunkView) -> bool {
    c.symbol_kind == SymbolKind::Function || c.symbol_kind == SymbolKind::ImplBlock
}

/// The callers' keys with their callees, one entry per key (the last
/// chunk with that key wins, the entry stays where the key first had one).
pub open spec fn call_table(cs: Seq<ChunkView>) -> Seq<(Seq<char>, Seq<Seq<char>>)>
    decreases cs.len(),
{
    if cs.len() == 0 {
        seq![]
    } else {
        let rest = call_table(cs.drop_last());
        let c = cs.last();
        let calls = callees(call_exprs_of(c.text));
        if !is_caller(c) || calls.len() == 0 {
            rest
        } else {
            let k = node_key(c);
            if exists|e: int| 0 <= e < rest.len() && (#[trigger] rest[e]).0 == k {
                let e = choose|e: int| 0 <= e < rest.len() && (#[trigger] rest[e]).0 == k;
                rest.update(e, (k, calls))
            } else {
                rest.push((k, calls))
            }
        }
    }
}

/// The nodes of the chunks: for each distinct key, in order of first
/// occurrence, the key with the module name and file of its first chunk.
pub open spec fn node_table(cs: Seq<ChunkView>) -> Seq<(Seq<char>, Seq<char>, Seq<char>)>
    decreases cs.len(),
{
    if cs.len() == 0 {
        seq![]
    } else {
        let rest = node_table(cs.drop_last());
        let c = cs.last();
        let k = node_key(c);
        if exists|e: int| 0 <= e < rest.len() && (#[trigger] rest[e]).0 == k {
            rest
        } else {
            rest.push((k, c.module_name, c.file_path))
        }
    }
}

/// The first position of `k` in `keys` (`keys.len()` when absent).
pub open spec fn position(keys: Seq<Seq<char>>, k: Seq<char>) -> int
    decreases keys.len(),
{
    if keys.len() == 0 {
        0
    } else if keys[0] == k {
        0
    } else {
        1 + position(keys.drop_first(), k)
    }
}

/// The text of `s` after its last `c` (all of `s` when it has none).
pub open spec fn after_last(s: Seq<char>, c: char) -> Seq<char>
    decreases s.len(),
{
    if s.len() == 0 {
        s
    } else if s.last() == c {
        seq![]
    } else {
        after_last(s.drop_last(), c).push(s.last())
    }
}

/// The symbol a callee names: the last segment of its path (`helper` for
/// `crate::util::helper`, `new` for `Self::new`).
pub open spec fn callee_symbol(callee: Seq<char>) -> Seq<char> {
    after_last(callee, ':')
}

/// The symbol of a node: the last segment of its module name (`helper` for
/// `lib/helper`).
pub open spec fn node_symbol(module_name: Seq<char>) -> Seq<char> {
    after_last(module_name, '/')
}

/// Edges from node `from` to the first node named by each callee's symbol,
/// in order; a callee that names no node gives no edge.
pub open spec fn edges_to(from: int, tos: Seq<Seq<char>>, names: Seq<Seq<char>>) -> Seq<(usize, usize)>
    decreases tos.len(),
{
    if tos.len() == 0 {
        seq![]
    } else {
        let rest = edges_to(from, tos.drop_last(), names);
        let t = callee_symbol(tos.last());
        if names.contains(t) { rest.push((from as usize, position(names, t) as usize)) } else { rest }
    }
}

/// The edges of every caller that is a node (found by its key), in the
/// order of the table; callees are matched to nodes by symbol name.
pub open spec fn all_edges(
    table: Seq<(Seq<char>, Seq<Seq<char>>)>,
    keys: Seq<Seq<char>>,
    names: Seq<Seq<char>>,
) -> Seq<(usize, usize)>
    decreases table.len(),
{
    if table.len() == 0 {
        seq![]
    } else {
        let rest = all_edges(table.drop_last(), keys, names);
        let f = table.last().0;
        if keys.contains(f) { rest + edges_to(position(keys, f), table.last().1, names) } else { rest }
    }
}

/// The keys of a node table.
pub open spec fn table_keys(t: Seq<(Seq<char>, Seq<char>, Seq<char>)>) -> Seq<Seq<char>> {
    t.map_values(|e: (Seq<char>, Seq<char>, Seq<char>)| e.0)
}

/// The symbol names of a node table's nodes.
pub open spec fn table_names(t: Seq<(Seq<char>, Seq<char>, Seq<char>)>) -> Seq<Seq<char>> {
    t.map_values(|e: (Seq<char>, Seq<char>, Seq<char>)| node_symbol(e.1))
}

/// The text of `s` after its last `c` (see [`after_last`]).
pub fn text_after_last(s: &str, c: char) -> (r: String)
    ensures
        r@ == after_last(s@, c),
{
    let v = chars_of(s);
    let mut cur: Vec<char> = Vec::new();
    let mut i: usize = 0;
    while i < v.len()
        invariant
            v@ == s@,
            i <= v@.len(),
            cur@ == after_last(v@.take(i as int), c),
        decreases v@.len() - i,
    {
        proof {
            assert(v@.take(i + 1).drop_last() =~= v@.take(i as int));
            assert(v@.take(i + 1).last() == v@[i as int]);
        }
        if v[i] == c {
            cur = Vec::new();
            proof {
                assert(cur@ =~= Seq::<char>::empty());
            }
        } else {
            cur.push(v[i]);
        }
        i += 1;
    }
    proof {
        assert(v@.take(v@.len() as int) =~= v@);
    }
    string_of(cur.as_slice())
}

/// The (name, file) of each node of a node table.
pub open spec fn table_symbols(t: Seq<(Seq<char>, Seq<char>, Seq<char>)>) -> Seq<(Seq<char>, Seq<char>)> {
    t.map_values(|e: (Seq<char>, Seq<char>, Seq<char>)| (e.1, e.2))
}

/// The position of `k` among `v`, if it is there.
fn find_text(v: &Vec<String>, k: &String) -> (r: Option<usize>)
    ensures
        match r {
            Some(i) => i < v@.len() && v@[i as int]@ == k@ && texts(v@).contains(k@)
                && i == position(texts(v@), k@),
            None => !texts(v@).contains(k@),
        },
{
    let ghost t = texts(v@);
    let mut i: usize = 0;
    proof {
        assert(t.skip(0) =~= t);
    }
    while i < v.len()
        invariant
            t == texts(v@),
            i <= v@.len(),
            forall|j: int| 0 <= j < i ==> v@[j]@ != k@,
            position(t, k@) == i + position(t.skip(i as int), k@),
        decreases v@.len() - i,
    {
        proof {
            assert(t.skip(i as int)[0] == v@[i as int]@);
            assert(t.skip(i as int).drop_first() =~= t.skip(i + 1));
        }
        if v[i] == *k {
            proof {
                assert(t[i as int] == k@);
            }
            return Some(i);
        }
        i += 1;
    }
    proof {
        if t.contains(k@) {
            let j = choose|j: int| 0 <= j < t.len() && t[j] == k@;
            assert(v@[j]@ == k@);
        }
    }
    None
}

/// Builds the call graph of the chunks: one node per distinct chunk key
/// (named by the module of its first chunk), and an edge from each
/// function or impl block to the first node whose symbol each of its
/// callees names.
pub fn build_call_graph(chunks: &Vec<Chunk>) -> (r: Result<(SymbolGraph, Vec<String>), RagCoreError>)
    ensures
        r matches Ok((g, keys)) && {
            let nt = node_table(views(chunks@));
            &&& graph_nodes(g) == table_symbols(nt)
            &&& texts(keys@) == table_keys(nt)
            &&& graph_edges(g) == all_edges(call_table(views(chunks@)), table_keys(nt), table_names(nt))
        },
{
    let ghost cs = views(chunks@);
    let mut nodes: Vec<Symbol> = Vec::new();
    let mut keys: Vec<String> = Vec::new();
    let mut i: usize = 0;
    while i < chunks.len()
        invariant
            cs == views(chunks@),
            i <= chunks@.len(),
            keys@.len() == nodes@.len(),
            Seq::new(keys@.len(), |j: int| (keys@[j]@, nodes@[j].name@, nodes@[j].file_path@))
                == node_table(cs.take(i as int)),
        decreases chunks@.len() - i,
    {
        let ghost pre = cs.take(i as int);
        let ghost tbl = node_table(pre);
        proof {
            assert(cs.take(i + 1).drop_last() =~= pre);
            assert(cs.take(i + 1).last() == chunks@[i as int]@);
        }
        let key = chunk_key(&chunks[i]);
        match find_text(&keys, &key) {
            Some(p) => {
                proof {
                    assert(Seq::new(keys@.len(), |j: int| (keys@[j]@, nodes@[j].name@, nodes@[j].file_path@))[p as int]
                        == tbl[p as int]);
                    assert(tbl[p as int].0 == key@);
                }
            },
            None => {
                proof {
                    assert forall|e: int| 0 <= e < tbl.len() implies (#[trigger] tbl[e]).0 != key@ by {
                        assert(texts(keys@)[e] == tbl[e].0);
                    }
                }
                let ghost kb = keys@;
                let ghost nb = nodes@;
                keys.push(key);
                nodes.push(Symbol { name: chunks[i].module_name.clone(), file_path: chunks[i].file_path.clone() });
                proof {
                    assert(Seq::new(keys@.len(), |j: int| (keys@[j]@, nodes@[j].name@, nodes@[j].file_path@))
                        =~= tbl.push((key@, chunks@[i as int].module_name@, chunks@[i as int].file_path@)));
                }
            },
        }
        i += 1;
    }
    proof {
        assert(cs.take(cs.len() as int) =~= cs);
    }
    let ghost nt = node_table(cs);
    proof {
        assert(texts(keys@) =~= table_keys(nt));
    }
    let mut names: Vec<String> = Vec::new();
    let mut n: usize = 0;
    while n < nodes.len()
        invariant
            n <= nodes@.len(),
            names@.len() == n,
            forall|j: int| 0 <= j < n ==> #[trigger] names@[j]@ == node_symbol(nodes@[j].name@),
        decreases nodes@.len() - n,
    {
        names.push(text_after_last(nodes[n].name.as_str(), '/'));
        n += 1;
    }
    proof {
        assert(Seq::new(keys@.len(), |j: int| (keys@[j]@, nodes@[j].name@, nodes@[j].file_path@)) == nt);
        assert forall|j: int| 0 <= j < nt.len() implies nt[j].1 == nodes@[j].name@ by {
            assert(Seq::new(keys@.len(), |j: int| (keys@[j]@, nodes@[j].name@, nodes@[j].file_path@))[j] == nt[j]);
        }
        assert(texts(names@) =~= table_names(nt));
    }
    let table = extract_call_edges(chunks);
    let mut edges: Vec<(usize, usize)> = Vec::new();
    let mut t: usize = 0;
    while t < table.len()
        invariant
            texts(keys@) == table_keys(nt),
            texts(names@) == table_names(nt),
            table_view(table@) == call_table(cs),
            t <= table@.len(),
            edges@ == all_edges(table_view(table@).take(t as int), texts(keys@), texts(names@)),
        decreases table@.len() - t,
    {
        let ghost tv = table_view(table@);
        proof {
            assert(tv.take(t + 1).drop_last() =~= tv.take(t as int));
            assert(tv.take(t + 1).last() == tv[t as int]);
        }
        match find_text(&keys, &table[t].0) {
            Some(from) => {
                let tos = &table[t].1;
                let ghost before = edges@;
                let mut u: usize = 0;
                while u < tos.len()
                    invariant
                        t < table@.len(),
                        tos@ == table@[t as int].1@,
                        u <= tos@.len(),
                        edges@ == before + edges_to(from as int, texts(tos@).take(u as int), texts(names@)),
                    decreases tos@.len() - u,
                {
                    proof {
                        assert(texts(tos@).take(u + 1).drop_last() =~= texts(tos@).take(u as int));
                        assert(texts(tos@).take(u + 1).last() == tos@[u as int]@);
                    }
                    let sym = text_after_last(tos[u].as_str(), ':');
                    match find_text(&names, &sym) {
                        Some(to) => {
                            edges.push((from, to));
                        },
                        None => {},
                    }
                    u += 1;
                }
                proof {
                    assert(texts(tos@).take(tos@.len() as int) =~= texts(tos@));
                    assert(tv[t as int].1 == texts(tos@));
                }
            },
            None => {},
        }
        t += 1;
    }
    proof {
        assert(table_view(table@).take(table@.len() as int) =~= table_view(table@));
        assert(Seq::new(keys@.len(), |j: int| (keys@[j]@, nodes@[j].name@, nodes@[j].file_path@)) == nt);
        lemma_edges_join_nodes(call_table(cs), table_keys(nt), table_names(nt));
    }
    let mut g = graph_new();
    let mut k: usize = 0;
    while k < nodes.len()
        invariant
            k <= nodes@.len(),
            nodes@.len() == nt.len(),
            graph_edges(g) == Seq::<(usize, usize)>::empty(),
            graph_nodes(g) == table_symbols(nt).take(k as int),
            forall|j: int| 0 <= j < nt.len() ==> (#[trigger] nt[j]).1 == nodes@[j].name@ && nt[j].2 == nodes@[j].file_path@,
        decreases nodes@.len() - k,
    {
        let s = Symbol { name: nodes[k].name.clone(), file_path: nodes[k].file_path.clone() };
        graph_add_node(&mut g, s);
        proof {
            assert(table_symbols(nt).take(k + 1) =~= table_symbols(nt).take(k as int).push((nt[k as int].1, nt[k as int].2)));
        }
        k += 1;
    }
    proof {
        assert(table_symbols(nt).take(nt.len() as int) =~= table_symbols(nt));
    }
    let ghost all = edges@;
    let mut e: usize = 0;
    while e < edges.len()
        invariant
            edges@ == all,
            e <= all.len(),
            graph_nodes(g) == table_symbols(nt),
            graph_edges(g) == all.take(e as int),
            forall|x: int| 0 <= x < all.len() ==> (#[trigger] all[x]).0 < nt.len() && all[x].1 < nt.len(),
        decreases all.len() - e,
    {
        let (a, b) = edges[e];
        graph_add_edge(&mut g, a, b, CALL_WEIGHT);
        proof {
            assert(all.take(e + 1) =~= all.take(e as int).push(all[e as int]));
        }
        e += 1;
    }
    proof {
        assert(all.take(all.len() as int) =~= all);
    }
    Ok((g, keys))
}

/// A call table as plain values.
pub open spec fn table_view(t: Seq<(String, Vec<String>)>) -> Seq<(Seq<char>, Seq<Seq<char>>)> {
    t.map_values(|e: (String, Vec<String>)| (e.0@, texts(e.1@)))
}

/// The position of the entry with key `key`, if any.
fn find_entry(table: &Vec<(String, Vec<String>)>, key: &String) -> (r: Option<usize>)
    ensures
        match r {
            Some(p) => p < table@.len() && table@[p as int].0@ == key@,
            None => forall|j: int| 0 <= j < table@.len() ==> table@[j].0@ != key@,
        },
{
    let mut pos: usize = 0;
    while pos < table.len()
        invariant
            pos <= table@.len(),
            forall|j: int| 0 <= j < pos ==> table@[j].0@ != key@,
        decreases table@.len() - pos,
    {
        if table[pos].0 == *key {
            return Some(pos);
        }
        pos += 1;
    }
    None
}

/// The callers' keys with their callees (see [`call_table`]).
fn extract_call_edges(chunks: &Vec<Chunk>) -> (table: Vec<(String, Vec<String>)>)
    ensures
        table_view(table@) == call_table(views(chunks@)),
{
    let ghost cs = views(chunks@);
    let mut table: Vec<(String, Vec<String>)> = Vec::new();
    let mut i: usize = 0;
    while i < chunks.len()
        invariant
            cs == views(chunks@),
            i <= chunks@.len(),
            table_view(table@) == call_table(cs.take(i as int)),
            forall|a: int, b: int| 0 <= a < b < table@.len() ==> (#[trigger] table@[a]).0@ != (#[trigger] table@[b]).0@,
        decreases chunks@.len() - i,
    {
        let ghost pre = cs.take(i as int);
        let ghost tv = table_view(table@);
        proof {
            assert(cs.take(i + 1).drop_last() =~= pre);
            assert(cs.take(i + 1).last() == chunks@[i as int]@);
        }
        let kind = chunks[i].symbol_kind;
        if matches!(kind, SymbolKind::Function | SymbolKind::ImplBlock) {
            let calls = parse_call_exprs(chunks[i].text.as_str());
            if calls.len() > 0 {
                let key = chunk_key(&chunks[i]);
                let found = find_entry(&table, &key);
                if let Some(pos) = found {
                    let ghost tb = table@;
                    proof {
                        assert(tv[pos as int].0 == key@);
                        let e = choose|e: int| 0 <= e < tv.len() && (#[trigger] tv[e]).0 == key@;
                        assert(tb[e].0@ == key@ && tb[pos as int].0@ == key@);
                        assert(e == pos as int);
                    }
                    table.set(pos, (key, calls));
                    proof {
                        assert(table_view(table@) =~= tv.update(pos as int, (key@, texts(calls@))));
                        assert forall|a: int, b: int| 0 <= a < b < table@.len()
                            implies (#[trigger] table@[a]).0@ != (#[trigger] table@[b]).0@ by {
                            assert(table@[a].0@ == tb[a].0@ && table@[b].0@ == tb[b].0@);
                        }
                    }
                } else {
                    proof {
                        assert forall|e: int| 0 <= e < tv.len() implies (#[trigger] tv[e]).0 != key@ by {
                            assert(tv[e].0 == table@[e].0@);
                        }
                    }
                    let ghost tb = table@;
                    table.push((key, calls));
                    proof {
                        assert(table_view(table@) =~= tv.push((key@, texts(calls@))));
                        assert forall|a: int, b: int| 0 <= a < b < table@.len()
                            implies (#[trigger] table@[a]).0@ != (#[trigger] table@[b]).0@ by {
                            assert(table@[a] == tb[a] || a == tb.len());
                            if b < tb.len() {
                                assert(table@[b] == tb[b]);
                            }
                        }
                    }
                }
            }
        }
        i += 1;
    }
    proof {
        assert(cs.take(cs.len() as int) =~= cs);
    }
    table
}

/// A key that is present has a position inside the list.
proof fn lemma_position_in_range(keys: Seq<Seq<char>>, k: Seq<char>)
    requires
        keys.contains(k),
    ensures
        0 <= position(keys, k) < keys.len(),
        keys[position(keys, k)] == k,
    decreases keys.len(),
{
    if keys[0] != k {
        let j = choose|j: int| 0 <= j < keys.len() && keys[j] == k;
        assert(keys.drop_first()[j - 1] == k);
        lemma_position_in_range(keys.drop_first(), k);
    }
}

/// The edges of one caller join nodes of the graph.
proof fn lemma_edges_to_in_range(from: int, tos: Seq<Seq<char>>, names: Seq<Seq<char>>)
    requires
        0 <= from < names.len(),
        names.len() <= usize::MAX,
    ensures
        forall|e: int| 0 <= e < edges_to(from, tos, names).len() ==>
            (#[trigger] edges_to(from, tos, names)[e]).0 < names.len() && edges_to(from, tos, names)[e].1 < names.len(),
    decreases tos.len(),
{
    if tos.len() > 0 {
        lemma_edges_to_in_range(from, tos.drop_last(), names);
        let rest = edges_to(from, tos.drop_last(), names);
        let t = callee_symbol(tos.last());
        if names.contains(t) {
            lemma_position_in_range(names, t);
            let p = position(names, t);
            assert((from as usize) as int == from);
            assert((p as usize) as int == p);
            assert forall|e: int| 0 <= e < edges_to(from, tos, names).len() implies
                (#[trigger] edges_to(from, tos, names)[e]).0 < names.len() && edges_to(from, tos, names)[e].1 < names.len() by {
                if e < rest.len() {
                    assert(edges_to(from, tos, names)[e] == rest[e]);
                }
            }
        } else {
            assert(edges_to(from, tos, names) == rest);
        }
    }
}

/// Every edge of the call graph joins two of its nodes.
pub proof fn lemma_edges_join_nodes(
    table: Seq<(Seq<char>, Seq<Seq<char>>)>,
    keys: Seq<Seq<char>>,
    names: Seq<Seq<char>>,
)
    requires
        keys.len() == names.len(),
        keys.len() <= usize::MAX,
    ensures
        forall|e: int| 0 <= e < all_edges(table, keys, names).len() ==>
            (#[trigger] all_edges(table, keys, names)[e]).0 < keys.len() && all_edges(table, keys, names)[e].1 < keys.len(),
    decreases table.len(),
{
    if table.len() > 0 {
        lemma_edges_join_nodes(table.drop_last(), keys, names);
        let f = table.last().0;
        if keys.contains(f) {
            lemma_position_in_range(keys, f);
            lemma_edges_to_in_range(position(keys, f), table.last().1, names);
            let rest = all_edges(table.drop_last(), keys, names);
            let mine = edges_to(position(keys, f), table.last().1, names);
            assert forall|e: int| 0 <= e < all_edges(table, keys, names).len() implies
                (#[trigger] all_edges(table, keys, names)[e]).0 < keys.len() && all_edges(table, keys, names)[e].1 < keys.len() by {
                if e < rest.len() {
                    assert(all_edges(table, keys, names)[e] == rest[e]);
                } else {
                    assert(all_edges(table, keys, names)[e] == mine[e - rest.len()]);
                }
            }
        } else {
            assert(all_edges(table, keys, names) == all_edges(table.drop_last(), keys, names));
        }
    }
}

/// `x` stands at `i` in `s` and nowhere before.
pub open spec fn first_at(s: Seq<Seq<char>>, x: Seq<char>, i: int) -> bool {
    0 <= i < s.len() && s[i] == x && forall|j: int| 0 <= j < i ==> s[j] != x
}

/// The edge `edge` resolves callee `c` of caller entry `k`: it runs from the
/// first node with the caller's key to the first node named by the last path
/// segment of the callee.
pub open spec fn resolves(
    table: Seq<(Seq<char>, Seq<Seq<char>>)>,
    keys: Seq<Seq<char>>,
    names: Seq<Seq<char>>,
    k: int,
    c: int,
    edge: (usize, usize),
) -> bool {
    &&& 0 <= k < table.len()
    &&& 0 <= c < table[k].1.len()
    &&& first_at(keys, table[k].0, edge.0 as int)
    &&& first_at(names, callee_symbol(table[k].1[c]), edge.1 as int)
}

/// Some callee of some caller entry is resolved by the edge `edge`.
pub open spec fn resolved_edge(
    table: Seq<(Seq<char>, Seq<Seq<char>>)>,
    keys: Seq<Seq<char>>,
    names: Seq<Seq<char>>,
    edge: (usize, usize),
) -> bool {
    exists|k: int, c: int| #[trigger] resolves(table, keys, names, k, c, edge)
}

/// A present key's position is its first occurrence.
proof fn lemma_position_first(keys: Seq<Seq<char>>, k: Seq<char>)
    requires
        keys.contains(k),
    ensures
        first_at(keys, k, position(keys, k)),
    decreases keys.len(),
{
    lemma_position_in_range(keys, k);
    if keys[0] != k {
        let j = choose|j: int| 0 <= j < keys.len() && keys[j] == k;
        assert(keys.drop_first()[j - 1] == k);
        lemma_position_first(keys.drop_first(), k);
        assert forall|j: int| 0 <= j < position(keys, k) implies keys[j] != k by {
            if j > 0 {
                assert(keys[j] == keys.drop_first()[j - 1]);
            }
        }
    }
}

proof fn lemma_edges_to_resolve(from: int, tos: Seq<Seq<char>>, names: Seq<Seq<char>>)
    requires
        0 <= from <= usize::MAX,
        names.len() <= usize::MAX,
    ensures
        forall|e: int| 0 <= e < edges_to(from, tos, names).len() ==> {
            &&& (#[trigger] edges_to(from, tos, names)[e]).0 as int == from
            &&& exists|c: int| 0 <= c < tos.len()
                && #[trigger] first_at(names, callee_symbol(tos[c]), edges_to(from, tos, names)[e].1 as int)
        },
        forall|c: int, p: int| 0 <= c < tos.len() && #[trigger] first_at(names, callee_symbol(tos[c]), p)
            ==> edges_to(from, tos, names).contains((from as usize, p as usize)),
    decreases tos.len(),
{
    if tos.len() > 0 {
        let rest = edges_to(from, tos.drop_last(), names);
        let t = callee_symbol(tos.last());
        lemma_edges_to_resolve(from, tos.drop_last(), names);
        let all = edges_to(from, tos, names);
        if names.contains(t) {
            lemma_position_first(names, t);
        }
        assert forall|e: int| 0 <= e < all.len() implies {
            &&& (#[trigger] all[e]).0 as int == from
            &&& exists|c: int| 0 <= c < tos.len() && #[trigger] first_at(names, callee_symbol(tos[c]), all[e].1 as int)
        } by {
            if e < rest.len() {
                assert(all[e] == rest[e]);
                let c = choose|c: int| 0 <= c < tos.drop_last().len()
                    && #[trigger] first_at(names, callee_symbol(tos.drop_last()[c]), rest[e].1 as int);
                assert(tos.drop_last()[c] == tos[c]);
                assert(first_at(names, callee_symbol(tos[c]), all[e].1 as int));
            } else {
                let c = tos.len() - 1;
                assert(tos[c] == tos.last());
                assert(first_at(names, callee_symbol(tos[c]), all[e].1 as int));
            }
        }
        assert forall|c: int, p: int| 0 <= c < tos.len() && #[trigger] first_at(names, callee_symbol(tos[c]), p)
            implies all.contains((from as usize, p as usize)) by {
            if c < tos.len() - 1 {
                assert(tos.drop_last()[c] == tos[c]);
                assert(first_at(names, callee_symbol(tos.drop_last()[c]), p));
                let i = choose|i: int| 0 <= i < rest.len() && rest[i] == (from as usize, p as usize);
                assert(all[i] == rest[i]);
            } else {
                assert(tos[c] == tos.last());
                assert(names[p] == t);
                assert(names.contains(t));
                assert(position(names, t) == p);
                assert(all[rest.len() as int] == (from as usize, p as usize));
            }
        }
    }
}

/// The call graph's edges are exactly the calls it resolves: each edge runs
/// from a caller's node to the first node named by the last path segment of
/// one of that caller's callees, and each such pair of nodes is an edge.
pub proof fn lemma_edges_are_resolved_calls(
    table: Seq<(Seq<char>, Seq<Seq<char>>)>,
    keys: Seq<Seq<char>>,
    names: Seq<Seq<char>>,
)
    requires
        keys.len() <= usize::MAX,
        names.len() <= usize::MAX,
    ensures
        forall|e: int| 0 <= e < all_edges(table, keys, names).len() ==>
            #[trigger] resolved_edge(table, keys, names, all_edges(table, keys, names)[e]),
        forall|k: int, c: int, a: int, b: int|
            #![trigger first_at(keys, table[k].0, a), first_at(names, callee_symbol(table[k].1[c]), b)]
            0 <= k < table.len() && 0 <= c < table[k].1.len()
                && first_at(keys, table[k].0, a) && first_at(names, callee_symbol(table[k].1[c]), b)
            ==> all_edges(table, keys, names).contains((a as usize, b as usize)),
    decreases table.len(),
{
    if table.len() > 0 {
        let front = table.drop_last();
        let rest = all_edges(front, keys, names);
        let f = table.last().0;
        let all = all_edges(table, keys, names);
        lemma_edges_are_resolved_calls(front, keys, names);
        let last = table.len() - 1;
        assert(table[last] == table.last());
        if keys.contains(f) {
            lemma_position_first(keys, f);
            let a0 = position(keys, f);
            lemma_edges_to_resolve(a0, table.last().1, names);
        }
        assert forall|e: int| 0 <= e < all.len() implies
            #[trigger] resolved_edge(table, keys, names, all[e]) by {
            if e < rest.len() {
                assert(all[e] == rest[e]);
                assert(resolved_edge(front, keys, names, rest[e]));
                let (k, c) = choose|k: int, c: int| #[trigger] resolves(front, keys, names, k, c, rest[e]);
                assert(front[k] == table[k]);
                assert(resolves(table, keys, names, k, c, all[e]));
            } else {
                let a0 = position(keys, f);
                let mine = edges_to(a0, table.last().1, names);
                assert(all[e] == mine[e - rest.len()]);
                let c = choose|c: int| 0 <= c < table.last().1.len()
                    && #[trigger] first_at(names, callee_symbol(table.last().1[c]), mine[e - rest.len()].1 as int);
                assert(resolves(table, keys, names, last, c, all[e]));
            }
        }
        assert forall|k: int, c: int, a: int, b: int|
            #![trigger first_at(keys, table[k].0, a), first_at(names, callee_symbol(table[k].1[c]), b)]
            0 <= k < table.len() && 0 <= c < table[k].1.len()
                && first_at(keys, table[k].0, a) && first_at(names, callee_symbol(table[k].1[c]), b)
            implies all.contains((a as usize, b as usize)) by {
            if k < last {
                assert(front[k] == table[k]);
                assert(first_at(keys, front[k].0, a) && first_at(names, callee_symbol(front[k].1[c]), b));
                let i = choose|i: int| 0 <= i < rest.len() && rest[i] == (a as usize, b as usize);
                assert(all[i] == rest[i]);
            } else {
                assert(keys[a] == f);
                assert(keys.contains(f));
                let a0 = position(keys, f);
                assert(a0 == a);
                let mine = edges_to(a0, table.last().1, names);
                assert(first_at(names, callee_symbol(table.last().1[c]), b));
                let i = choose|i: int| 0 <= i < mine.len() && mine[i] == (a0 as usize, b as usize);
                assert(all[rest.len() + i] == mine[i]);
            }
        }
    } else {
        assert(all_edges(table, keys, names).len() == 0);
    }
}

/// A function or impl block whose text calls at least one non-trivial name.
pub open spec fn calls_out(c: ChunkView) -> bool {
    &&& (c.symbol_kind == SymbolKind::Function || c.symbol_kind == SymbolKind::ImplBlock)
    &&& callees(call_exprs_of(c.text)).len() > 0
}

/// Chunk `i` is where the call entry `entry` comes from: a function or impl
/// block with the entry's key and callees, the last such chunk with that key.
pub open spec fn entry_from(cs: Seq<ChunkView>, i: int, entry: (Seq<char>, Seq<Seq<char>>)) -> bool {
    &&& 0 <= i < cs.len()
    &&& calls_out(cs[i])
    &&& node_key(cs[i]) == entry.0
    &&& entry.1 == callees(call_exprs_of(cs[i].text))
    &&& forall|j: int| i < j < cs.len() && calls_out(#[trigger] cs[j]) ==> node_key(cs[j]) != entry.0
}

/// Some chunk is where the call entry `entry` comes from.
pub open spec fn entry_has_source(cs: Seq<ChunkView>, entry: (Seq<char>, Seq<Seq<char>>)) -> bool {
    exists|i: int| #[trigger] entry_from(cs, i, entry)
}

/// The call table holds one entry per key of a function or impl block that
/// calls something: the callees of the last such chunk with that key.
pub proof fn lemma_call_table_entries(cs: Seq<ChunkView>)
    ensures
        forall|e: int| 0 <= e < call_table(cs).len() ==> #[trigger] entry_has_source(cs, call_table(cs)[e]),
        forall|i: int| 0 <= i < cs.len() && #[trigger] calls_out(cs[i]) ==>
            exists|e: int| 0 <= e < call_table(cs).len() && (#[trigger] call_table(cs)[e]).0 == node_key(cs[i]),
        forall|a: int, b: int| 0 <= a < b < call_table(cs).len() ==>
            (#[trigger] call_table(cs)[a]).0 != (#[trigger] call_table(cs)[b]).0,
    decreases cs.len(),
{
    if cs.len() > 0 {
        let front = cs.drop_last();
        let rest = call_table(front);
        let t = call_table(cs);
        let n = cs.len() - 1;
        let c = cs.last();
        assert(cs[n] == c);
        lemma_call_table_entries(front);
        let calls = callees(call_exprs_of(c.text));
        assert(calls_out(c) == (is_caller(c) && calls.len() > 0));
        let k = node_key(c);
        // Entries inherited from the front keep their source chunk.
        assert forall|x: (Seq<char>, Seq<Seq<char>>)| entry_has_source(front, x) && (calls_out(c) ==> x.0 != k)
            implies entry_has_source(cs, x) by {
            let i = choose|i: int| #[trigger] entry_from(front, i, x);
            assert(front[i] == cs[i]);
            assert forall|j: int| i < j < cs.len() && calls_out(#[trigger] cs[j]) implies node_key(cs[j]) != x.0 by {
                if j < n {
                    assert(front[j] == cs[j]);
                }
            }
            assert(entry_from(cs, i, x));
        }
        if !calls_out(c) {
            assert(t == rest);
            assert forall|i: int| 0 <= i < cs.len() && #[trigger] calls_out(cs[i]) implies
                exists|e: int| 0 <= e < t.len() && (#[trigger] t[e]).0 == node_key(cs[i]) by {
                assert(front[i] == cs[i]);
            }
        } else {
            assert(entry_from(cs, n, (k, calls)));
            if exists|e: int| 0 <= e < rest.len() && (#[trigger] rest[e]).0 == k {
                let e0 = choose|e: int| 0 <= e < rest.len() && (#[trigger] rest[e]).0 == k;
                assert(t == rest.update(e0, (k, calls)));
                assert forall|e: int| 0 <= e < t.len() implies #[trigger] entry_has_source(cs, t[e]) by {
                    if e != e0 {
                        assert(t[e] == rest[e]);
                        assert(entry_has_source(front, rest[e]));
                    }
                }
                assert forall|i: int| 0 <= i < cs.len() && #[trigger] calls_out(cs[i]) implies
                    exists|e: int| 0 <= e < t.len() && (#[trigger] t[e]).0 == node_key(cs[i]) by {
                    if i < n {
                        assert(front[i] == cs[i]);
                        let e1 = choose|e: int| 0 <= e < rest.len() && (#[trigger] rest[e]).0 == node_key(front[i]);
                        assert(t[e1].0 == rest[e1].0);
                    } else {
                        assert(t[e0].0 == k);
                    }
                }
                assert forall|a: int, b: int| 0 <= a < b < t.len() implies (#[trigger] t[a]).0 != (#[trigger] t[b]).0 by {
                    assert(t[a].0 == rest[a].0);
                    assert(t[b].0 == rest[b].0);
                }
            } else {
                assert(t == rest.push((k, calls)));
                assert forall|e: int| 0 <= e < t.len() implies #[trigger] entry_has_source(cs, t[e]) by {
                    if e < rest.len() {
                        assert(t[e] == rest[e]);
                        assert(entry_has_source(front, rest[e]));
                    }
                }
                assert forall|i: int| 0 <= i < cs.len() && #[trigger] calls_out(cs[i]) implies
                    exists|e: int| 0 <= e < t.len() && (#[trigger] t[e]).0 == node_key(cs[i]) by {
                    if i < n {
                        assert(front[i] == cs[i]);
                        let e1 = choose|e: int| 0 <= e < rest.len() && (#[trigger] rest[e]).0 == node_key(front[i]);
                        assert(t[e1] == rest[e1]);
                    } else {
                        assert(t[rest.len() as int].0 == k);
                    }
                }
                assert forall|a: int, b: int| 0 <= a < b < t.len() implies (#[trigger] t[a]).0 != (#[trigger] t[b]).0 by {
                    assert(t[a] == rest[a]);
                    if b < rest.len() {
                        assert(t[b] == rest[b]);
                    }
                }
            }
        }
    }
}

/// No two nodes of the call graph share a key.
pub proof fn lemma_node_keys_distinct(cs: Seq<ChunkView>)
    ensures
        forall|a: int, b: int| 0 <= a < b < node_table(cs).len() ==> (#[trigger] node_table(cs)[a]).0 != (#[trigger] node_table(cs)[b]).0,
    decreases cs.len(),
{
    if cs.len() > 0 {
        lemma_node_keys_distinct(cs.drop_last());
        let rest = node_table(cs.drop_last());
        let k = node_key(cs.last());
        if !(exists|e: int| 0 <= e < rest.len() && (#[trigger] rest[e]).0 == k) {
            let t = rest.push((k, cs.last().module_name, cs.last().file_path));
            assert forall|a: int, b: int| 0 <= a < b < t.len() implies (#[trigger] t[a]).0 != (#[trigger] t[b]).0 by {
                assert(t[a] == rest[a]);
                if b < rest.len() {
                    assert(t[b] == rest[b]);
                }
            }
        }
    }
}

/// Chunks none of which is a function or impl block give no call edges
/// (structs alone, say).
pub proof fn lemma_no_callers_no_edges(cs: Seq<ChunkView>, keys: Seq<Seq<char>>, names: Seq<Seq<char>>)
    requires
        forall|i: int| 0 <= i < cs.len() ==> !is_caller(#[trigger] cs[i]),
    ensures
        call_table(cs) == Seq::<(Seq<char>, Seq<Seq<char>>)>::empty(),
        all_edges(call_table(cs), keys, names) == Seq::<(usize, usize)>::empty(),
    decreases cs.len(),
{
    if cs.len() > 0 {
        assert forall|i: int| 0 <= i < cs.drop_last().len() implies !is_caller(#[trigger] cs.drop_last()[i]) by {
            assert(cs.drop_last()[i] == cs[i]);
        }
        lemma_no_callers_no_edges(cs.drop_last(), keys, names);
        assert(cs[cs.len() - 1] == cs.last());
    }
}

} // verus!
