//! Decisions of the MCP (Model Context Protocol) server over JSON-RPC 2.0:
//! its state, its error replies and the checks on tool arguments.
//!
//! Reading requests from stdin and writing replies belong to the caller.
use vstd::prelude::*;
use crate::text::{byte_len, concat2, concat3, decimal, decimal_string, joined, path_join, str_eq};
use crate::json::{JsonValue, element, kind_name_of, lookup, member, string_of_value, u64_of_value, value_type_name};
use crate::vector_store::SearchFilters;

verus! {

/// A JSON-RPC error object.
#[derive(Debug)]
pub struct JsonRpcError {
    /// The error code.
    pub code: i32,
    /// The error message.
    pub message: String,
}

/// Shared state of the MCP server.
#[derive(Debug)]
pub struct McpState {
    /// Path to the vector store.
    pub store_path: String,
    initialized: bool,
}

/// Name of the index directory inside a workspace.
pub open spec fn store_dir_name() -> Seq<char> {
    ".rustrag"@
}

impl McpState {
    /// Whether the `initialize` handshake has happened.
    pub closed spec fn is_initialized(&self) -> bool {
        self.initialized
    }

    /// Path to the vector store.
    pub closed spec fn store(&self) -> Seq<char> {
        self.store_path@
    }

    /// The state of a server for `workspace_root`, not yet initialized; its
    /// store is the `.rustrag` directory of the workspace.
    pub fn new(workspace_root: &str) -> (s: Self)
        ensures
            s.store() == joined(workspace_root@, store_dir_name()),
            !s.is_initialized(),
    {
        McpState { store_path: path_join(workspace_root, ".rustrag"), initialized: false }
    }

    /// Records that the `initialize` handshake has happened.
    pub fn mark_initialized(&mut self)
        ensures
            final(self).is_initialized(),
            final(self).store() == old(self).store(),
    {
        self.initialized = true;
    }

    /// `Ok` once initialized, otherwise the error that asks for `initialize`.
    pub fn require_initialized(&self) -> (r: Result<(), String>)
        ensures
            r is Ok <==> self.is_initialized(),
            r matches Err(m) ==> m@ == "Not initialized. Call 'initialize' first."@,
    {
        if !self.initialized {
            return Err("Not initialized. Call 'initialize' first.".to_owned());
        }
        Ok(())
    }
}

/// Longest accepted query, in bytes.
pub const MAX_QUERY_BYTES: usize = 4096;

/// Results per query when the arguments name no `top_k`.
pub const DEFAULT_TOP_K: usize = 5;

/// Largest accepted `top_k`.
pub const MAX_TOP_K: usize = 100;

/// The byte length of a string as `str::len` reports it.
pub open spec fn str_len(s: Seq<char>) -> usize {
    byte_len(s) as usize
}

// ---------------------------------------------------------------------------
// Tool input schemas
// ---------------------------------------------------------------------------

/// What argument validation reads of a tool's JSON schema: each property
/// with its declared `type` (if it has one), and the required properties.
#[derive(Debug)]
pub struct ToolSchema {
    /// The schema's `properties`, or `None` when it has none.
    pub properties: Option<Vec<(String, Option<String>)>>,
    /// The schema's `required` property names.
    pub required: Vec<String>,
}

/// A schema's properties as plain values: each name with its declared type.
pub type PropsView = Seq<(Seq<char>, Option<Seq<char>>)>;

/// The declared type of property `key`, if the property is declared.
pub open spec fn prop_type(props: PropsView, key: Seq<char>) -> Option<Option<Seq<char>>>
    decreases props.len(),
{
    if props.len() == 0 {
        None
    } else if props[0].0 == key {
        Some(props[0].1)
    } else {
        prop_type(props.drop_first(), key)
    }
}

/// The message for a field of the wrong type.
pub open spec fn type_message(key: Seq<char>, expected: Seq<char>, v: JsonValue) -> Seq<char> {
    "Field '"@ + key + "' expected "@ + expected + ", got "@ + kind_name_of(v)
}

/// The type error of one member, if its declared type is not met.
pub open spec fn member_error(props: PropsView, key: Seq<char>, v: JsonValue) -> Option<Seq<char>> {
    match prop_type(props, key) {
        Some(Some(t)) => if t == "string"@ {
            if v is String { None } else { Some(type_message(key, "string"@, v)) }
        } else if t == "integer"@ || t == "number"@ {
            if v is Number { None } else { Some(type_message(key, "number"@, v)) }
        } else if t == "boolean"@ {
            if v is Bool { None } else { Some(type_message(key, "boolean"@, v)) }
        } else {
            None
        },
        _ => None,
    }
}

/// The first type error among the members, in order.
pub open spec fn members_error(props: PropsView, fields: Seq<(String, JsonValue)>) -> Option<Seq<char>>
    decreases fields.len(),
{
    if fields.len() == 0 {
        None
    } else {
        match member_error(props, fields[0].0@, fields[0].1) {
            Some(e) => Some(e),
            None => members_error(props, fields.drop_first()),
        }
    }
}

/// The first required name that the arguments lack.
pub open spec fn first_missing(required: Seq<Seq<char>>, args: JsonValue) -> Option<Seq<char>>
    decreases required.len(),
{
    if required.len() == 0 {
        None
    } else if member(args, required[0]) is None {
        Some(required[0])
    } else {
        first_missing(required.drop_first(), args)
    }
}

/// A value meets a declared property type: a string for "string", a number
/// for "integer" or "number", a boolean for "boolean"; any value meets
/// another declared type or no declared type.
pub open spec fn meets_type(declared: Option<Option<Seq<char>>>, v: JsonValue) -> bool {
    declared matches Some(Some(t)) ==> {
        &&& t == "string"@ ==> v is String
        &&& (t == "integer"@ || t == "number"@) ==> v is Number
        &&& t == "boolean"@ ==> v is Bool
    }
}

proof fn lemma_type_names_differ()
    ensures
        "string"@ != "integer"@,
        "string"@ != "number"@,
        "string"@ != "boolean"@,
        "integer"@ != "boolean"@,
        "number"@ != "boolean"@,
{
    reveal_strlit("string");
    reveal_strlit("integer");
    reveal_strlit("number");
    reveal_strlit("boolean");
    assert("string"@.len() != "integer"@.len());
    assert("string"@[0] != "number"@[0]);
    assert("string"@[0] != "boolean"@[0]);
    assert("integer"@[0] != "boolean"@[0]);
    assert("number"@[0] != "boolean"@[0]);
}

proof fn lemma_first_missing_none(required: Seq<Seq<char>>, args: JsonValue)
    ensures
        first_missing(required, args) is None <==> forall|i: int| 0 <= i < required.len() ==> member(args, #[trigger] required[i]) is Some,
    decreases required.len(),
{
    if required.len() > 0 {
        lemma_first_missing_none(required.drop_first(), args);
        if first_missing(required.drop_first(), args) is None && member(args, required[0]) is Some {
            assert forall|i: int| 0 <= i < required.len() implies member(args, #[trigger] required[i]) is Some by {
                if i > 0 {
                    assert(required[i] == required.drop_first()[i - 1]);
                }
            }
        }
        if first_missing(required.drop_first(), args) is Some {
            let i = choose|i: int| 0 <= i < required.drop_first().len() && !(member(args, #[trigger] required.drop_first()[i]) is Some);
            assert(required[i + 1] == required.drop_first()[i]);
        }
    }
}

proof fn lemma_members_error_none(props: PropsView, fields: Seq<(String, JsonValue)>)
    ensures
        members_error(props, fields) is None <==> forall|j: int| 0 <= j < fields.len() ==>
            meets_type(prop_type(props, (#[trigger] fields[j]).0@), fields[j].1),
    decreases fields.len(),
{
    lemma_type_names_differ();
    if fields.len() > 0 {
        lemma_members_error_none(props, fields.drop_first());
        assert(member_error(props, fields[0].0@, fields[0].1) is None <==> meets_type(prop_type(props, fields[0].0@), fields[0].1));
        if members_error(props, fields) is None {
            assert forall|j: int| 0 <= j < fields.len() implies meets_type(prop_type(props, (#[trigger] fields[j]).0@), fields[j].1) by {
                if j > 0 {
                    assert(fields[j] == fields.drop_first()[j - 1]);
                }
            }
        }
        if members_error(props, fields.drop_first()) is Some {
            let j = choose|j: int| 0 <= j < fields.drop_first().len()
                && !meets_type(prop_type(props, (#[trigger] fields.drop_first()[j]).0@), fields.drop_first()[j].1);
            assert(fields[j + 1] == fields.drop_first()[j]);
        }
    }
}

/// Arguments pass a tool's schema exactly when the schema declares its
/// properties, the arguments are an object holding every required member,
/// and each member meets the type its property declares.
pub proof fn lemma_input_accepted_iff(schema: (Option<PropsView>, Seq<Seq<char>>), args: JsonValue)
    ensures
        input_error(schema, args) is None <==> {
            &&& schema.0 is Some
            &&& forall|i: int| 0 <= i < schema.1.len() ==> member(args, #[trigger] schema.1[i]) is Some
            &&& args matches JsonValue::Object(fields) && forall|j: int| 0 <= j < fields@.len() ==>
                meets_type(prop_type(schema.0->0, (#[trigger] fields@[j]).0@), fields@[j].1)
        },
{
    lemma_first_missing_none(schema.1, args);
    if let JsonValue::Object(fields) = args {
        if schema.0 is Some {
            lemma_members_error_none(schema.0->0, fields@);
        }
    }
}

/// Why the arguments do not meet the schema (given as plain values), if they do not.
pub open spec fn input_error(schema: (Option<PropsView>, Seq<Seq<char>>), args: JsonValue) -> Option<Seq<char>> {
    match schema.0 {
        None => Some("Missing properties in schema"@),
        Some(props) => match first_missing(schema.1, args) {
            Some(f) => Some("Missing required field: "@ + f),
            None => match args {
                JsonValue::Object(fields) => members_error(props, fields@),
                _ => Some("Arguments must be a JSON object"@),
            },
        },
    }
}

/// The properties of a schema as plain values.
pub open spec fn props_view(p: Seq<(String, Option<String>)>) -> PropsView {
    p.map_values(|e: (String, Option<String>)| (e.0@, match e.1 {
        Some(t) => Some(t@),
        None => None,
    }))
}

/// The declared type of property `key`.
fn find_prop_type<'a>(props: &'a Vec<(String, Option<String>)>, key: &str) -> (r: Option<&'a Option<String>>)
    ensures
        match r {
            Some(t) => prop_type(props_view(props@), key@) == Some(match *t {
                Some(x) => Some(x@),
                None => None,
            }),
            None => prop_type(props_view(props@), key@) is None,
        },
{
    let ghost pv = props_view(props@);
    let mut i: usize = 0;
    proof {
        assert(pv.skip(0) =~= pv);
    }
    while i < props.len()
        invariant
            pv == props_view(props@),
            i <= props@.len(),
            prop_type(pv, key@) == prop_type(pv.skip(i as int), key@),
        decreases props@.len() - i,
    {
        proof {
            assert(pv.skip(i as int)[0] == pv[i as int]);
            assert(pv.skip(i as int).drop_first() =~= pv.skip(i + 1));
        }
        if str_eq(props[i].0.as_str(), key) {
            return Some(&props[i].1);
        }
        i += 1;
    }
    proof {
        assert(pv.skip(i as int) =~= Seq::<(Seq<char>, Option<Seq<char>>)>::empty());
    }
    None
}

/// The type error of one member (see [`member_error`]).
fn check_member(props: &Vec<(String, Option<String>)>, key: &String, v: &JsonValue) -> (r: Option<String>)
    ensures
        match r {
            Some(e) => member_error(props_view(props@), key@, *v) == Some(e@),
            None => member_error(props_view(props@), key@, *v) is None,
        },
{
    let t = match find_prop_type(props, key.as_str()) {
        Some(Some(t)) => t,
        _ => {
            return None;
        },
    };
    let (ok, expected) = if str_eq(t.as_str(), "string") {
        (v.is_string(), "string")
    } else if str_eq(t.as_str(), "integer") || str_eq(t.as_str(), "number") {
        (v.is_number(), "number")
    } else if str_eq(t.as_str(), "boolean") {
        (v.is_boolean(), "boolean")
    } else {
        return None;
    };
    if ok {
        None
    } else {
        let a = concat3("Field '", key.as_str(), "' expected ");
        let b = concat3(a.as_str(), expected, ", got ");
        Some(concat2(b.as_str(), value_type_name(v)))
    }
}

/// Checks tool arguments against a schema: the schema must have
/// properties, the arguments must have every required member and be an
/// object, and each member declared as string, integer/number or boolean
/// must have that type.
pub fn validate_tool_input(schema: &ToolSchema, args: &JsonValue) -> (r: Result<(), String>)
    ensures
        match r {
            Ok(()) => input_error(schema_view(*schema), *args) is None,
            Err(e) => input_error(schema_view(*schema), *args) == Some(e@),
        },
{
    let props = match &schema.properties {
        Some(p) => p,
        None => {
            return Err("Missing properties in schema".to_owned());
        },
    };
    let ghost rv = schema_view(*schema).1;
    let mut i: usize = 0;
    proof {
        assert(rv.skip(0) =~= rv);
    }
    while i < schema.required.len()
        invariant
            rv == schema_view(*schema).1,
            schema.properties == Some(*props),
            i <= schema.required@.len(),
            first_missing(rv, *args) == first_missing(rv.skip(i as int), *args),
        decreases schema.required@.len() - i,
    {
        proof {
            assert(rv.skip(i as int)[0] == schema.required@[i as int]@);
            assert(rv.skip(i as int).drop_first() =~= rv.skip(i + 1));
        }
        if args.get(schema.required[i].as_str()).is_none() {
            return Err(concat2("Missing required field: ", schema.required[i].as_str()));
        }
        i += 1;
    }
    proof {
        assert(rv.skip(i as int) =~= Seq::<Seq<char>>::empty());
    }
    let fields = match args {
        JsonValue::Object(f) => f,
        _ => {
            return Err("Arguments must be a JSON object".to_owned());
        },
    };
    let mut k: usize = 0;
    proof {
        assert(fields@.skip(0) =~= fields@);
    }
    while k < fields.len()
        invariant
            schema.properties == Some(*props),
            first_missing(schema_view(*schema).1, *args) is None,
            *args == JsonValue::Object(*fields),
            k <= fields@.len(),
            members_error(props_view(props@), fields@) == members_error(props_view(props@), fields@.skip(k as int)),
        decreases fields@.len() - k,
    {
        proof {
            assert(fields@.skip(k as int)[0] == fields@[k as int]);
            assert(fields@.skip(k as int).drop_first() =~= fields@.skip(k + 1));
        }
        match check_member(props, &fields[k].0, &fields[k].1) {
            Some(e) => {
                return Err(e);
            },
            None => {},
        }
        k += 1;
    }
    proof {
        assert(fields@.skip(k as int) =~= Seq::<(String, JsonValue)>::empty());
    }
    Ok(())
}

/// A property with a declared type.
fn typed_prop(name: &str, t: &str) -> (p: (String, Option<String>))
    ensures
        p.0@ == name@,
        p.1 is Some && p.1->0@ == t@,
{
    (name.to_owned(), Some(t.to_owned()))
}

/// A schema as plain values: each property with its type, and the required names.
pub open spec fn schema_view(s: ToolSchema) -> (Option<PropsView>, Seq<Seq<char>>) {
    (
        match s.properties {
            Some(p) => Some(props_view(p@)),
            None => None,
        },
        s.required@.map_values(|r: String| r@),
    )
}

/// The schema of the search tool's single (`query`) or batch (`queries`) form.
pub open spec fn search_schema_view(single: bool) -> (Option<PropsView>, Seq<Seq<char>>) {
    (
        Some(seq![
            if single { ("query"@, Some("string"@)) } else { ("queries"@, Some("array"@)) },
            ("top_k"@, Some("integer"@)),
            ("filters"@, Some("object"@)),
        ]),
        seq![if single { "query"@ } else { "queries"@ }],
    )
}

/// The schema of the search tool's single (`query`) or batch (`queries`) form.
pub fn search_schema(single: bool) -> (s: ToolSchema)
    ensures
        schema_view(s) == search_schema_view(single),
{
    let first = if single { typed_prop("query", "string") } else { typed_prop("queries", "array") };
    let name = if single { "query".to_owned() } else { "queries".to_owned() };
    let s = ToolSchema {
        properties: Some(vec![first, typed_prop("top_k", "integer"), typed_prop("filters", "object")]),
        required: vec![name],
    };
    proof {
        assert(schema_view(s).0 =~= search_schema_view(single).0);
        assert(schema_view(s).1 =~= search_schema_view(single).1);
    }
    s
}

/// The schema of the file-read tool.
pub open spec fn file_read_schema_view() -> (Option<PropsView>, Seq<Seq<char>>) {
    (
        Some(seq![
            ("file_path"@, Some("string"@)),
            ("line_start"@, Some("integer"@)),
            ("line_end"@, Some("integer"@)),
        ]),
        seq!["file_path"@],
    )
}

/// The schema of the file-read tool.
pub fn file_read_schema() -> (s: ToolSchema)
    ensures
        schema_view(s) == file_read_schema_view(),
{
    let s = ToolSchema {
        properties: Some(vec![
            typed_prop("file_path", "string"),
            typed_prop("line_start", "integer"),
            typed_prop("line_end", "integer"),
        ]),
        required: vec!["file_path".to_owned()],
    };
    proof {
        assert(schema_view(s).0 =~= file_read_schema_view().0);
        assert(schema_view(s).1 =~= file_read_schema_view().1);
    }
    s
}

// ---------------------------------------------------------------------------
// The search tool's arguments
// ---------------------------------------------------------------------------

/// What a search call asks for, once its arguments are checked.
#[derive(Debug)]
pub struct SearchRequest {
    /// A single `query` (else a batch of `queries`).
    pub single: bool,
    /// Results per query.
    pub top_k: usize,
    /// Metadata filters, when given.
    pub filters: Option<SearchFilters>,
}

/// The optional string member `key` of `v`.
pub open spec fn str_member(v: JsonValue, key: Seq<char>) -> Option<Seq<char>> {
    match member(v, key) {
        Some(m) => string_of_value(m),
        None => None,
    }
}

/// The `u64` of member `key` (a missing member reads as null).
pub open spec fn u64_member(v: JsonValue, key: Seq<char>) -> Option<u64> {
    match member(v, key) {
        Some(m) => u64_of_value(m),
        None => None,
    }
}

/// The filters a search asks for: `None` without a `filters` member; an
/// error when it is not an object or its `crates` is not an array.
pub open spec fn filters_of(args: JsonValue) -> Result<Option<(Option<Seq<char>>, Option<Seq<char>>)>, Seq<char>> {
    match member(args, "filters"@) {
        None => Ok(None),
        Some(f) => if !(f is Object) {
            Err("filters must be an object"@)
        } else if member(f, "crates"@) matches Some(c) && !(c is Array) {
            Err("crates must be an array if provided"@)
        } else {
            Ok(Some((str_member(f, "file_extension"@), str_member(f, "symbol_kind"@))))
        },
    }
}

/// The requested `top_k`: 5 without the member; the member when it is an
/// integer from 1 to 100; nothing (a refusal) for any other value.
pub open spec fn top_k_of(args: JsonValue) -> Option<usize> {
    match member(args, "top_k"@) {
        None => Some(DEFAULT_TOP_K),
        Some(m) => match u64_of_value(m) {
            Some(n) => if 1 <= n && n <= MAX_TOP_K { Some(n as usize) } else { None },
            None => None,
        },
    }
}

/// A search asks for 5 results unless it names `top_k`; a named `top_k` is
/// taken when it is an integer from 1 to 100 and refused otherwise.
pub proof fn lemma_top_k_rules(args: JsonValue)
    ensures
        member(args, "top_k"@) is None ==> top_k_of(args) == Some(5usize),
        forall|m: JsonValue| member(args, "top_k"@) == Some(m) ==> match u64_of_value(m) {
            Some(n) => (top_k_of(args) is Some <==> 1 <= n <= 100) && (1 <= n <= 100 ==> top_k_of(args) == Some(n as usize)),
            None => top_k_of(args) is None,
        },
{
}

/// The checked search request (single form, `top_k`, filters), or why the
/// arguments are refused.
pub open spec fn search_request_of(args: JsonValue) -> Result<(bool, usize, Option<(Option<Seq<char>>, Option<Seq<char>>)>), Seq<char>> {
    let is_single = member(args, "query"@) is Some;
    let is_batch = member(args, "queries"@) is Some;
    if !is_single && !is_batch {
        Err("Either 'query' or 'queries' must be provided"@)
    } else if is_single && is_batch {
        Err("Provide either 'query' or 'queries', not both"@)
    } else {
        match input_error(search_schema_view(is_single), args) {
            Some(e) => Err("Invalid arguments: "@ + e),
            None => {
                match top_k_of(args) {
                    None => Err("top_k must be between 1 and 100"@),
                    Some(k) => match filters_of(args) {
                        Err(e) => Err(e),
                        Ok(f) => Ok((is_single, k, f)),
                    },
                }
            },
        }
    }
}

/// The filters of a request as plain values.
pub open spec fn request_view(r: SearchRequest) -> (bool, usize, Option<(Option<Seq<char>>, Option<Seq<char>>)>) {
    (
        r.single,
        r.top_k,
        match r.filters {
            Some(f) => Some((
                match f.file_extension { Some(e) => Some(e@), None => None },
                match f.symbol_kind { Some(k) => Some(k@), None => None },
            )),
            None => None,
        },
    )
}

/// A copy of an optional string member.
fn copy_str_member(v: &JsonValue, key: &str) -> (r: Option<String>)
    ensures
        match r {
            Some(s) => str_member(*v, key@) == Some(s@),
            None => str_member(*v, key@) is None,
        },
{
    match v.get(key) {
        Some(m) => match m.as_str() {
            Some(s) => Some(s.to_owned()),
            None => None,
        },
        None => None,
    }
}

/// Checks the arguments of a search call: exactly one of `query` and
/// `queries`, the schema of that form, `top_k` an integer in 1..=100
/// (default 5), and
/// well-formed filters.
pub fn search_request(args: &JsonValue) -> (r: Result<SearchRequest, String>)
    ensures
        match r {
            Ok(req) => search_request_of(*args) == Ok::<(bool, usize, Option<(Option<Seq<char>>, Option<Seq<char>>)>), Seq<char>>(request_view(req)),
            Err(e) => search_request_of(*args) == Err::<(bool, usize, Option<(Option<Seq<char>>, Option<Seq<char>>)>), Seq<char>>(e@),
        },
{
    let is_single = args.get("query").is_some();
    let is_batch = args.get("queries").is_some();
    if !is_single && !is_batch {
        return Err("Either 'query' or 'queries' must be provided".to_owned());
    }
    if is_single && is_batch {
        return Err("Provide either 'query' or 'queries', not both".to_owned());
    }
    let schema = search_schema(is_single);
    match validate_tool_input(&schema, args) {
        Ok(()) => {},
        Err(e) => {
            return Err(concat2("Invalid arguments: ", e.as_str()));
        },
    }
    let top_k: usize = match args.get("top_k") {
        Some(v) => match v.as_u64() {
            Some(n) => {
                if n < 1 || n > MAX_TOP_K as u64 {
                    return Err("top_k must be between 1 and 100".to_owned());
                }
                n as usize
            },
            None => {
                return Err("top_k must be between 1 and 100".to_owned());
            },
        },
        None => DEFAULT_TOP_K,
    };
    let filters = match args.get("filters") {
        Some(f) => {
            if !f.is_object() {
                return Err("filters must be an object".to_owned());
            }
            let file_extension = copy_str_member(f, "file_extension");
            let symbol_kind = copy_str_member(f, "symbol_kind");
            match f.get("crates") {
                Some(c) => {
                    if !c.is_array() {
                        return Err("crates must be an array if provided".to_owned());
                    }
                },
                None => {},
            }
            Some(SearchFilters { file_extension, symbol_kind })
        },
        None => None,
    };
    Ok(SearchRequest { single: is_single, top_k, filters })
}

/// The message for a query that is too long.
pub open spec fn long_query_message(len: usize) -> Seq<char> {
    "Query exceeds maximum length of 4096 characters (got "@ + decimal(len as nat) + ")"@
}

/// The message for a batch query that is not a string.
pub open spec fn not_string_message(i: nat) -> Seq<char> {
    "Query at index "@ + decimal(i) + " is not a valid string"@
}

/// The message for a batch query that is too long.
pub open spec fn long_batch_query_message(i: nat, len: usize) -> Seq<char> {
    "Query at index "@ + decimal(i) + " exceeds maximum length of 4096 characters (got "@ + decimal(len as nat)
        + ")"@
}

/// The first batch query (from index `i` on) that is refused, with its message.
pub open spec fn batch_error(qs: Seq<JsonValue>, i: int) -> Option<Seq<char>>
    decreases qs.len() - i,
{
    if i < 0 || i >= qs.len() {
        None
    } else {
        match string_of_value(qs[i]) {
            None => Some(not_string_message(i as nat)),
            Some(q) => if str_len(q) > MAX_QUERY_BYTES {
                Some(long_batch_query_message(i as nat, str_len(q)))
            } else {
                batch_error(qs, i + 1)
            },
        }
    }
}

/// The queries of a checked search request, or why one is refused.
pub open spec fn queries_of(args: JsonValue, single: bool) -> Result<Seq<Seq<char>>, Seq<char>> {
    if single {
        match str_member(args, "query"@) {
            None => Err("Missing or invalid 'query' argument"@),
            Some(q) => if str_len(q) > MAX_QUERY_BYTES { Err(long_query_message(str_len(q))) } else { Ok(seq![q]) },
        }
    } else {
        match member(args, "queries"@) {
            Some(JsonValue::Array(qs)) => match batch_error(qs@, 0) {
                Some(e) => Err(e),
                None => Ok(qs@.map_values(|q: JsonValue| string_of_value(q)->0)),
            },
            _ => Err("Missing or invalid 'queries' argument"@),
        }
    }
}

/// The message for a question that is too long.
pub open spec fn long_question_message(len: usize) -> Seq<char> {
    "Question exceeds maximum length of 4096 characters (got "@ + decimal(len as nat) + ")"@
}

/// The question of a `rag_query` call: its `question` member, a string of
/// at most 4096 bytes.
pub open spec fn question_of(args: JsonValue) -> Result<Seq<char>, Seq<char>> {
    match str_member(args, "question"@) {
        Some(q) => if str_len(q) > MAX_QUERY_BYTES { Err(long_question_message(str_len(q))) } else { Ok(q) },
        None => Err("Missing or invalid 'question' argument"@),
    }
}

/// The question of a `rag_query` call (see [`question_of`]).
pub fn query_question(args: &JsonValue) -> (r: Result<String, String>)
    ensures
        match r {
            Ok(q) => question_of(*args) == Ok::<Seq<char>, Seq<char>>(q@),
            Err(e) => question_of(*args) == Err::<Seq<char>, Seq<char>>(e@),
        },
{
    let q = match copy_str_member(args, "question") {
        Some(q) => q,
        None => {
            return Err("Missing or invalid 'question' argument".to_owned());
        },
    };
    let n = q.as_str().len();
    if n > MAX_QUERY_BYTES {
        return Err(concat3("Question exceeds maximum length of 4096 characters (got ", decimal_string(n).as_str(), ")"));
    }
    Ok(q)
}

/// The queries of a search call: its `query`, or each of its `queries`;
/// each must be a string of at most 4096 bytes.
pub fn search_queries(args: &JsonValue, single: bool) -> (r: Result<Vec<String>, String>)
    ensures
        match r {
            Ok(qs) => queries_of(*args, single) == Ok::<Seq<Seq<char>>, Seq<char>>(qs@.map_values(|q: String| q@)),
            Err(e) => queries_of(*args, single) == Err::<Seq<Seq<char>>, Seq<char>>(e@),
        },
{
    if single {
        let q = match copy_str_member(args, "query") {
            Some(q) => q,
            None => {
                return Err("Missing or invalid 'query' argument".to_owned());
            },
        };
        let n = q.as_str().len();
        if n > MAX_QUERY_BYTES {
            return Err(concat3("Query exceeds maximum length of 4096 characters (got ", decimal_string(n).as_str(), ")"));
        }
        let mut out: Vec<String> = Vec::new();
        out.push(q);
        proof {
            assert(out@.map_values(|q: String| q@) =~= seq![out@[0]@]);
        }
        return Ok(out);
    }
    let qs = match args.get("queries") {
        Some(JsonValue::Array(qs)) => qs,
        _ => {
            return Err("Missing or invalid 'queries' argument".to_owned());
        },
    };
    let mut out: Vec<String> = Vec::new();
    let mut i: usize = 0;
    while i < qs.len()
        invariant
            !single,
            member(*args, "queries"@) == Some(JsonValue::Array(*qs)),
            i <= qs@.len(),
            batch_error(qs@, 0) == batch_error(qs@, i as int),
            out@.len() == i,
            forall|k: int| 0 <= k < i ==> string_of_value(#[trigger] qs@[k]) == Some(out@[k]@),
        decreases qs@.len() - i,
    {
        let q = match qs[i].as_str() {
            Some(q) => q,
            None => {
                let a = concat3("Query at index ", decimal_string(i).as_str(), " is not a valid string");
                return Err(a);
            },
        };
        let n = q.len();
        if n > MAX_QUERY_BYTES {
            let a = concat3("Query at index ", decimal_string(i).as_str(), " exceeds maximum length of 4096 characters (got ");
            return Err(concat3(a.as_str(), decimal_string(n).as_str(), ")"));
        }
        out.push(q.to_owned());
        i += 1;
    }
    proof {
        assert(out@.map_values(|q: String| q@) =~= qs@.map_values(|q: JsonValue| string_of_value(q)->0));
    }
    Ok(out)
}

// ---------------------------------------------------------------------------
// The file-read tool
// ---------------------------------------------------------------------------

/// The file a read call names, or why its arguments are refused.
pub open spec fn file_read_path_of(args: JsonValue) -> Result<Seq<char>, Seq<char>> {
    match input_error(file_read_schema_view(), args) {
        Some(e) => Err("Invalid arguments: "@ + e),
        None => match str_member(args, "file_path"@) {
            Some(p) => Ok(p),
            None => Err("Missing or invalid 'file_path' argument"@),
        },
    }
}

/// The relative path a file-read call names.
pub fn file_read_path(args: &JsonValue) -> (r: Result<String, String>)
    ensures
        match r {
            Ok(p) => file_read_path_of(*args) == Ok::<Seq<char>, Seq<char>>(p@),
            Err(e) => file_read_path_of(*args) == Err::<Seq<char>, Seq<char>>(e@),
        },
{
    let schema = file_read_schema();
    match validate_tool_input(&schema, args) {
        Ok(()) => {},
        Err(e) => {
            return Err(concat2("Invalid arguments: ", e.as_str()));
        },
    }
    match copy_str_member(args, "file_path") {
        Some(p) => Ok(p),
        None => Err("Missing or invalid 'file_path' argument".to_owned()),
    }
}

/// Whether path `a` starts with the components of path `b` (`Path::starts_with`).
pub uninterp spec fn path_has_prefix(a: Seq<char>, b: Seq<char>) -> bool;

/// `Path::starts_with`: the result is the named relation of the arguments.
#[verifier::external_body]
fn path_starts_with(a: &str, b: &str) -> (r: bool)
    ensures
        r == path_has_prefix(a@, b@),
{
    std::path::Path::new(a).starts_with(b)
}

/// Refuses a canonical file path outside the canonical workspace root.
pub fn check_within_workspace(canonical_file: &str, canonical_root: &str) -> (r: Result<(), String>)
    ensures
        r is Ok <==> path_has_prefix(canonical_file@, canonical_root@),
        r matches Err(e) ==> e@ == "Access denied: file outside workspace root"@,
{
    if !path_starts_with(canonical_file, canonical_root) {
        return Err("Access denied: file outside workspace root".to_owned());
    }
    Ok(())
}

/// Largest file a read call returns, in bytes.
pub const MAX_FILE_BYTES: usize = 100_000;

/// The part of a file a read call returns.
#[derive(Debug)]
pub struct FileRange {
    /// The returned text.
    pub content: String,
    /// First line (1-based) asked for.
    pub start: usize,
    /// Last line returned (0 when none).
    pub end: usize,
    /// Number of lines of the file.
    pub total_lines: usize,
}

/// The lines of a file, as `str::lines` yields them.
pub open spec fn file_lines(content: Seq<char>) -> Seq<Seq<char>> {
    crate::text::lines_of(content)
}

/// What a read call returns of `content`: the whole file, or the lines
/// `line_start..=line_end` (1-based, clipped to the file) when both are given.
pub open spec fn file_range_of(args: JsonValue, content: Seq<char>) -> Result<(Seq<char>, usize, usize, nat), Seq<char>> {
    let ls = file_lines(content);
    if str_len(content) > MAX_FILE_BYTES {
        Err("File too large: "@ + decimal(str_len(content) as nat) + " bytes (max 100KB)"@)
    } else if member(args, "line_start"@) is Some && member(args, "line_end"@) is Some {
        let start: usize = match u64_member(args, "line_start"@) { Some(n) => n as usize, None => 1 };
        let end: usize = match u64_member(args, "line_end"@) { Some(n) => n as usize, None => usize::MAX };
        if start < 1 {
            Err("line_start must be >= 1"@)
        } else if end < start {
            Err("line_end must be >= line_start"@)
        } else {
            let actual_end: nat = if end < ls.len() { end as nat } else { ls.len() };
            if start > ls.len() {
                Ok((seq![], start, 0usize, ls.len()))
            } else {
                Ok((crate::text::join(ls.subrange(start - 1, actual_end as int), seq!['\n']), start, actual_end as usize, ls.len()))
            }
        }
    } else {
        Ok((content, 1usize, ls.len() as usize, ls.len()))
    }
}

/// The part of a file a read call returns (see [`file_range_of`]).
pub fn file_read_range(args: &JsonValue, content: &str) -> (r: Result<FileRange, String>)
    ensures
        match r {
            Ok(f) => file_range_of(*args, content@) == Ok::<(Seq<char>, usize, usize, nat), Seq<char>>(
                (f.content@, f.start, f.end, f.total_lines as nat)),
            Err(e) => file_range_of(*args, content@) == Err::<(Seq<char>, usize, usize, nat), Seq<char>>(e@),
        },
{
    let n = content.len();
    if n > MAX_FILE_BYTES {
        return Err(concat3("File too large: ", decimal_string(n).as_str(), " bytes (max 100KB)"));
    }
    let chars = crate::text::chars_of(content);
    let lines = crate::overlap::split_lines(&chars);
    let total = lines.len();
    proof {
        assert(lines@.len() == file_lines(content@).len());
    }
    match (args.get("line_start"), args.get("line_end")) {
        (Some(sv), Some(ev)) => {
            let start: usize = match sv.as_u64() {
                Some(k) => k as usize,
                None => 1,
            };
            let end: usize = match ev.as_u64() {
                Some(k) => k as usize,
                None => usize::MAX,
            };
            if start < 1 {
                return Err("line_start must be >= 1".to_owned());
            }
            if end < start {
                return Err("line_end must be >= line_start".to_owned());
            }
            let actual_end = if end < total { end } else { total };
            if start > total {
                return Ok(FileRange { content: String::new(), start, end: 0, total_lines: total });
            }
            let text = if start - 1 < actual_end {
                string_of_chars(crate::overlap::join_lines(&lines, start - 1, actual_end))
            } else {
                proof {
                    assert(file_lines(content@).subrange(start - 1, actual_end as int) =~= Seq::<Seq<char>>::empty());
                }
                String::new()
            };
            Ok(FileRange { content: text, start, end: actual_end, total_lines: total })
        },
        _ => Ok(FileRange { content: content.to_owned(), start: 1, end: total, total_lines: total }),
    }
}

/// A string of the given characters.
fn string_of_chars(v: Vec<char>) -> (s: String)
    ensures
        s@ == v@,
{
    crate::text::string_of(v.as_slice())
}

// ---------------------------------------------------------------------------
// Requests and replies
// ---------------------------------------------------------------------------

/// A JSON-RPC 2.0 reply.
#[derive(Debug)]
pub struct JsonRpcResponse {
    /// Always `"2.0"`.
    pub jsonrpc: String,
    /// The result of a successful call.
    pub result: Option<JsonValue>,
    /// The error of a failed call.
    pub error: Option<JsonRpcError>,
    /// The id of the request answered.
    pub id: Option<JsonValue>,
}

/// A successful reply.
pub fn ok_response(id: Option<JsonValue>, result: JsonValue) -> (r: JsonRpcResponse)
    ensures
        r.jsonrpc@ == "2.0"@,
        r.result == Some(result),
        r.error is None,
        r.id == id,
{
    JsonRpcResponse { jsonrpc: "2.0".to_owned(), result: Some(result), error: None, id }
}

/// An error reply.
pub fn err_response(id: Option<JsonValue>, code: i32, message: &str) -> (r: JsonRpcResponse)
    ensures
        r.jsonrpc@ == "2.0"@,
        r.result is None,
        r.error matches Some(e) && e.code == code && e.message@ == message@,
        r.id == id,
{
    JsonRpcResponse {
        jsonrpc: "2.0".to_owned(),
        result: None,
        error: Some(JsonRpcError { code, message: message.to_owned() }),
        id,
    }
}

/// Error code of a request that could not be parsed.
pub const PARSE_ERROR: i32 = -32700;

/// Error code of a request that failed.
pub const INTERNAL_ERROR: i32 = -32603;

/// Error code of a request for a method the server does not have.
pub const METHOD_NOT_FOUND: i32 = -32601;

/// Longest error text quoted in a reply, in characters.
pub const MAX_ERROR_CHARS: usize = 256;

/// The message of a failed request: `Internal error: ` and the error's
/// first 256 characters.
pub open spec fn internal_error_text(message: Seq<char>) -> Seq<char> {
    "Internal error: "@ + (if message.len() > MAX_ERROR_CHARS { message.take(MAX_ERROR_CHARS as int) } else { message })
}

/// The message of a failed request (see [`internal_error_text`]).
pub fn internal_error_message(message: &str) -> (r: String)
    ensures
        r@ == internal_error_text(message@),
{
    let chars = crate::text::chars_of(message);
    let mut kept: Vec<char> = Vec::new();
    let mut i: usize = 0;
    while i < chars.len() && i < MAX_ERROR_CHARS
        invariant
            i <= chars@.len(),
            i <= MAX_ERROR_CHARS,
            kept@ == chars@.take(i as int),
        decreases chars@.len() - i,
    {
        kept.push(chars[i]);
        proof {
            assert(chars@.take(i + 1) =~= chars@.take(i as int).push(chars@[i as int]));
        }
        i += 1;
    }
    proof {
        if chars@.len() <= MAX_ERROR_CHARS {
            assert(chars@.take(i as int) =~= chars@);
        }
    }
    let tail = crate::text::string_of(kept.as_slice());
    concat2("Internal error: ", tail.as_str())
}

/// The tools the server offers.
#[derive(Clone, Copy, Debug, PartialEq, Eq, Structural)]
pub enum Tool {
    Search,
    Query,
    WorkspaceInfo,
    FileRead,
}

/// The tool a call names.
pub open spec fn tool_named(name: Seq<char>) -> Result<Tool, Seq<char>> {
    if name == "rag_search"@ {
        Ok(Tool::Search)
    } else if name == "rag_query"@ {
        Ok(Tool::Query)
    } else if name == "rag_workspace_info"@ {
        Ok(Tool::WorkspaceInfo)
    } else if name == "rag_file_read"@ {
        Ok(Tool::FileRead)
    } else {
        Err("Unknown tool: "@ + name)
    }
}

/// The tool a `tools/call` request names.
pub fn tool_for(name: &str) -> (r: Result<Tool, String>)
    ensures
        match r {
            Ok(t) => tool_named(name@) == Ok::<Tool, Seq<char>>(t),
            Err(e) => tool_named(name@) == Err::<Tool, Seq<char>>(e@),
        },
{
    if str_eq(name, "rag_search") {
        Ok(Tool::Search)
    } else if str_eq(name, "rag_query") {
        Ok(Tool::Query)
    } else if str_eq(name, "rag_workspace_info") {
        Ok(Tool::WorkspaceInfo)
    } else if str_eq(name, "rag_file_read") {
        Ok(Tool::FileRead)
    } else {
        Err(concat2("Unknown tool: ", name))
    }
}

/// What the server does with a request.
#[derive(Debug)]
pub enum McpStep {
    /// Run the named tool (`tools/call`).
    CallTool,
    /// Answer the `initialize` handshake.
    Initialized,
    /// Answer with an empty object.
    Acknowledged,
    /// Answer with the list of tools.
    ToolList,
    /// Answer with an internal error carrying this message.
    Failed(String),
    /// Answer that the method does not exist (`METHOD_NOT_FOUND`), with this message.
    MethodNotFound(String),
}

/// The step for a request, and whether the server is initialized after it.
pub open spec fn step_of(method: Seq<char>, initialized: bool, index_exists: bool) -> (McpStepView, bool) {
    if method == "tools/call"@ {
        (McpStepView::CallTool, initialized)
    } else if method == "initialize"@ {
        if index_exists {
            (McpStepView::Initialized, true)
        } else {
            (McpStepView::Failed("No index found. Run `rust-rag index <path>` first."@), initialized)
        }
    } else if method == "notifications/initialized"@ {
        (McpStepView::Acknowledged, true)
    } else if method == "tools/list"@ {
        if initialized {
            (McpStepView::ToolList, initialized)
        } else {
            (McpStepView::Failed("Not initialized. Call 'initialize' first."@), initialized)
        }
    } else {
        (McpStepView::MethodNotFound("Method not found: "@ + method), initialized)
    }
}

/// A step as a plain value.
pub enum McpStepView {
    CallTool,
    Initialized,
    Acknowledged,
    ToolList,
    Failed(Seq<char>),
    MethodNotFound(Seq<char>),
}

/// A step as a plain value.
pub open spec fn step_view(s: McpStep) -> McpStepView {
    match s {
        McpStep::CallTool => McpStepView::CallTool,
        McpStep::Initialized => McpStepView::Initialized,
        McpStep::Acknowledged => McpStepView::Acknowledged,
        McpStep::ToolList => McpStepView::ToolList,
        McpStep::Failed(m) => McpStepView::Failed(m@),
        McpStep::MethodNotFound(m) => McpStepView::MethodNotFound(m@),
    }
}

impl McpState {
    /// Decides what to do with a request for `method`; `index_exists`
    /// tells whether the store holds an index. The handshake marks the
    /// server initialized; listing tools needs that.
    pub fn dispatch_step(&mut self, method: &str, index_exists: bool) -> (s: McpStep)
        ensures
            (step_view(s), final(self).is_initialized()) == step_of(method@, old(self).is_initialized(), index_exists),
            final(self).store() == old(self).store(),
    {
        if str_eq(method, "tools/call") {
            return McpStep::CallTool;
        }
        if str_eq(method, "initialize") {
            if !index_exists {
                return McpStep::Failed("No index found. Run `rust-rag index <path>` first.".to_owned());
            }
            self.initialized = true;
            return McpStep::Initialized;
        }
        if str_eq(method, "notifications/initialized") {
            self.initialized = true;
            return McpStep::Acknowledged;
        }
        if str_eq(method, "tools/list") {
            return match self.require_initialized() {
                Ok(()) => McpStep::ToolList,
                Err(e) => McpStep::Failed(e),
            };
        }
        McpStep::MethodNotFound(concat2("Method not found: ", method))
    }
}

/// After the handshake, listing tools is always allowed.
pub proof fn lemma_handshake_enables_tools(initialized: bool)
    ensures
        step_of("tools/list"@, step_of("initialize"@, initialized, true).1, true).0 == McpStepView::ToolList,
        step_of("tools/list"@, step_of("notifications/initialized"@, initialized, false).1, false).0 == McpStepView::ToolList,
{
    reveal_strlit("tools/list");
    reveal_strlit("tools/call");
    reveal_strlit("initialize");
    reveal_strlit("notifications/initialized");
    assert("tools/list"@[6] != "tools/call"@[6]);
    assert("tools/list"@[0] != "initialize"@[0]);
    assert("initialize"@[0] != "tools/call"@[0]);
    assert("tools/list"@.len() != "notifications/initialized"@.len());
    assert("notifications/initialized"@.len() != "tools/call"@.len());
    assert("notifications/initialized"@.len() != "initialize"@.len());
}

/// The session's rules: only the handshake marks the session initialized
/// (`initialize` when an index exists, or the client's
/// `notifications/initialized`) and nothing unmarks it; the tool list is
/// answered exactly when the session is initialized; tool calls always go to
/// the tool; any other method is answered as not found.
pub proof fn lemma_session_rules(method: Seq<char>, initialized: bool, index_exists: bool)
    ensures
        step_of(method, initialized, index_exists).1 == (initialized
            || (method == "initialize"@ && index_exists) || method == "notifications/initialized"@),
        method == "tools/list"@ ==>
            (step_of(method, initialized, index_exists).0 == McpStepView::ToolList <==> initialized),
        method == "tools/call"@ ==> step_of(method, initialized, index_exists).0 == McpStepView::CallTool,
        (method != "tools/call"@ && method != "initialize"@ && method != "notifications/initialized"@
            && method != "tools/list"@) ==> step_of(method, initialized, index_exists).0 is MethodNotFound,
{
    lemma_handshake_enables_tools(initialized);
}

// ---------------------------------------------------------------------------
// The tool list
// ---------------------------------------------------------------------------

/// The type a property's schema declares: its `type` member, when a string.
pub open spec fn declared_type(p: JsonValue) -> Option<Seq<char>> {
    match member(p, "type"@) {
        Some(t) => string_of_value(t),
        None => None,
    }
}

/// The texts of an array of strings (an empty text for any other element).
pub open spec fn strings_of(v: Option<JsonValue>) -> Seq<Seq<char>> {
    match v {
        Some(JsonValue::Array(xs)) => xs@.map_values(|x: JsonValue| match x {
            JsonValue::String(s) => s@,
            _ => Seq::<char>::empty(),
        }),
        _ => seq![],
    }
}

/// What a JSON schema declares, as argument checking reads it: each member
/// of its `properties` object with the type it declares, and the names of
/// its `required` array.
pub open spec fn declared_schema(s: Option<JsonValue>) -> (Option<PropsView>, Seq<Seq<char>>) {
    match s {
        Some(v) => (
            match member(v, "properties"@) {
                Some(JsonValue::Object(fs)) => Some(fs@.map_values(|e: (String, JsonValue)| (e.0@, declared_type(e.1)))),
                _ => None,
            },
            strings_of(member(v, "required"@)),
        ),
        None => (None, seq![]),
    }
}

/// The longest text a schema allows for property `key` (its `maxLength`).
pub open spec fn max_length_of(s: Option<JsonValue>, key: Seq<char>) -> Option<u64> {
    match s {
        Some(v) => match member(v, "properties"@) {
            Some(ps) => match member(ps, key) {
                Some(p) => match member(p, "maxLength"@) {
                    Some(n) => u64_of_value(n),
                    None => None,
                },
                None => None,
            },
            None => None,
        },
        None => None,
    }
}

/// The tools of a tool list (its `tools` array).
pub open spec fn tools_of(v: JsonValue) -> Seq<JsonValue> {
    match member(v, "tools"@) {
        Some(JsonValue::Array(ts)) => ts@,
        _ => seq![],
    }
}

/// The name of each tool of a tool list, in order.
pub open spec fn tool_names(v: JsonValue) -> Seq<Option<Seq<char>>> {
    tools_of(v).map_values(|t: JsonValue| match member(t, "name"@) {
        Some(n) => string_of_value(n),
        None => None,
    })
}

/// The input schema of tool `i` of a tool list.
pub open spec fn tool_input(v: JsonValue, i: int) -> Option<JsonValue> {
    if 0 <= i < tools_of(v).len() { member(tools_of(v)[i], "inputSchema"@) } else { None }
}

/// Form `k` of a schema that offers alternatives (`oneOf`).
pub open spec fn schema_form(s: Option<JsonValue>, k: int) -> Option<JsonValue> {
    match s {
        Some(v) => match member(v, "oneOf"@) {
            Some(a) => element(a, k),
            None => None,
        },
        None => None,
    }
}

/// The schema of the query tool: a required string `question`.
pub open spec fn question_schema_view() -> (Option<PropsView>, Seq<Seq<char>>) {
    (Some(seq![("question"@, Some("string"@))]), seq!["question"@])
}

/// The schema of the workspace-info tool: an optional string `detail_level`.
pub open spec fn workspace_info_schema_view() -> (Option<PropsView>, Seq<Seq<char>>) {
    (Some(seq![("detail_level"@, Some("string"@))]), seq![])
}

/// A string value.
fn jtext(s: &str) -> (v: JsonValue)
    ensures
        v matches JsonValue::String(x) && x@ == s@,
{
    JsonValue::String(s.to_owned())
}

/// A member named `k`.
fn jfield(k: &str, v: JsonValue) -> (f: (String, JsonValue))
    ensures
        f.0@ == k@,
        f.1 == v,
{
    (k.to_owned(), v)
}

/// A property `name` of type `t`, with more members after its `type`.
fn typed_property(name: &str, t: &str, more: Vec<(String, JsonValue)>) -> (f: (String, JsonValue))
    ensures
        f.0@ == name@,
        declared_type(f.1) == Some(t@),
        forall|k: Seq<char>| k != "type"@ ==> #[trigger] member(f.1, k) == lookup(more@, k),
{
    let mut fs: Vec<(String, JsonValue)> = Vec::new();
    fs.push(jfield("type", jtext(t)));
    let ghost first = fs@;
    let ghost m0 = more@;
    let mut more = more;
    fs.append(&mut more);
    proof {
        reveal_strlit("type");
        assert(fs@ =~= first + m0);
        assert(fs@.drop_first() =~= m0);
        assert(fs@[0].0@ == "type"@);
    }
    (name.to_owned(), JsonValue::Object(fs))
}

/// A number that is the integer `n`.
fn jcount(n: u64) -> (v: JsonValue)
    requires
        n <= i64::MAX,
    ensures
        u64_of_value(v) == Some(n),
{
    JsonValue::Number(crate::json::JsonNumber { as_u64: Some(n), as_i64: Some(n as i64) })
}

/// An object schema with the given properties and required names.
fn object_schema(props: Vec<(String, JsonValue)>, required: Vec<&str>) -> (v: JsonValue)
    ensures
        member(v, "properties"@) == Some(JsonValue::Object(props)),
        strings_of(member(v, "required"@)) == required@.map_values(|r: &str| r@),
{
    let mut req: Vec<JsonValue> = Vec::new();
    let mut i: usize = 0;
    while i < required.len()
        invariant
            i <= required@.len(),
            req@.len() == i,
            strings_of(Some(JsonValue::Array(req))) == required@.take(i as int).map_values(|r: &str| r@),
        decreases required@.len() - i,
    {
        let ghost before = req@;
        req.push(jtext(required[i]));
        proof {
            assert(req@ == before.push(req@[i as int]));
            assert(required@.take(i + 1).map_values(|r: &str| r@)
                =~= required@.take(i as int).map_values(|r: &str| r@).push(required@[i as int]@));
            assert(strings_of(Some(JsonValue::Array(req)))
                =~= required@.take(i as int).map_values(|r: &str| r@).push(required@[i as int]@));
        }
        i += 1;
    }
    proof {
        assert(required@.take(required@.len() as int) =~= required@);
    }
    let ghost reqv = JsonValue::Array(req);
    let fs = vec![
        jfield("type", jtext("object")),
        jfield("properties", JsonValue::Object(props)),
        jfield("required", JsonValue::Array(req)),
    ];
    proof {
        lemma_schema_keys();
        assert(fs@.drop_first()[0] == fs@[1]);
        assert(fs@.drop_first().drop_first()[0] == fs@[2]);
        assert(lookup(fs@, "properties"@) == lookup(fs@.drop_first(), "properties"@));
        assert(lookup(fs@, "required"@) == lookup(fs@.drop_first(), "required"@));
        assert(lookup(fs@.drop_first(), "required"@) == lookup(fs@.drop_first().drop_first(), "required"@));
    }
    JsonValue::Object(fs)
}

/// The members describing the `top_k` argument.
fn top_k_details() -> (v: Vec<(String, JsonValue)>) {
    vec![
        jfield("description", jtext("Number of results to return per query (default 5)")),
        jfield("minimum", jcount(1)),
        jfield("maximum", jcount(100)),
    ]
}

/// The members describing the `filters` argument.
fn filters_details() -> (v: Vec<(String, JsonValue)>) {
    let props = vec![
        typed_property("file_extension", "string", vec![jfield("description", jtext("Filter by file extension (e.g., \"rs\")"))]),
        typed_property("symbol_kind", "string", vec![
            jfield("description", jtext("Filter by symbol kind (e.g., \"function\", \"struct\")")),
        ]),
        typed_property("crates", "array", vec![
            jfield("description", jtext("Filter by crate names")),
            jfield("items", JsonValue::Object(vec![jfield("type", jtext("string"))])),
        ]),
    ];
    vec![
        jfield("description", jtext("Optional filters to refine search results")),
        jfield("properties", JsonValue::Object(props)),
        jfield("additionalProperties", JsonValue::Bool(false)),
    ]
}

/// The input schema of the search tool's single or batch form.
fn search_schema_json(single: bool) -> (v: JsonValue)
    ensures
        declared_schema(Some(v)) == search_schema_view(single),
        single ==> max_length_of(Some(v), "query"@) == Some(4096u64),
{
    let first = if single {
        typed_property("query", "string", vec![
            jfield("maxLength", jcount(4096)),
            jfield("description", jtext("The search query")),
        ])
    } else {
        typed_property("queries", "array", vec![
            jfield("description", jtext("Multiple search queries to execute in batch")),
            jfield("items", JsonValue::Object(vec![jfield("type", jtext("string")), jfield("maxLength", jcount(4096))])),
            jfield("minItems", jcount(1)),
            jfield("maxItems", jcount(10)),
        ])
    };
    let props = vec![first, typed_property("top_k", "integer", top_k_details()), typed_property("filters", "object", filters_details())];
    let ghost pv = props@;
    let req = if single { vec!["query"] } else { vec!["queries"] };
    let ghost rv = req@;
    let v = object_schema(props, req);
    proof {
        lemma_schema_keys();
        assert(pv.map_values(|e: (String, JsonValue)| (e.0@, declared_type(e.1))) =~= search_schema_view(single).0->0);
        assert(rv.map_values(|r: &str| r@) =~= search_schema_view(single).1);
    }
    v
}

/// The keys a schema is read by differ from one another.
proof fn lemma_schema_keys()
    ensures
        "type"@ != "properties"@,
        "type"@ != "required"@,
        "properties"@ != "required"@,
        "type"@ != "maxLength"@,
        "type"@ != "oneOf"@,
        "name"@ != "inputSchema"@,
        "type"@.len() == 4,
{
    reveal_strlit("type");
    reveal_strlit("properties");
    reveal_strlit("required");
    reveal_strlit("maxLength");
    reveal_strlit("oneOf");
    reveal_strlit("name");
    reveal_strlit("inputSchema");
    assert("type"@.len() != "properties"@.len());
    assert("type"@.len() != "required"@.len());
    assert("properties"@.len() != "required"@.len());
    assert("type"@.len() != "maxLength"@.len());
    assert("type"@.len() != "oneOf"@.len());
    assert("name"@.len() != "inputSchema"@.len());
}

/// A tool entry: its name, input schema and description.
fn tool_entry(name: &str, schema: JsonValue, description: &str) -> (v: JsonValue)
    ensures
        (match member(v, "name"@) {
            Some(n) => string_of_value(n),
            None => None,
        }) == Some(name@),
        member(v, "inputSchema"@) == Some(schema),
{
    let fs = vec![jfield("name", jtext(name)), jfield("inputSchema", schema), jfield("description", jtext(description))];
    proof {
        lemma_schema_keys();
        assert(fs@.drop_first()[0] == fs@[1]);
        assert(lookup(fs@, "inputSchema"@) == lookup(fs@.drop_first(), "inputSchema"@));
    }
    JsonValue::Object(fs)
}

/// The input schema of the query tool.
fn question_schema_json() -> (v: JsonValue)
    ensures
        declared_schema(Some(v)) == question_schema_view(),
        max_length_of(Some(v), "question"@) == Some(4096u64),
{
    let props = vec![typed_property("question", "string", vec![
        jfield("maxLength", jcount(4096)),
        jfield("description", jtext("Question about the indexed codebase")),
    ])];
    let ghost pv = props@;
    let req = vec!["question"];
    let ghost rv = req@;
    let v = object_schema(props, req);
    proof {
        lemma_schema_keys();
        assert(lookup(pv, "question"@) == Some(pv[0].1));
        assert(pv.map_values(|e: (String, JsonValue)| (e.0@, declared_type(e.1))) =~= question_schema_view().0->0);
        assert(rv.map_values(|r: &str| r@) =~= question_schema_view().1);
    }
    v
}

/// The input schema of the workspace-info tool.
fn workspace_info_schema_json() -> (v: JsonValue)
    ensures
        declared_schema(Some(v)) == workspace_info_schema_view(),
{
    let props = vec![typed_property("detail_level", "string", vec![
        jfield("enum", JsonValue::Array(vec![jtext("summary"), jtext("full")])),
        jfield("description", jtext("Level of detail: 'summary' for crate names and paths, 'full' also includes dependencies from Cargo.toml")),
    ])];
    let ghost pv = props@;
    let req: Vec<&str> = Vec::new();
    let ghost rv = req@;
    let v = object_schema(props, req);
    proof {
        assert(pv.map_values(|e: (String, JsonValue)| (e.0@, declared_type(e.1))) =~= workspace_info_schema_view().0->0);
        assert(rv.map_values(|r: &str| r@) =~= workspace_info_schema_view().1);
    }
    v
}

/// The input schema of the file-read tool.
fn file_read_schema_json() -> (v: JsonValue)
    ensures
        declared_schema(Some(v)) == file_read_schema_view(),
{
    let props = vec![
        typed_property("file_path", "string", vec![
            jfield("description", jtext("Relative path to the file from workspace root (e.g., 'crates/server/src/lib.rs')")),
        ]),
        typed_property("line_start", "integer", vec![
            jfield("description", jtext("Starting line number (1-indexed, inclusive)")),
            jfield("minimum", jcount(1)),
        ]),
        typed_property("line_end", "integer", vec![
            jfield("description", jtext("Ending line number (1-indexed, inclusive)")),
            jfield("minimum", jcount(1)),
        ]),
    ];
    let ghost pv = props@;
    let req = vec!["file_path"];
    let ghost rv = req@;
    let v = object_schema(props, req);
    proof {
        assert(pv.map_values(|e: (String, JsonValue)| (e.0@, declared_type(e.1))) =~= file_read_schema_view().0->0);
        assert(rv.map_values(|r: &str| r@) =~= file_read_schema_view().1);
    }
    v
}

/// The server's answer to `tools/list`: the four tools `rag_search`,
/// `rag_query`, `rag_workspace_info` and `rag_file_read`, in that order,
/// each with an input schema that declares exactly what its arguments are
/// checked against (the search tool's two forms under `oneOf`; a question
/// and a query of at most 4096 characters).
pub fn tools_list() -> (v: JsonValue)
    ensures
        tool_names(v) == seq![Some("rag_search"@), Some("rag_query"@), Some("rag_workspace_info"@), Some("rag_file_read"@)],
        declared_schema(schema_form(tool_input(v, 0), 0)) == search_schema_view(true),
        declared_schema(schema_form(tool_input(v, 0), 1)) == search_schema_view(false),
        max_length_of(schema_form(tool_input(v, 0), 0), "query"@) == Some(4096u64),
        declared_schema(tool_input(v, 1)) == question_schema_view(),
        max_length_of(tool_input(v, 1), "question"@) == Some(4096u64),
        declared_schema(tool_input(v, 2)) == workspace_info_schema_view(),
        declared_schema(tool_input(v, 3)) == file_read_schema_view(),
        forall|i: int| 0 <= i < tool_names(v).len() ==>
            (#[trigger] tool_names(v)[i] matches Some(n) && tool_named(n) is Ok),
        forall|i: int, j: int| 0 <= i < j < tool_names(v).len() ==>
            tool_named(#[trigger] tool_names(v)[i]->0) != tool_named(#[trigger] tool_names(v)[j]->0),
{
    proof {
        lemma_advertised_tools_resolve();
    }
    let single = search_schema_json(true);
    let batch = search_schema_json(false);
    let ghost sg = single;
    let ghost bg = batch;
    let forms = JsonValue::Array(vec![single, batch]);
    let ghost fg = forms;
    let search_input = JsonValue::Object(vec![
        jfield("type", jtext("object")),
        jfield("oneOf", forms),
        jfield("description", jtext("Search parameters - either 'query' (single) or 'queries' (batch) must be provided")),
    ]);
    let ghost si = search_input;
    let question = question_schema_json();
    let ghost qg = question;
    let info = workspace_info_schema_json();
    let ghost ig = info;
    let file = file_read_schema_json();
    let ghost rg = file;
    let tools = vec![
        tool_entry("rag_search", search_input,
            "Search for code chunks by semantic similarity. Returns raw relevant snippets without LLM generation. Supports both single and batch queries."),
        tool_entry("rag_query", question,
            "Full RAG pipeline: retrieves relevant chunks via hybrid search, builds context, and queries the LLM for an answer with source citations."),
        tool_entry("rag_workspace_info", info,
            "Get structured information about the workspace: list of all crates, their paths, dependencies from Cargo.toml, and README.md content."),
        tool_entry("rag_file_read", file,
            "Read the full content of a file within the workspace. Path is relative to the workspace root. Optionally specify line_start and line_end to read a specific range."),
    ];
    let ghost tg = tools@;
    let v = JsonValue::Object(vec![jfield("tools", JsonValue::Array(tools))]);
    proof {
        lemma_schema_keys();
        assert(tools_of(v) == tg);
        assert(tool_names(v) =~= seq![Some("rag_search"@), Some("rag_query"@), Some("rag_workspace_info"@), Some("rag_file_read"@)]);
        assert(tool_input(v, 0) == Some(si));
        match si {
            JsonValue::Object(fs) => {
                assert(lookup(fs@, "oneOf"@) == lookup(fs@.drop_first(), "oneOf"@));
                assert(fs@.drop_first()[0] == fs@[1]);
            },
            _ => {},
        }
        assert(member(si, "oneOf"@) == Some(fg));
        assert(schema_form(tool_input(v, 0), 0) == Some(sg));
        assert(schema_form(tool_input(v, 0), 1) == Some(bg));
        assert(tool_input(v, 1) == Some(qg));
        assert(tool_input(v, 2) == Some(ig));
        assert(tool_input(v, 3) == Some(rg));
    }
    v
}

/// The tool names the server advertises.
pub open spec fn advertised_tools() -> Seq<Seq<char>> {
    seq!["rag_search"@, "rag_query"@, "rag_workspace_info"@, "rag_file_read"@]
}

/// Every advertised tool can be called: each name resolves to a tool, and
/// the four names resolve to four different tools.
pub proof fn lemma_advertised_tools_resolve()
    ensures
        forall|i: int| 0 <= i < advertised_tools().len() ==> #[trigger] tool_named(advertised_tools()[i]) is Ok,
        forall|i: int, j: int| 0 <= i < j < advertised_tools().len() ==>
            tool_named(#[trigger] advertised_tools()[i]) != tool_named(#[trigger] advertised_tools()[j]),
        tool_named("rag_search"@) == Ok::<Tool, Seq<char>>(Tool::Search),
        tool_named("rag_query"@) == Ok::<Tool, Seq<char>>(Tool::Query),
        tool_named("rag_workspace_info"@) == Ok::<Tool, Seq<char>>(Tool::WorkspaceInfo),
        tool_named("rag_file_read"@) == Ok::<Tool, Seq<char>>(Tool::FileRead),
{
    reveal_strlit("rag_search");
    reveal_strlit("rag_query");
    reveal_strlit("rag_workspace_info");
    reveal_strlit("rag_file_read");
    assert("rag_search"@.len() != "rag_query"@.len());
    assert("rag_search"@.len() != "rag_workspace_info"@.len());
    assert("rag_search"@.len() != "rag_file_read"@.len());
    assert("rag_query"@.len() != "rag_workspace_info"@.len());
    assert("rag_query"@.len() != "rag_file_read"@.len());
    assert("rag_workspace_info"@.len() != "rag_file_read"@.len());
}

} // verus!
