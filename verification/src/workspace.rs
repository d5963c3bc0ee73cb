//! What a workspace manifest says about its members, and how members are
//! described to clients.
//!
//! Manifest text is parsed here with `toml`; reading files, expanding glob
//! patterns and listing directories belong to the caller, which hands over
//! the directories each pattern matched.
use vstd::prelude::*;
use crate::json::{JsonValue, member, parse_toml_document, string_of_value, toml_document_of};
use crate::text::{chars_of, concat2, has_prefix, joined, path_join, starts_with, string_of};

verus! {

/// The strings among a list of values, in order.
pub open spec fn strings_in(vs: Seq<JsonValue>) -> Seq<Seq<char>>
    decreases vs.len(),
{
    if vs.len() == 0 {
        seq![]
    } else {
        let rest = strings_in(vs.drop_last());
        match string_of_value(vs.last()) {
            Some(s) => rest.push(s),
            None => rest,
        }
    }
}

/// The string members of an array value (nothing for other values).
pub open spec fn array_strings(v: Option<JsonValue>) -> Seq<Seq<char>> {
    match v {
        Some(JsonValue::Array(vs)) => strings_in(vs@),
        _ => seq![],
    }
}

/// The strings of an array value, in order.
fn collect_strings(v: Option<&JsonValue>) -> (r: Vec<String>)
    ensures
        r@.map_values(|s: String| s@) == array_strings(match v { Some(x) => Some(*x), None => None }),
{
    let vs = match v {
        Some(JsonValue::Array(vs)) => vs,
        _ => {
            let r: Vec<String> = Vec::new();
            proof {
                assert(r@.map_values(|s: String| s@) =~= Seq::<Seq<char>>::empty());
            }
            return r;
        },
    };
    let mut r: Vec<String> = Vec::new();
    let mut i: usize = 0;
    while i < vs.len()
        invariant
            i <= vs@.len(),
            r@.map_values(|s: String| s@) == strings_in(vs@.take(i as int)),
        decreases vs@.len() - i,
    {
        proof {
            assert(vs@.take(i + 1).drop_last() =~= vs@.take(i as int));
            assert(vs@.take(i + 1).last() == vs@[i as int]);
        }
        match vs[i].as_str() {
            Some(s) => {
                let ghost before = r@;
                r.push(s.to_owned());
                proof {
                    assert(r@.map_values(|s: String| s@) =~= before.map_values(|s: String| s@).push(s@));
                }
            },
            None => {},
        }
        i += 1;
    }
    proof {
        assert(vs@.take(vs@.len() as int) =~= vs@);
    }
    r
}

/// The member patterns a manifest names under `workspace.members`.
pub open spec fn member_patterns_of(cargo: JsonValue) -> Seq<Seq<char>> {
    match member(cargo, "workspace"@) {
        Some(w) => array_strings(member(w, "members"@)),
        None => seq![],
    }
}

/// The member patterns of a workspace manifest (`workspace.members`).
pub fn member_patterns(cargo: &JsonValue) -> (r: Vec<String>)
    ensures
        r@.map_values(|s: String| s@) == member_patterns_of(*cargo),
{
    match cargo.get("workspace") {
        Some(w) => collect_strings(w.get("members")),
        None => {
            let r: Vec<String> = Vec::new();
            proof {
                assert(r@.map_values(|s: String| s@) =~= Seq::<Seq<char>>::empty());
            }
            r
        },
    }
}

/// The member directories to index: the directories each pattern matched
/// (a pattern that is not a valid glob stands for itself); when nothing
/// matched, each pattern under the root; without patterns, the root.
pub open spec fn members_of(raw: Seq<Seq<char>>, found: Seq<Option<Seq<Seq<char>>>>, root: Seq<char>) -> Seq<Seq<char>> {
    let paths = found_paths(raw, found);
    if paths.len() == 0 && raw.len() > 0 {
        raw.map_values(|p: Seq<char>| joined(root, p))
    } else if paths.len() == 0 {
        seq![root]
    } else {
        paths
    }
}

/// The matched directories of the patterns, in order.
pub open spec fn found_paths(raw: Seq<Seq<char>>, found: Seq<Option<Seq<Seq<char>>>>) -> Seq<Seq<char>>
    decreases found.len(),
{
    if found.len() == 0 {
        seq![]
    } else {
        let rest = found_paths(raw, found.drop_last());
        match found.last() {
            Some(dirs) => rest + dirs,
            None => rest.push(raw[found.len() - 1]),
        }
    }
}

/// Plain values of the matches of each pattern.
pub open spec fn found_view(found: Seq<Option<Vec<String>>>) -> Seq<Option<Seq<Seq<char>>>> {
    found.map_values(|f: Option<Vec<String>>| match f {
        Some(d) => Some(d@.map_values(|s: String| s@)),
        None => None,
    })
}

/// The member directories to index (see [`members_of`]); `found[i]` holds
/// the directories pattern `i` matched, `None` when it is not a valid glob.
pub fn resolve_members(raw: &Vec<String>, found: &Vec<Option<Vec<String>>>, root: &str) -> (r: Vec<String>)
    requires
        found@.len() == raw@.len(),
    ensures
        r@.map_values(|s: String| s@) == members_of(raw@.map_values(|s: String| s@), found_view(found@), root@),
{
    let ghost rv = raw@.map_values(|s: String| s@);
    let ghost fv = found_view(found@);
    let mut paths: Vec<String> = Vec::new();
    let mut i: usize = 0;
    while i < found.len()
        invariant
            rv == raw@.map_values(|s: String| s@),
            fv == found_view(found@),
            found@.len() == raw@.len(),
            i <= found@.len(),
            paths@.map_values(|s: String| s@) == found_paths(rv, fv.take(i as int)),
        decreases found@.len() - i,
    {
        proof {
            assert(fv.take(i + 1).drop_last() =~= fv.take(i as int));
            assert(fv.take(i + 1).last() == fv[i as int]);
        }
        match &found[i] {
            Some(dirs) => {
                let mut k: usize = 0;
                let ghost before = paths@.map_values(|s: String| s@);
                while k < dirs.len()
                    invariant
                        k <= dirs@.len(),
                        paths@.map_values(|s: String| s@) == before + dirs@.map_values(|s: String| s@).take(k as int),
                    decreases dirs@.len() - k,
                {
                    let ghost pb = paths@;
                    paths.push(dirs[k].clone());
                    proof {
                        assert(paths@.map_values(|s: String| s@) =~= pb.map_values(|s: String| s@).push(dirs@[k as int]@));
                        assert(dirs@.map_values(|s: String| s@).take(k + 1)
                            =~= dirs@.map_values(|s: String| s@).take(k as int).push(dirs@[k as int]@));
                    }
                    k += 1;
                }
                proof {
                    assert(dirs@.map_values(|s: String| s@).take(dirs@.len() as int) =~= dirs@.map_values(|s: String| s@));
                }
            },
            None => {
                let ghost pb = paths@;
                paths.push(raw[i].clone());
                proof {
                    assert(paths@.map_values(|s: String| s@) =~= pb.map_values(|s: String| s@).push(rv[i as int]));
                }
            },
        }
        i += 1;
    }
    proof {
        assert(fv.take(fv.len() as int) =~= fv);
    }
    if paths.len() == 0 && raw.len() > 0 {
        let mut out: Vec<String> = Vec::new();
        let mut j: usize = 0;
        while j < raw.len()
            invariant
                rv == raw@.map_values(|s: String| s@),
                j <= raw@.len(),
                out@.map_values(|s: String| s@) == rv.take(j as int).map_values(|p: Seq<char>| joined(root@, p)),
            decreases raw@.len() - j,
        {
            let ghost ob = out@;
            out.push(path_join(root, raw[j].as_str()));
            proof {
                assert(out@.map_values(|s: String| s@) =~= ob.map_values(|s: String| s@).push(joined(root@, rv[j as int])));
                assert(rv.take(j + 1).map_values(|p: Seq<char>| joined(root@, p))
                    =~= rv.take(j as int).map_values(|p: Seq<char>| joined(root@, p)).push(joined(root@, rv[j as int])));
            }
            j += 1;
        }
        proof {
            assert(rv.take(rv.len() as int) =~= rv);
        }
        return out;
    }
    if paths.len() == 0 {
        let mut out: Vec<String> = Vec::new();
        out.push(root.to_owned());
        proof {
            assert(out@.map_values(|s: String| s@) =~= seq![root@]);
        }
        return out;
    }
    paths
}

/// The member directories the workspace-info tool lists: the manifest's
/// `workspace.members`, or the workspace itself when it has no `workspace`.
pub open spec fn info_members_of(cargo: JsonValue) -> Seq<Seq<char>> {
    match member(cargo, "workspace"@) {
        Some(w) => array_strings(member(w, "members"@)),
        None => seq!["."@],
    }
}

/// The member patterns the workspace-info tool lists (see [`info_members_of`]).
pub fn info_member_patterns(cargo: &JsonValue) -> (r: Vec<String>)
    ensures
        r@.map_values(|s: String| s@) == info_members_of(*cargo),
{
    match cargo.get("workspace") {
        Some(w) => collect_strings(w.get("members")),
        None => {
            let mut r: Vec<String> = Vec::new();
            r.push(".".to_owned());
            proof {
                assert(r@.map_values(|s: String| s@) =~= seq!["."@]);
            }
            r
        },
    }
}

/// The name of a member crate: `package.name`, else `unknown`.
pub open spec fn crate_name_of(manifest: JsonValue) -> Seq<char> {
    match member(manifest, "package"@) {
        Some(p) => match member(p, "name"@) {
            Some(n) => match string_of_value(n) {
                Some(s) => s,
                None => "unknown"@,
            },
            None => "unknown"@,
        },
        None => "unknown"@,
    }
}

/// The name of a member crate from its manifest.
pub fn crate_name(manifest: &JsonValue) -> (r: String)
    ensures
        r@ == crate_name_of(*manifest),
{
    match manifest.get("package") {
        Some(p) => match p.get("name") {
            Some(n) => match n.as_str() {
                Some(s) => s.to_owned(),
                None => "unknown".to_owned(),
            },
            None => "unknown".to_owned(),
        },
        None => "unknown".to_owned(),
    }
}

/// The dependencies a member crate lists, leaving out the workspace's own
/// crates (names starting with `rust-rag`).
pub open spec fn outside_deps_of(names: Seq<Seq<char>>) -> Seq<Seq<char>>
    decreases names.len(),
{
    if names.len() == 0 {
        seq![]
    } else {
        let rest = outside_deps_of(names.drop_last());
        if has_prefix(names.last(), "rust-rag"@) { rest } else { rest.push(names.last()) }
    }
}

/// The outside dependencies are the names that do not start with
/// `rust-rag`, each kept in order.
pub proof fn lemma_outside_deps_filter(names: Seq<Seq<char>>)
    ensures
        outside_deps_of(names) == names.filter(|n: Seq<char>| !has_prefix(n, "rust-rag"@)),
    decreases names.len(),
{
    reveal(Seq::filter);
    if names.len() > 0 {
        lemma_outside_deps_filter(names.drop_last());
    }
}

/// The dependencies of a member crate other than the workspace's own crates.
pub fn outside_dependencies(names: &Vec<String>) -> (r: Vec<String>)
    ensures
        r@.map_values(|s: String| s@) == outside_deps_of(names@.map_values(|s: String| s@)),
{
    let ghost nv = names@.map_values(|s: String| s@);
    let prefix = chars_of("rust-rag");
    let mut r: Vec<String> = Vec::new();
    let mut i: usize = 0;
    while i < names.len()
        invariant
            nv == names@.map_values(|s: String| s@),
            prefix@ == "rust-rag"@,
            i <= names@.len(),
            r@.map_values(|s: String| s@) == outside_deps_of(nv.take(i as int)),
        decreases names@.len() - i,
    {
        proof {
            assert(nv.take(i + 1).drop_last() =~= nv.take(i as int));
            assert(nv.take(i + 1).last() == names@[i as int]@);
        }
        let n = chars_of(names[i].as_str());
        if !starts_with(n.as_slice(), prefix.as_slice()) {
            let ghost before = r@;
            r.push(names[i].clone());
            proof {
                assert(r@.map_values(|s: String| s@) =~= before.map_values(|s: String| s@).push(names@[i as int]@));
            }
        }
        i += 1;
    }
    proof {
        assert(nv.take(nv.len() as int) =~= nv);
    }
    r
}

/// Longest README excerpt, in characters.
pub const README_CHARS: usize = 2000;

/// A member's README as the workspace-info tool shows it: cut after 2000
/// characters with a note.
pub open spec fn readme_excerpt_of(text: Seq<char>) -> Seq<char> {
    if text.len() > README_CHARS { text.take(README_CHARS as int) + "\n... (truncated)"@ } else { text }
}

/// A member's README as the workspace-info tool shows it.
pub fn readme_excerpt(text: &str) -> (r: String)
    ensures
        r@ == readme_excerpt_of(text@),
{
    let chars = chars_of(text);
    if chars.len() > README_CHARS {
        let mut kept: Vec<char> = Vec::new();
        let mut i: usize = 0;
        while i < README_CHARS
            invariant
                i <= README_CHARS,
                README_CHARS < chars@.len(),
                kept@ == chars@.take(i as int),
            decreases README_CHARS - i,
        {
            kept.push(chars[i]);
            proof {
                assert(chars@.take(i + 1) =~= chars@.take(i as int).push(chars@[i as int]));
            }
            i += 1;
        }
        let head = string_of(kept.as_slice());
        return concat2(head.as_str(), "\n... (truncated)");
    }
    text.to_owned()
}

// ---------------------------------------------------------------------------
// Manifest text
// ---------------------------------------------------------------------------

/// The member patterns of a manifest's text: its `workspace.members`, or
/// the parser's message when the text is not TOML.
pub open spec fn manifest_members_of(text: Seq<char>) -> Result<Seq<Seq<char>>, Seq<char>> {
    match toml_document_of(text) {
        Ok(v) => Ok(member_patterns_of(v)),
        Err(e) => Err(e),
    }
}

/// Parses a workspace manifest and gives its member patterns (see
/// [`manifest_members_of`]).
pub fn manifest_member_patterns(text: &str) -> (r: Result<Vec<String>, String>)
    ensures
        match r {
            Ok(ms) => manifest_members_of(text@) == Ok::<Seq<Seq<char>>, Seq<char>>(ms@.map_values(|s: String| s@)),
            Err(e) => manifest_members_of(text@) == Err::<Seq<Seq<char>>, Seq<char>>(e@),
        },
{
    match parse_toml_document(text) {
        Ok(v) => Ok(member_patterns(&v)),
        Err(e) => Err(e),
    }
}

/// The member directories the workspace-info tool lists for a manifest's
/// text (see [`info_members_of`]), or the parser's message.
pub open spec fn manifest_info_members_of(text: Seq<char>) -> Result<Seq<Seq<char>>, Seq<char>> {
    match toml_document_of(text) {
        Ok(v) => Ok(info_members_of(v)),
        Err(e) => Err(e),
    }
}

/// Parses a workspace manifest and gives the member directories the
/// workspace-info tool lists (see [`manifest_info_members_of`]).
pub fn manifest_info_patterns(text: &str) -> (r: Result<Vec<String>, String>)
    ensures
        match r {
            Ok(ms) => manifest_info_members_of(text@) == Ok::<Seq<Seq<char>>, Seq<char>>(ms@.map_values(|s: String| s@)),
            Err(e) => manifest_info_members_of(text@) == Err::<Seq<Seq<char>>, Seq<char>>(e@),
        },
{
    match parse_toml_document(text) {
        Ok(v) => Ok(info_member_patterns(&v)),
        Err(e) => Err(e),
    }
}

/// The names of a manifest's `dependencies` table, in order (none when it
/// has no such table).
pub open spec fn dependency_names_of(manifest: JsonValue) -> Seq<Seq<char>> {
    match member(manifest, "dependencies"@) {
        Some(JsonValue::Object(fields)) => fields@.map_values(|e: (String, JsonValue)| e.0@),
        _ => seq![],
    }
}

/// The names of a manifest's dependencies (see [`dependency_names_of`]).
pub fn dependency_names(manifest: &JsonValue) -> (r: Vec<String>)
    ensures
        r@.map_values(|s: String| s@) == dependency_names_of(*manifest),
{
    let mut r: Vec<String> = Vec::new();
    match manifest.get("dependencies") {
        Some(JsonValue::Object(fields)) => {
            let mut i: usize = 0;
            while i < fields.len()
                invariant
                    i <= fields@.len(),
                    r@.map_values(|s: String| s@) == fields@.take(i as int).map_values(|e: (String, JsonValue)| e.0@),
                decreases fields@.len() - i,
            {
                r.push(fields[i].0.clone());
                proof {
                    assert(fields@.take(i + 1).map_values(|e: (String, JsonValue)| e.0@)
                        =~= fields@.take(i as int).map_values(|e: (String, JsonValue)| e.0@).push(fields@[i as int].0@));
                    assert(r@.map_values(|s: String| s@) =~= fields@.take(i as int).map_values(|e: (String, JsonValue)| e.0@).push(fields@[i as int].0@));
                }
                i += 1;
            }
            proof {
                assert(fields@.take(fields@.len() as int) =~= fields@);
            }
        },
        _ => {
            proof {
                assert(r@.map_values(|s: String| s@) =~= Seq::<Seq<char>>::empty());
            }
        },
    }
    r
}

/// What a member crate's manifest text says: its name and the names of its
/// dependencies, or nothing when the text is not TOML.
pub open spec fn crate_summary_of(text: Seq<char>) -> Option<(Seq<char>, Seq<Seq<char>>)> {
    match toml_document_of(text) {
        Ok(v) => Some((crate_name_of(v), dependency_names_of(v))),
        Err(_) => None,
    }
}

/// Parses a member crate's manifest and gives its name and dependency
/// names (see [`crate_summary_of`]).
pub fn manifest_crate_summary(text: &str) -> (r: Option<(String, Vec<String>)>)
    ensures
        match r {
            Some((n, ds)) => crate_summary_of(text@) == Some((n@, ds@.map_values(|s: String| s@))),
            None => crate_summary_of(text@) is None,
        },
{
    match parse_toml_document(text) {
        Ok(v) => Some((crate_name(&v), dependency_names(&v))),
        Err(_) => None,
    }
}

} // verus!
