//! The symbolic side of the vector store: search filters, symbol-kind
//! parsing and the tokenizer of the keyword (BM25) index.
//!
//! Similarity scores are floating point and computed by the caller; this
//! module decides which documents a search may return and which terms a
//! text holds.
use vstd::prelude::*;
use crate::error::RagCoreError;
use crate::indexer::{SymbolKind, kind_display_name, kind_storage_name};

verus! {

/// The lowercase form of a string (`str::to_lowercase`).
pub uninterp spec fn lowercase_of(s: Seq<char>) -> Seq<char>;

/// The extension of the last component of a path (`Path::extension`).
pub uninterp spec fn extension_of(path: Seq<char>) -> Option<Seq<char>>;

/// Whether a character is alphabetic or numeric (`char::is_alphanumeric`).
pub uninterp spec fn alphanumeric(c: char) -> bool;

/// Every character is ASCII.
pub open spec fn ascii_text(s: Seq<char>) -> bool {
    forall|i: int| 0 <= i < s.len() ==> (#[trigger] s[i] as u32) < 128
}

/// An ASCII upper-case letter as lower case; any other character as it is.
pub open spec fn ascii_lower_char(c: char) -> char {
    if 65 <= (c as u32) <= 90 { ((c as u32) + 32) as char } else { c }
}

/// The text with its ASCII upper-case letters made lower case.
pub open spec fn ascii_lower(s: Seq<char>) -> Seq<char> {
    s.map_values(|c: char| ascii_lower_char(c))
}

/// `str::to_lowercase`: the result is the named lowercase form of the
/// argument; an ASCII text keeps its characters but for `A`..`Z`, which
/// become `a`..`z` (Unicode's lower case of the ASCII letters).
#[verifier::external_body]
pub(crate) fn to_lowercase(s: &str) -> (r: String)
    ensures
        r@ == lowercase_of(s@),
        ascii_text(s@) ==> r@ == ascii_lower(s@),
{
    s.to_lowercase()
}

/// `Path::extension` on the path, each part converted lossily to a string:
/// the result is the named extension of the argument.
#[verifier::external_body]
fn path_extension(path: &str) -> (r: Option<String>)
    ensures
        match r {
            Some(e) => extension_of(path@) == Some(e@),
            None => extension_of(path@) is None,
        },
{
    std::path::Path::new(path).extension().map(|e| e.to_string_lossy().to_string())
}

/// `char::is_alphanumeric`: the result is the named class of the argument.
#[verifier::external_body]
fn is_alphanumeric(c: char) -> (r: bool)
    ensures
        r == alphanumeric(c),
{
    c.is_alphanumeric()
}

/// The symbol kind named by a lowercase storage name.
pub open spec fn kind_named(s: Seq<char>) -> Option<SymbolKind> {
    if s == kind_storage_name(SymbolKind::Function) {
        Some(SymbolKind::Function)
    } else if s == kind_storage_name(SymbolKind::ImplBlock) {
        Some(SymbolKind::ImplBlock)
    } else if s == kind_storage_name(SymbolKind::UnsafeRegion) {
        Some(SymbolKind::UnsafeRegion)
    } else if s == kind_storage_name(SymbolKind::TraitImpl) {
        Some(SymbolKind::TraitImpl)
    } else if s == kind_storage_name(SymbolKind::Module) {
        Some(SymbolKind::Module)
    } else if s == kind_storage_name(SymbolKind::Struct) {
        Some(SymbolKind::Struct)
    } else if s == kind_storage_name(SymbolKind::Enum) {
        Some(SymbolKind::Enum)
    } else if s == kind_storage_name(SymbolKind::Macro) {
        Some(SymbolKind::Macro)
    } else {
        None
    }
}

/// The storage name of a symbol kind.
fn storage_name(k: SymbolKind) -> (r: &'static str)
    ensures
        r@ == kind_storage_name(k),
{
    match k {
        SymbolKind::Function => "function",
        SymbolKind::ImplBlock => "implblock",
        SymbolKind::UnsafeRegion => "unsaferegion",
        SymbolKind::TraitImpl => "traitimpl",
        SymbolKind::Module => "module",
        SymbolKind::Struct => "struct",
        SymbolKind::Enum => "enum",
        SymbolKind::Macro => "macro",
    }
}

/// Parses a symbol kind, ignoring case ("function", "Struct", ...).
pub fn parse_symbol_kind(s: &str) -> (r: Result<SymbolKind, RagCoreError>)
    ensures
        match kind_named(lowercase_of(s@)) {
            Some(k) => r == Ok::<SymbolKind, RagCoreError>(k),
            None => r matches Err(RagCoreError::UnknownSymbolKind(found, id, file))
                && found@ == lowercase_of(s@) && id@.len() == 0 && file@.len() == 0,
        },
        ascii_text(s@) ==> match kind_named(ascii_lower(s@)) {
            Some(k) => r == Ok::<SymbolKind, RagCoreError>(k),
            None => r is Err,
        },
{
    let lower = to_lowercase(s);
    let l = lower.as_str();
    if crate::text::str_eq(l, storage_name(SymbolKind::Function)) {
        Ok(SymbolKind::Function)
    } else if crate::text::str_eq(l, storage_name(SymbolKind::ImplBlock)) {
        Ok(SymbolKind::ImplBlock)
    } else if crate::text::str_eq(l, storage_name(SymbolKind::UnsafeRegion)) {
        Ok(SymbolKind::UnsafeRegion)
    } else if crate::text::str_eq(l, storage_name(SymbolKind::TraitImpl)) {
        Ok(SymbolKind::TraitImpl)
    } else if crate::text::str_eq(l, storage_name(SymbolKind::Module)) {
        Ok(SymbolKind::Module)
    } else if crate::text::str_eq(l, storage_name(SymbolKind::Struct)) {
        Ok(SymbolKind::Struct)
    } else if crate::text::str_eq(l, storage_name(SymbolKind::Enum)) {
        Ok(SymbolKind::Enum)
    } else if crate::text::str_eq(l, storage_name(SymbolKind::Macro)) {
        Ok(SymbolKind::Macro)
    } else {
        Err(RagCoreError::UnknownSymbolKind(lower, String::new(), String::new()))
    }
}

/// Optional metadata filters for search queries.
#[derive(Debug)]
pub struct SearchFilters {
    /// Only documents from files with this extension (e.g., "rs").
    pub file_extension: Option<String>,
    /// Only documents of this symbol kind.
    pub symbol_kind: Option<String>,
}

impl Default for SearchFilters {
    fn default() -> (f: Self)
        ensures
            f.file_extension is None,
            f.symbol_kind is None,
    {
        SearchFilters { file_extension: None, symbol_kind: None }
    }
}

/// The metadata of a stored document that filters look at; a field the
/// document lacks (or that is not a string) is `None`.
#[derive(Debug)]
pub struct DocumentMeta {
    /// The document's file path.
    pub file_path: Option<String>,
    /// The document's stored symbol kind.
    pub symbol_kind: Option<String>,
}

/// The string of an optional field, empty when absent.
pub open spec fn field_or_empty(f: Option<String>) -> Seq<char> {
    match f {
        Some(s) => s@,
        None => seq![],
    }
}

/// Whether a document with this metadata passes the filters.
pub open spec fn passes(f: SearchFilters, doc: DocumentMeta) -> bool {
    &&& (f.file_extension matches Some(ext) ==> match extension_of(field_or_empty(doc.file_path)) {
        Some(e) => e == ext@,
        None => ext@.len() == 0,
    })
    &&& (f.symbol_kind matches Some(want) ==> {
        let stored = kind_named(lowercase_of(field_or_empty(doc.symbol_kind)));
        let wanted = kind_named(lowercase_of(want@));
        stored is Some && wanted is Some && stored == wanted
    })
}

impl SearchFilters {
    /// Whether a document passes the filters: same file extension (a file
    /// without one matches only an empty extension) and same symbol kind
    /// (both must parse).
    pub fn matches(&self, doc: &DocumentMeta) -> (r: bool)
        ensures
            r == passes(*self, *doc),
    {
        match &self.file_extension {
            Some(ext) => {
                let path: &str = match &doc.file_path {
                    Some(p) => p.as_str(),
                    None => "",
                };
                proof {
                    reveal_strlit("");
                    assert(path@ == field_or_empty(doc.file_path));
                }
                let ok = match path_extension(path) {
                    Some(e) => e == *ext,
                    None => ext.as_str().is_empty(),
                };
                if !ok {
                    return false;
                }
            },
            None => {},
        }
        match &self.symbol_kind {
            Some(want) => {
                let stored_str: &str = match &doc.symbol_kind {
                    Some(k) => k.as_str(),
                    None => "",
                };
                proof {
                    reveal_strlit("");
                    assert(stored_str@ == field_or_empty(doc.symbol_kind));
                }
                let stored = match parse_symbol_kind(stored_str) {
                    Ok(k) => k,
                    Err(_) => {
                        return false;
                    },
                };
                let wanted = match parse_symbol_kind(want.as_str()) {
                    Ok(k) => k,
                    Err(_) => {
                        return false;
                    },
                };
                if stored != wanted {
                    return false;
                }
            },
            None => {},
        }
        true
    }
}

/// Whether `c` belongs to a token (alphanumeric or underscore).
pub open spec fn token_char(c: char) -> bool {
    alphanumeric(c) || c == '_'
}

/// The non-empty runs of token characters of `s`, in order.
pub open spec fn tokens_of(s: Seq<char>) -> Seq<Seq<char>>
    decreases s.len(),
{
    if s.len() == 0 {
        seq![]
    } else {
        let rest = tokens_of(s.drop_last());
        let c = s.last();
        if !token_char(c) {
            rest
        } else if s.len() >= 2 && token_char(s[s.len() - 2]) && rest.len() > 0 {
            rest.update(rest.len() - 1, rest.last().push(c))
        } else {
            rest.push(seq![c])
        }
    }
}

/// The terms of a text for the keyword index: the lowercased text split at
/// every character that is neither alphanumeric nor `_`, empty pieces dropped.
pub fn tokenize(text: &str) -> (terms: Vec<String>)
    ensures
        terms@.map_values(|t: String| t@) == tokens_of(lowercase_of(text@)),
{
    let lower = to_lowercase(text);
    let chars = crate::text::chars_of(lower.as_str());
    let ghost s = chars@;
    let mut terms: Vec<String> = Vec::new();
    let mut cur: Vec<char> = Vec::new();
    let mut i: usize = 0;
    while i < chars.len()
        invariant
            s == chars@,
            i <= s.len(),
            cur@.len() > 0 ==> i > 0 && token_char(s[i - 1]),
            i > 0 && token_char(s[i - 1]) ==> cur@.len() > 0,
            (if cur@.len() > 0 {
                terms@.map_values(|t: String| t@).push(cur@)
            } else {
                terms@.map_values(|t: String| t@)
            }) == tokens_of(s.take(i as int)),
        decreases s.len() - i,
    {
        let c = chars[i];
        proof {
            assert(s.take(i + 1).drop_last() =~= s.take(i as int));
            assert(s.take(i + 1).last() == c);
            if i > 0 {
                assert(s.take(i + 1)[i - 1] == s[i - 1]);
            }
        }
        let tc = is_alphanumeric(c) || c == '_';
        if tc {
            let ghost before = cur@;
            cur.push(c);
            proof {
                let done = terms@.map_values(|t: String| t@);
                if before.len() > 0 {
                    assert(done.push(before).update(done.len() as int, before.push(c)) =~= done.push(cur@));
                } else {
                    assert(cur@ =~= seq![c]);
                }
            }
        } else if cur.len() > 0 {
            let word = crate::text::string_of(cur.as_slice());
            let ghost before = terms@;
            terms.push(word);
            proof {
                assert(terms@.map_values(|t: String| t@) =~= before.map_values(|t: String| t@).push(cur@));
            }
            cur = Vec::new();
        }
        i += 1;
    }
    proof {
        assert(s.take(s.len() as int) =~= s);
    }
    if cur.len() > 0 {
        let word = crate::text::string_of(cur.as_slice());
        let ghost before = terms@;
        terms.push(word);
        proof {
            assert(terms@.map_values(|t: String| t@) =~= before.map_values(|t: String| t@).push(cur@));
        }
    }
    terms
}

/// The symbol kind stored with a document: none when the document has no
/// kind; an error naming the kind, the document and its file when the kind
/// is unknown.
pub open spec fn stored_kind_of(kind: Option<Seq<char>>) -> Option<Option<SymbolKind>> {
    match kind {
        None => Some(None),
        Some(k) => match kind_named(lowercase_of(k)) {
            Some(sk) => Some(Some(sk)),
            None => None,
        },
    }
}

/// The symbol kind stored with a search hit (see [`stored_kind_of`]).
pub fn stored_symbol_kind(kind: Option<&str>, doc_id: &str, file_path: &str) -> (r: Result<Option<SymbolKind>, RagCoreError>)
    ensures
        match stored_kind_of(match kind { Some(k) => Some(k@), None => None }) {
            Some(k) => r == Ok::<Option<SymbolKind>, RagCoreError>(k),
            None => r matches Err(RagCoreError::UnknownSymbolKind(found, id, file))
                && found@ == kind->0@ && id@ == doc_id@ && file@ == file_path@,
        },
{
    match kind {
        None => Ok(None),
        Some(k) => match parse_symbol_kind(k) {
            Ok(sk) => Ok(Some(sk)),
            Err(_) => Err(RagCoreError::UnknownSymbolKind(k.to_owned(), doc_id.to_owned(), file_path.to_owned())),
        },
    }
}

/// Every term of a text is non-empty and made of token characters.
pub proof fn lemma_tokens_well_formed(s: Seq<char>)
    ensures
        forall|i: int| 0 <= i < tokens_of(s).len() ==> {
            let t = #[trigger] tokens_of(s)[i];
            t.len() > 0 && forall|j: int| 0 <= j < t.len() ==> token_char(t[j])
        },
    decreases s.len(),
{
    if s.len() > 0 {
        let rest = tokens_of(s.drop_last());
        lemma_tokens_well_formed(s.drop_last());
        let c = s.last();
        if !token_char(c) {
        } else if s.len() >= 2 && token_char(s[s.len() - 2]) && rest.len() > 0 {
            let u = rest.update(rest.len() - 1, rest.last().push(c));
            assert forall|i: int| 0 <= i < u.len() implies {
                let t = #[trigger] u[i];
                t.len() > 0 && forall|j: int| 0 <= j < t.len() ==> token_char(t[j])
            } by {
                if i == rest.len() - 1 {
                    let t0 = rest[i];
                    assert forall|j: int| 0 <= j < u[i].len() implies token_char(u[i][j]) by {
                        if j < t0.len() {
                            assert(u[i][j] == t0[j]);
                        }
                    }
                } else {
                    assert(u[i] == rest[i]);
                }
            }
        } else {
            let u = rest.push(seq![c]);
            assert forall|i: int| 0 <= i < u.len() implies {
                let t = #[trigger] u[i];
                t.len() > 0 && forall|j: int| 0 <= j < t.len() ==> token_char(t[j])
            } by {
                if i < rest.len() {
                    assert(u[i] == rest[i]);
                }
            }
        }
    }
}


// ---------------------------------------------------------------------------
// Keyword statistics
// ---------------------------------------------------------------------------

/// Occurrences of the term `t` in `terms`.
pub open spec fn occurrences(terms: Seq<Seq<char>>, t: Seq<char>) -> nat
    decreases terms.len(),
{
    if terms.len() == 0 {
        0
    } else {
        occurrences(terms.drop_last(), t) + (if terms.last() == t { 1nat } else { 0nat })
    }
}

/// Number of documents (each a list of terms) that hold the term `t`.
pub open spec fn doc_frequency(docs: Seq<Seq<Seq<char>>>, t: Seq<char>) -> nat
    decreases docs.len(),
{
    if docs.len() == 0 {
        0
    } else {
        doc_frequency(docs.drop_last(), t) + (if occurrences(docs.last(), t) > 0 { 1nat } else { 0nat })
    }
}

/// A term occurs in a document as many times as the document lists it, and
/// at least once exactly when the document holds it.
pub proof fn lemma_occurrences_count(terms: Seq<Seq<char>>, t: Seq<char>)
    ensures
        occurrences(terms, t) == terms.filter(|x: Seq<char>| x == t).len(),
        occurrences(terms, t) > 0 <==> terms.contains(t),
    decreases terms.len(),
{
    reveal(Seq::filter);
    if terms.len() > 0 {
        lemma_occurrences_count(terms.drop_last(), t);
        assert(terms.drop_last().push(terms.last()) =~= terms);
        if terms.drop_last().contains(t) {
            let k = choose|k: int| 0 <= k < terms.drop_last().len() && terms.drop_last()[k] == t;
            assert(terms[k] == t);
        }
        if terms.contains(t) && terms.last() != t {
            let k = choose|k: int| 0 <= k < terms.len() && terms[k] == t;
            assert(terms.drop_last()[k] == t);
        }
    }
}

/// The document frequency of a term is the number of documents that hold it.
pub proof fn lemma_doc_frequency_counts(docs: Seq<Seq<Seq<char>>>, t: Seq<char>)
    ensures
        doc_frequency(docs, t) == docs.filter(|d: Seq<Seq<char>>| d.contains(t)).len(),
        doc_frequency(docs, t) <= docs.len(),
    decreases docs.len(),
{
    reveal(Seq::filter);
    if docs.len() > 0 {
        lemma_doc_frequency_counts(docs.drop_last(), t);
        lemma_occurrences_count(docs.last(), t);
    }
}

/// The terms of a document as plain text.
pub open spec fn terms_view(terms: Vec<String>) -> Seq<Seq<char>> {
    terms@.map_values(|t: String| t@)
}

/// The documents' terms as plain text.
pub open spec fn docs_view(docs: Seq<Vec<String>>) -> Seq<Seq<Seq<char>>> {
    docs.map_values(|d: Vec<String>| terms_view(d))
}

/// How often a query term occurs in each document, and in how many
/// documents it occurs: the counts the keyword score is made of.
#[derive(Debug)]
pub struct TermCounts {
    /// Occurrences of the term in each document, in document order.
    pub frequencies: Vec<usize>,
    /// Number of documents that hold the term.
    pub document_frequency: usize,
}

/// Occurrences of `term` in `doc`.
fn count_in(term: &str, doc: &Vec<String>) -> (n: usize)
    ensures
        n == occurrences(terms_view(*doc), term@),
{
    let ghost ts = terms_view(*doc);
    let mut n: usize = 0;
    let mut j: usize = 0;
    while j < doc.len()
        invariant
            ts == terms_view(*doc),
            j <= doc@.len(),
            n <= j,
            n == occurrences(ts.take(j as int), term@),
        decreases doc@.len() - j,
    {
        proof {
            assert(ts.take(j + 1).drop_last() =~= ts.take(j as int));
            assert(ts.take(j + 1).last() == doc@[j as int]@);
        }
        if crate::text::str_eq(doc[j].as_str(), term) {
            n = n + 1;
        }
        j += 1;
    }
    proof {
        assert(ts.take(doc@.len() as int) =~= ts);
    }
    n
}

/// The counts of `term` over the documents' terms (see [`TermCounts`]).
pub fn term_counts(term: &str, docs: &Vec<Vec<String>>) -> (r: TermCounts)
    ensures
        r.frequencies@.len() == docs@.len(),
        forall|d: int| 0 <= d < docs@.len() ==> r.frequencies@[d] == occurrences(terms_view(#[trigger] docs@[d]), term@),
        r.document_frequency == doc_frequency(docs_view(docs@), term@),
{
    let ghost ds = docs_view(docs@);
    let mut frequencies: Vec<usize> = Vec::new();
    let mut df: usize = 0;
    let mut d: usize = 0;
    while d < docs.len()
        invariant
            ds == docs_view(docs@),
            d <= docs@.len(),
            df <= d,
            frequencies@.len() == d,
            forall|k: int| 0 <= k < d ==> frequencies@[k] == occurrences(terms_view(#[trigger] docs@[k]), term@),
            df == doc_frequency(ds.take(d as int), term@),
        decreases docs@.len() - d,
    {
        proof {
            assert(ds.take(d + 1).drop_last() =~= ds.take(d as int));
            assert(ds.take(d + 1).last() == terms_view(docs@[d as int]));
        }
        let n = count_in(term, &docs[d]);
        frequencies.push(n);
        if n > 0 {
            df = df + 1;
        }
        d += 1;
    }
    proof {
        assert(ds.take(docs@.len() as int) =~= ds);
    }
    TermCounts { frequencies, document_frequency: df }
}

/// A storage name in any mix of ASCII cases names its kind: symbol-kind
/// parsing ignores case ("FUNCTION", "Struct" and "eNuM" all parse).
pub proof fn lemma_kind_names_ignore_case(s: Seq<char>, k: SymbolKind)
    requires
        ascii_lower(s) == kind_storage_name(k),
    ensures
        kind_named(ascii_lower(s)) == Some(k),
{
    reveal_strlit("function");
    reveal_strlit("implblock");
    reveal_strlit("unsaferegion");
    reveal_strlit("traitimpl");
    reveal_strlit("module");
    reveal_strlit("struct");
    reveal_strlit("enum");
    reveal_strlit("macro");
    assert("implblock"@.len() != "function"@.len());
    assert("unsaferegion"@.len() != "function"@.len());
    assert("unsaferegion"@.len() != "implblock"@.len());
    assert("traitimpl"@.len() != "function"@.len());
    assert("traitimpl"@[0] != "implblock"@[0]);
    assert("traitimpl"@.len() != "unsaferegion"@.len());
    assert("module"@.len() != "function"@.len());
    assert("module"@.len() != "implblock"@.len());
    assert("module"@.len() != "unsaferegion"@.len());
    assert("module"@.len() != "traitimpl"@.len());
    assert("struct"@.len() != "function"@.len());
    assert("struct"@.len() != "implblock"@.len());
    assert("struct"@.len() != "unsaferegion"@.len());
    assert("struct"@.len() != "traitimpl"@.len());
    assert("struct"@[0] != "module"@[0]);
    assert("enum"@.len() != "function"@.len());
    assert("enum"@.len() != "implblock"@.len());
    assert("enum"@.len() != "unsaferegion"@.len());
    assert("enum"@.len() != "traitimpl"@.len());
    assert("enum"@.len() != "module"@.len());
    assert("enum"@.len() != "struct"@.len());
    assert("macro"@.len() != "function"@.len());
    assert("macro"@.len() != "implblock"@.len());
    assert("macro"@.len() != "unsaferegion"@.len());
    assert("macro"@.len() != "traitimpl"@.len());
    assert("macro"@.len() != "module"@.len());
    assert("macro"@.len() != "struct"@.len());
    assert("macro"@.len() != "enum"@.len());
}

/// Storage names are lower case already.
pub proof fn lemma_storage_names_lower(k: SymbolKind)
    ensures
        ascii_text(kind_storage_name(k)),
        ascii_lower(kind_storage_name(k)) == kind_storage_name(k),
{
    reveal_strlit("function");
    reveal_strlit("implblock");
    reveal_strlit("unsaferegion");
    reveal_strlit("traitimpl");
    reveal_strlit("module");
    reveal_strlit("struct");
    reveal_strlit("enum");
    reveal_strlit("macro");
    let n = kind_storage_name(k);
    assert(ascii_lower(n) =~= n);
}

/// A kind's display name, lower-cased, is its storage name, so display
/// names parse back to their kind.
pub proof fn lemma_display_name_lowercase(k: SymbolKind)
    ensures
        ascii_text(kind_display_name(k)),
        ascii_lower(kind_display_name(k)) == kind_storage_name(k),
        kind_named(ascii_lower(kind_display_name(k))) == Some(k),
{
    reveal_strlit("Function");
    reveal_strlit("function");
    reveal_strlit("ImplBlock");
    reveal_strlit("implblock");
    reveal_strlit("UnsafeRegion");
    reveal_strlit("unsaferegion");
    reveal_strlit("TraitImpl");
    reveal_strlit("traitimpl");
    reveal_strlit("Module");
    reveal_strlit("module");
    reveal_strlit("Struct");
    reveal_strlit("struct");
    reveal_strlit("Enum");
    reveal_strlit("enum");
    reveal_strlit("Macro");
    reveal_strlit("macro");
    assert(ascii_lower(kind_display_name(k)) =~= kind_storage_name(k));
    lemma_kind_names_ignore_case(kind_display_name(k), k);
}

/// Whether document `doc` passes the optional filters (all do without any).
pub open spec fn passes_opt(filters: Option<SearchFilters>, doc: DocumentMeta) -> bool {
    match filters {
        Some(f) => passes(f, doc),
        None => true,
    }
}

/// Among the first `n` ranked documents, those that pass the filters, in
/// rank order.
pub open spec fn passing_hits(ranked: Seq<usize>, metas: Seq<DocumentMeta>, filters: Option<SearchFilters>, n: int) -> Seq<usize>
    decreases n,
{
    if n <= 0 {
        seq![]
    } else {
        passing_hits(ranked, metas, filters, n - 1)
            + if passes_opt(filters, metas[ranked[n - 1] as int]) { seq![ranked[n - 1]] } else { seq![] }
    }
}

/// The hits among the first `n` ranked documents are those of them that pass
/// the filters, each once and in rank order; with no filters, all of them.
pub proof fn lemma_hits_are_passing_prefix(ranked: Seq<usize>, metas: Seq<DocumentMeta>, filters: Option<SearchFilters>, n: int)
    requires
        0 <= n <= ranked.len(),
    ensures
        passing_hits(ranked, metas, filters, n)
            == ranked.take(n).filter(|x: usize| passes_opt(filters, metas[x as int])),
        passing_hits(ranked, metas, filters, n).len() <= n,
        filters is None ==> passing_hits(ranked, metas, filters, n) == ranked.take(n),
    decreases n,
{
    reveal(Seq::filter);
    if n > 0 {
        lemma_hits_are_passing_prefix(ranked, metas, filters, n - 1);
        assert(ranked.take(n).drop_last() =~= ranked.take(n - 1));
        assert(ranked.take(n).last() == ranked[n - 1]);
        assert(ranked.take(n - 1).push(ranked[n - 1]) =~= ranked.take(n));
    } else {
        assert(ranked.take(n) =~= Seq::<usize>::empty());
    }
}

/// The hits a search returns: of the documents ranked best first, the first
/// `top_k` are taken, and of those the ones that pass the filters are kept,
/// in rank order.
pub fn select_hits(ranked: &Vec<usize>, top_k: usize, metas: &Vec<DocumentMeta>, filters: Option<&SearchFilters>) -> (r: Vec<usize>)
    requires
        forall|i: int| 0 <= i < ranked@.len() ==> #[trigger] ranked@[i] < metas@.len(),
    ensures
        r@ == passing_hits(ranked@, metas@, match filters { Some(f) => Some(*f), None => None },
            if top_k < ranked@.len() { top_k as int } else { ranked@.len() as int }),
{
    let ghost fv = match filters { Some(f) => Some(*f), None => None };
    let n = if top_k < ranked.len() { top_k } else { ranked.len() };
    let mut r: Vec<usize> = Vec::new();
    let mut i: usize = 0;
    while i < n
        invariant
            n <= ranked@.len(),
            i <= n,
            forall|k: int| 0 <= k < ranked@.len() ==> #[trigger] ranked@[k] < metas@.len(),
            fv == match filters { Some(f) => Some(*f), None => None::<SearchFilters> },
            r@ == passing_hits(ranked@, metas@, fv, i as int),
        decreases n - i,
    {
        let d = ranked[i];
        let keep = match filters {
            Some(f) => f.matches(&metas[d]),
            None => true,
        };
        if keep {
            r.push(d);
        }
        proof {
            if !keep {
                assert(r@ =~= passing_hits(ranked@, metas@, fv, i as int) + Seq::<usize>::empty());
            }
        }
        i += 1;
    }
    r
}

/// Filters combine by conjunction: a document passes filters with both an
/// extension and a kind exactly when it passes the extension alone and the
/// kind alone; with no filter every document passes.
pub proof fn lemma_filters_conjoin(f: SearchFilters, doc: DocumentMeta)
    ensures
        passes(f, doc) == (passes(SearchFilters { file_extension: f.file_extension, symbol_kind: None }, doc)
            && passes(SearchFilters { file_extension: None, symbol_kind: f.symbol_kind }, doc)),
        passes(SearchFilters { file_extension: None, symbol_kind: None }, doc),
{
}

/// A kind filter rejects a document of another stored kind, and an
/// extension filter a document of another extension, whatever the other
/// filter asks; a document of the asked kind and extension passes.
pub proof fn lemma_filters_reject_others(f: SearchFilters, doc: DocumentMeta)
    ensures
        (f.symbol_kind matches Some(want) && kind_named(lowercase_of(want@)) is Some
            && kind_named(lowercase_of(field_or_empty(doc.symbol_kind))) != kind_named(lowercase_of(want@)))
            ==> !passes(f, doc),
        (f.symbol_kind matches Some(want) && kind_named(lowercase_of(want@)) is None) ==> !passes(f, doc),
        (f.file_extension matches Some(ext) && extension_of(field_or_empty(doc.file_path)) matches Some(e) && e != ext@)
            ==> !passes(f, doc),
        ((f.file_extension matches Some(ext) ==> extension_of(field_or_empty(doc.file_path)) == Some(ext@))
            && (f.symbol_kind matches Some(want) ==> kind_named(lowercase_of(want@)) is Some
                && kind_named(lowercase_of(field_or_empty(doc.symbol_kind))) == kind_named(lowercase_of(want@))))
            ==> passes(f, doc),
{
}

} // verus!
