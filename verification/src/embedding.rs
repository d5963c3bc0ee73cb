//! The embedding cache's file layout and header checks, and the expected
//! checksums of downloaded model files.
//!
//! Running the embedding model, hashing texts and reading or writing files
//! belong to the caller.
use vstd::prelude::*;
use crate::text::{
    chars_of, concat2, concat3, has_prefix, is_blank, joined, lines_of, path_join, starts_with, string_of,
    str_eq, trim_chars, trimmed, digit, digit_char, push_char, contains_sub, ends_with, has_substring, has_suffix,
};
use crate::overlap::{rows, split_lines};
use crate::vector_store::{lowercase_of, to_lowercase};
use sha2::{Digest, Sha256};
use std::collections::hash_map::DefaultHasher;
use std::hash::{Hash, Hasher};

verus! {

/// Embedding cache: (text hash, embedding) pairs stored in a JSONL file.
#[derive(Debug)]
pub struct EmbedCache {
    path: String,
}

/// Name of the cache file inside the `.rustrag` directory.
pub open spec fn cache_file_name() -> Seq<char> {
    "embed_cache.jsonl"@
}

impl EmbedCache {
    /// Path of the cache file.
    pub closed spec fn file(&self) -> Seq<char> {
        self.path@
    }

    /// Opens the embed cache of a workspace's `.rustrag` directory.
    pub fn open(rustrag_dir: &str) -> (c: Self)
        ensures
            c.file() == joined(rustrag_dir@, cache_file_name()),
    {
        EmbedCache { path: path_join(rustrag_dir, "embed_cache.jsonl") }
    }

    /// Path of the cache file.
    pub fn path(&self) -> (r: &str)
        ensures
            r@ == self.file(),
    {
        self.path.as_str()
    }
}

/// The lowercase hex SHA-256 digest of some bytes.
pub uninterp spec fn sha256_hex_of(data: Seq<u8>) -> Seq<char>;

/// SHA-256 of the bytes (`sha2::Sha256`), formatted as lowercase hex: the
/// result is the named digest of the argument.
#[verifier::external_body]
pub(crate) fn sha256_hex(data: &[u8]) -> (r: String)
    ensures
        r@ == sha256_hex_of(data@),
{
    let mut hasher = Sha256::new();
    hasher.update(data);
    format!("{:x}", hasher.finalize())
}

/// Lowercase hexadecimal digit for `d < 16`.
pub open spec fn hex_digit_char(d: nat) -> char {
    if d < 10 { digit_char(d) }
    else if d == 10 { 'a' }
    else if d == 11 { 'b' }
    else if d == 12 { 'c' }
    else if d == 13 { 'd' }
    else if d == 14 { 'e' }
    else { 'f' }
}

/// Lowercase hexadecimal representation of `n`, without leading zeros
/// (`"0"` for zero): what `format!("{:x}", n)` writes.
pub open spec fn hex(n: nat) -> Seq<char>
    decreases n,
{
    if n < 16 {
        seq![hex_digit_char(n)]
    } else {
        hex(n / 16).push(hex_digit_char(n % 16))
    }
}

fn hex_digit(d: u64) -> (c: char)
    requires
        d < 16,
    ensures
        c == hex_digit_char(d as nat),
{
    if d < 10 { digit(d as usize) }
    else if d == 10 { 'a' }
    else if d == 11 { 'b' }
    else if d == 12 { 'c' }
    else if d == 13 { 'd' }
    else if d == 14 { 'e' }
    else { 'f' }
}

/// Lowercase hexadecimal representation of `n` (see [`hex`]).
pub fn lower_hex(n: u64) -> (r: String)
    ensures
        r@ == hex(n as nat),
    decreases n,
{
    if n < 16 {
        let mut s = String::new();
        push_char(&mut s, hex_digit(n));
        proof {
            assert(s@ =~= seq![hex_digit_char(n as nat)]);
        }
        s
    } else {
        let mut s = lower_hex(n / 16);
        push_char(&mut s, hex_digit(n % 16));
        s
    }
}

/// The 64-bit hash of a string by std's `DefaultHasher`.
pub uninterp spec fn default_hash_of(text: Seq<char>) -> u64;

/// `DefaultHasher::new`, `Hash::hash` for `str` and `Hasher::finish`: std
/// documents that hashers made by `new` all agree, so the result is the
/// named hash of the argument (std does not promise the algorithm across
/// releases).
#[verifier::external_body]
fn default_hash(text: &str) -> (h: u64)
    ensures
        h == default_hash_of(text@),
{
    let mut hasher = DefaultHasher::new();
    text.hash(&mut hasher);
    hasher.finish()
}

/// The key of a text in the embedding cache: its `DefaultHasher` hash in
/// lowercase hexadecimal.
pub fn hash_text(text: &str) -> (r: String)
    ensures
        r@ == hex(default_hash_of(text@) as nat),
{
    let h = default_hash(text);
    lower_hex(h)
}

/// The hex SHA-256 digest of a file's contents.
pub fn content_hash(data: &[u8]) -> (r: String)
    ensures
        r@ == sha256_hex_of(data@),
{
    sha256_hex(data)
}

// ---------------------------------------------------------------------------
// Cache file
// ---------------------------------------------------------------------------

/// The header line that names the model a cache was written for.
pub open spec fn model_header() -> Seq<char> {
    "#model_id="@
}

/// `s` without all leading copies of `p` (`str::trim_start_matches`).
pub open spec fn strip_all_prefix(s: Seq<char>, p: Seq<char>) -> Seq<char>
    decreases s.len(),
{
    if p.len() > 0 && has_prefix(s, p) {
        strip_all_prefix(s.skip(p.len() as int), p)
    } else {
        s
    }
}

/// The non-blank lines of `ls`, in order.
pub open spec fn non_blank(ls: Seq<Seq<char>>) -> Seq<Seq<char>>
    decreases ls.len(),
{
    if ls.len() == 0 {
        seq![]
    } else {
        let rest = non_blank(ls.drop_last());
        if trimmed(ls.last()).len() > 0 { rest.push(ls.last()) } else { rest }
    }
}

/// The non-blank lines are the lines whose trimmed text is not empty, each
/// kept whole and in order.
pub proof fn lemma_non_blank_filter(ls: Seq<Seq<char>>)
    ensures
        non_blank(ls) == ls.filter(|l: Seq<char>| trimmed(l).len() > 0),
    decreases ls.len(),
{
    reveal(Seq::filter);
    if ls.len() > 0 {
        lemma_non_blank_filter(ls.drop_last());
    }
}

/// The entry lines of a cache file for the current model: none when the
/// header names another model; otherwise the non-blank lines after the header.
pub open spec fn cache_lines_of(content: Seq<char>, model_id: Seq<char>) -> Seq<Seq<char>> {
    let ls = lines_of(content);
    if ls.len() > 0 && has_prefix(ls[0], model_header()) {
        if strip_all_prefix(ls[0], model_header()) != model_id {
            seq![]
        } else {
            non_blank(ls.drop_first())
        }
    } else {
        non_blank(ls)
    }
}

/// Entries written after a model's header line are read back for that
/// model and for no other: the cache is dropped when the model changes.
pub proof fn lemma_cache_follows_model(m: Seq<char>, reader: Seq<char>, body: Seq<char>)
    requires
        !m.contains('\n'),
        m.len() == 0 || m.last() != '\r',
        !has_prefix(m, model_header()),
    ensures
        cache_lines_of(model_header() + m + seq!['\n'] + body, reader)
            == (if reader == m { non_blank(lines_of(body)) } else { Seq::<Seq<char>>::empty() }),
{
    reveal_strlit("#model_id=");
    let h = model_header();
    let x = h + m;
    assert(!x.contains('\n')) by {
        if x.contains('\n') {
            let i = choose|i: int| 0 <= i < x.len() && x[i] == '\n';
            if i >= h.len() {
                assert(m[i - h.len()] == '\n');
            }
        }
    }
    assert(x.len() == 0 || x.last() != '\r') by {
        if m.len() > 0 {
            assert(x.last() == m.last());
        }
    }
    crate::text::lemma_lines_of_first_line(x, body);
    assert(h + m + seq!['\n'] + body =~= x + seq!['\n'] + body);
    let ls = lines_of(x + seq!['\n'] + body);
    assert(ls[0] == x);
    assert(x.subrange(0, h.len() as int) =~= h);
    assert(x.skip(h.len() as int) =~= m);
    assert(has_prefix(x, h));
    assert(strip_all_prefix(m, h) == m);
    assert(strip_all_prefix(x, h) == strip_all_prefix(x.skip(h.len() as int), h));
    assert(strip_all_prefix(x, h) == m);
    assert(ls.drop_first() =~= lines_of(body));
}

/// `s` without all leading copies of `p`.
fn strip_all(s: &Vec<char>, p: &Vec<char>) -> (r: Vec<char>)
    ensures
        r@ == strip_all_prefix(s@, p@),
{
    let mut start: usize = 0;
    proof {
        assert(s@.skip(0) =~= s@);
    }
    let slen = s.len();
    let mut more = p.len() > 0 && crate::text::matches_at(s.as_slice(), p.as_slice(), 0);
    proof {
        if p@.len() <= s@.len() {
            assert(s@.skip(0).subrange(0, p@.len() as int) =~= s@.subrange(0, p@.len() as int));
        }
    }
    while more
        invariant
            slen == s@.len(),
            start <= s@.len(),
            strip_all_prefix(s@, p@) == strip_all_prefix(s@.skip(start as int), p@),
            more == (p@.len() > 0 && has_prefix(s@.skip(start as int), p@)),
        decreases s@.len() - start,
    {
        proof {
            assert(start + p@.len() <= s@.len());
            assert(s@.skip(start as int).skip(p@.len() as int) =~= s@.skip(start + p@.len()));
        }
        start = start + p.len();
        more = crate::text::matches_at(s.as_slice(), p.as_slice(), start);
        proof {
            if start + p@.len() <= s@.len() {
                assert(s@.skip(start as int).subrange(0, p@.len() as int) =~= s@.subrange(start as int, start + p@.len()));
            }
        }
    }
    let mut r: Vec<char> = Vec::new();
    let mut i: usize = start;
    while i < s.len()
        invariant
            start <= i <= s@.len(),
            r@ == s@.subrange(start as int, i as int),
        decreases s@.len() - i,
    {
        r.push(s[i]);
        proof {
            assert(s@.subrange(start as int, i + 1) =~= s@.subrange(start as int, i as int).push(s@[i as int]));
        }
        i += 1;
    }
    proof {
        assert(s@.subrange(start as int, s@.len() as int) =~= s@.skip(start as int));
    }
    r
}

/// The entry lines of a cache file for the model `model_id` (see [`cache_lines_of`]).
pub fn cache_entry_lines(content: &str, model_id: &str) -> (r: Vec<String>)
    ensures
        r@.map_values(|l: String| l@) == cache_lines_of(content@, model_id@),
{
    let chars = chars_of(content);
    let lines = split_lines(&chars);
    let ghost ls = rows(lines@);
    let header = chars_of("#model_id=");
    let mut first: usize = 0;
    if lines.len() > 0 && starts_with(lines[0].as_slice(), header.as_slice()) {
        let stored = string_of(strip_all(&lines[0], &header).as_slice());
        proof {
            assert(ls[0] == lines@[0]@);
        }
        if !str_eq(stored.as_str(), model_id) {
            let r: Vec<String> = Vec::new();
            proof {
                assert(r@.map_values(|l: String| l@) =~= Seq::<Seq<char>>::empty());
            }
            return r;
        }
        first = 1;
    }
    let ghost tail = ls.skip(first as int);
    proof {
        assert(first == 1 ==> tail =~= ls.drop_first());
        assert(first == 0 ==> tail =~= ls);
    }
    let mut out: Vec<String> = Vec::new();
    let mut i: usize = first;
    while i < lines.len()
        invariant
            ls == rows(lines@),
            tail == ls.skip(first as int),
            first <= i <= lines@.len(),
            out@.map_values(|l: String| l@) == non_blank(tail.take(i - first)),
        decreases lines@.len() - i,
    {
        proof {
            assert(tail.take(i + 1 - first).drop_last() =~= tail.take(i - first));
            assert(tail.take(i + 1 - first).last() == lines@[i as int]@);
        }
        let t = trim_chars(&lines[i]);
        if t.len() > 0 {
            let ghost before = out@;
            out.push(string_of(lines[i].as_slice()));
            proof {
                assert(out@.map_values(|l: String| l@) =~= before.map_values(|l: String| l@).push(lines@[i as int]@));
            }
        }
        i += 1;
    }
    proof {
        assert(tail.take(lines@.len() - first) =~= tail);
    }
    out
}

// ---------------------------------------------------------------------------
// Expected checksums of model files
// ---------------------------------------------------------------------------

/// The (file, hash) entry of one line `sha256:<file>=<hash>`: both sides
/// trimmed, the hash lowercased; `None` when the line has another form or
/// a side is empty.
pub open spec fn checksum_entry(line: Seq<char>) -> Option<(Seq<char>, Seq<char>)> {
    let pre = "sha256:"@;
    if !has_prefix(line, pre) {
        None
    } else {
        let rest = line.skip(pre.len() as int);
        if exists|i: int| 0 <= i < rest.len() && rest[i] == '=' {
            let i = choose|i: int| 0 <= i < rest.len() && rest[i] == '=' && forall|j: int| 0 <= j < i ==> rest[j] != '=';
            let file = rest.take(i);
            let hash = rest.skip(i + 1);
            if file.len() == 0 || hash.len() == 0 {
                None
            } else {
                Some((trimmed(file), lowercase_of(trimmed(hash))))
            }
        } else {
            None
        }
    }
}

/// The entries of the non-blank lines, in order.
pub open spec fn checksum_entries(ls: Seq<Seq<char>>) -> Seq<(Seq<char>, Seq<char>)>
    decreases ls.len(),
{
    if ls.len() == 0 {
        seq![]
    } else {
        let rest = checksum_entries(ls.drop_last());
        if trimmed(ls.last()).len() == 0 {
            rest
        } else {
            match checksum_entry(ls.last()) {
                Some(e) => rest.push(e),
                None => rest,
            }
        }
    }
}

/// The entry of one checksum line (see [`checksum_entry`]).
fn parse_checksum_line(line: &Vec<char>) -> (r: Option<(String, String)>)
    ensures
        match r {
            Some((f, h)) => checksum_entry(line@) == Some((f@, h@)),
            None => checksum_entry(line@) is None,
        },
{
    let pre = chars_of("sha256:");
    proof {
        reveal_strlit("sha256:");
    }
    if !starts_with(line.as_slice(), pre.as_slice()) {
        return None;
    }
    let ghost rest = line@.skip(7);
    let mut i: usize = 7;
    while i < line.len() && line[i] != '='
        invariant
            7 <= i <= line@.len(),
            rest == line@.skip(7),
            forall|j: int| 0 <= j < i - 7 ==> rest[j] != '=',
        decreases line@.len() - i,
    {
        i += 1;
    }
    if i >= line.len() {
        proof {
            if exists|k: int| 0 <= k < rest.len() && rest[k] == '=' {
                let k = choose|k: int| 0 <= k < rest.len() && rest[k] == '=';
                assert(rest[k] == line@[k + 7]);
            }
        }
        return None;
    }
    proof {
        assert(rest[i - 7] == '=');
        let c = choose|c: int| 0 <= c < rest.len() && rest[c] == '=' && forall|j: int| 0 <= j < c ==> rest[j] != '=';
        assert(c == i - 7);
    }
    let mut file: Vec<char> = Vec::new();
    let mut k: usize = 7;
    while k < i
        invariant
            7 <= k <= i,
            i < line@.len(),
            file@ == line@.subrange(7, k as int),
        decreases i - k,
    {
        file.push(line[k]);
        proof {
            assert(line@.subrange(7, k + 1) =~= line@.subrange(7, k as int).push(line@[k as int]));
        }
        k += 1;
    }
    let mut hash: Vec<char> = Vec::new();
    let mut m: usize = i + 1;
    while m < line.len()
        invariant
            i + 1 <= m <= line@.len(),
            hash@ == line@.subrange(i + 1, m as int),
        decreases line@.len() - m,
    {
        hash.push(line[m]);
        proof {
            assert(line@.subrange(i + 1, m + 1) =~= line@.subrange(i + 1, m as int).push(line@[m as int]));
        }
        m += 1;
    }
    proof {
        assert(file@ =~= rest.take(i - 7));
        assert(hash@ =~= rest.skip(i - 7 + 1));
    }
    if file.len() == 0 || hash.len() == 0 {
        return None;
    }
    let f = string_of(trim_chars(&file).as_slice());
    let h = to_lowercase(string_of(trim_chars(&hash).as_slice()).as_str());
    Some((f, h))
}

/// The expected checksums given as lines `sha256:<file>=<hash>` (the value
/// of the checksum setting), in order; other lines are ignored.
#[verifier::spinoff_prover]
pub fn parse_expected_checksums(value: &str) -> (r: Vec<(String, String)>)
    ensures
        r@.map_values(|e: (String, String)| (e.0@, e.1@)) == checksum_entries(lines_of(value@)),
{
    let chars = chars_of(value);
    let lines = split_lines(&chars);
    let ghost ls = rows(lines@);
    let mut out: Vec<(String, String)> = Vec::new();
    let mut i: usize = 0;
    while i < lines.len()
        invariant
            ls == rows(lines@),
            i <= lines@.len(),
            out@.map_values(|e: (String, String)| (e.0@, e.1@)) == checksum_entries(ls.take(i as int)),
        decreases lines@.len() - i,
    {
        proof {
            assert(ls.take(i + 1).drop_last() =~= ls.take(i as int));
            assert(ls.take(i + 1).last() == lines@[i as int]@);
        }
        if trim_chars(&lines[i]).len() > 0 {
            match parse_checksum_line(&lines[i]) {
                Some(e) => {
                    let ghost before = out@;
                    out.push(e);
                    proof {
                        assert(out@.map_values(|e: (String, String)| (e.0@, e.1@))
                            =~= before.map_values(|e: (String, String)| (e.0@, e.1@)).push((out@.last().0@, out@.last().1@)));
                    }
                },
                None => {},
            }
        }
        i += 1;
    }
    proof {
        assert(ls.take(ls.len() as int) =~= ls);
    }
    out
}

/// The expected hash of `file`: the last entry that names it.
pub open spec fn expected_hash(entries: Seq<(Seq<char>, Seq<char>)>, file: Seq<char>) -> Option<Seq<char>>
    decreases entries.len(),
{
    if entries.len() == 0 {
        None
    } else if entries.last().0 == file {
        Some(entries.last().1)
    } else {
        expected_hash(entries.drop_last(), file)
    }
}

/// Whether a downloaded file's digest may be kept: `Ok(true)` when it
/// matches the expected hash, `Ok(false)` when none is expected, and the
/// mismatch message otherwise.
pub open spec fn checksum_verdict(entries: Seq<(Seq<char>, Seq<char>)>, file: Seq<char>, digest: Seq<char>) -> Result<bool, Seq<char>> {
    match expected_hash(entries, file) {
        None => Ok(false),
        Some(h) => if h == digest {
            Ok(true)
        } else {
            Err("Checksum mismatch for "@ + file + ": expected "@ + h + ", got "@ + digest)
        },
    }
}

proof fn lemma_expected_hash_none(entries: Seq<(Seq<char>, Seq<char>)>, file: Seq<char>)
    ensures
        expected_hash(entries, file) is None <==> forall|i: int| 0 <= i < entries.len() ==> (#[trigger] entries[i]).0 != file,
    decreases entries.len(),
{
    if entries.len() > 0 {
        let front = entries.drop_last();
        lemma_expected_hash_none(front, file);
        let n = entries.len() - 1;
        assert(entries[n] == entries.last());
        if entries.last().0 != file {
            if forall|i: int| 0 <= i < front.len() ==> (#[trigger] front[i]).0 != file {
                assert forall|i: int| 0 <= i < entries.len() implies (#[trigger] entries[i]).0 != file by {
                    if i < n {
                        assert(front[i] == entries[i]);
                    }
                }
            } else {
                let i = choose|i: int| 0 <= i < front.len() && (#[trigger] front[i]).0 == file;
                assert(entries[i] == front[i]);
            }
        }
    }
}

proof fn lemma_expected_hash_last(entries: Seq<(Seq<char>, Seq<char>)>, file: Seq<char>, i: int)
    requires
        0 <= i < entries.len(),
        entries[i].0 == file,
        forall|j: int| i < j < entries.len() ==> (#[trigger] entries[j]).0 != file,
    ensures
        expected_hash(entries, file) == Some(entries[i].1),
    decreases entries.len(),
{
    let front = entries.drop_last();
    let n = entries.len() - 1;
    assert(entries[n] == entries.last());
    if i < n {
        assert(entries.last().0 != file);
        assert(front[i] == entries[i]);
        assert forall|j: int| i < j < front.len() implies (#[trigger] front[j]).0 != file by {
            assert(front[j] == entries[j]);
        }
        lemma_expected_hash_last(front, file, i);
    }
}

/// A downloaded file that no expected entry names is kept unchecked
/// (`Ok(false)`); a named one is checked against the hash of the last entry
/// naming it: kept (`Ok(true)`) when its digest equals that hash, refused
/// otherwise.
pub proof fn lemma_checksum_rules(entries: Seq<(Seq<char>, Seq<char>)>, file: Seq<char>, digest: Seq<char>)
    ensures
        (forall|i: int| 0 <= i < entries.len() ==> (#[trigger] entries[i]).0 != file)
            ==> checksum_verdict(entries, file, digest) == Ok::<bool, Seq<char>>(false),
        forall|i: int| 0 <= i < entries.len() && (#[trigger] entries[i]).0 == file
            && (forall|j: int| i < j < entries.len() ==> (#[trigger] entries[j]).0 != file)
            ==> {
                &&& (checksum_verdict(entries, file, digest) == Ok::<bool, Seq<char>>(true) <==> entries[i].1 == digest)
                &&& (checksum_verdict(entries, file, digest) is Err <==> entries[i].1 != digest)
            },
{
    lemma_expected_hash_none(entries, file);
    assert forall|i: int| 0 <= i < entries.len() && (#[trigger] entries[i]).0 == file
        && (forall|j: int| i < j < entries.len() ==> (#[trigger] entries[j]).0 != file)
        implies {
            &&& (checksum_verdict(entries, file, digest) == Ok::<bool, Seq<char>>(true) <==> entries[i].1 == digest)
            &&& (checksum_verdict(entries, file, digest) is Err <==> entries[i].1 != digest)
        } by {
        lemma_expected_hash_last(entries, file, i);
    }
}

/// Checks a downloaded file's bytes against the expected checksums.
pub fn verify_checksum(expected: &Vec<(String, String)>, file: &str, data: &[u8]) -> (r: Result<bool, String>)
    ensures
        match r {
            Ok(b) => checksum_verdict(expected@.map_values(|e: (String, String)| (e.0@, e.1@)), file@, sha256_hex_of(data@))
                == Ok::<bool, Seq<char>>(b),
            Err(m) => checksum_verdict(expected@.map_values(|e: (String, String)| (e.0@, e.1@)), file@, sha256_hex_of(data@))
                == Err::<bool, Seq<char>>(m@),
        },
{
    let ghost ev = expected@.map_values(|e: (String, String)| (e.0@, e.1@));
    let mut i: usize = expected.len();
    proof {
        assert(ev.take(ev.len() as int) =~= ev);
    }
    while i > 0 && !str_eq(expected[i - 1].0.as_str(), file)
        invariant
            ev == expected@.map_values(|e: (String, String)| (e.0@, e.1@)),
            i <= expected@.len(),
            expected_hash(ev, file@) == expected_hash(ev.take(i as int), file@),
        decreases i,
    {
        proof {
            assert(ev.take(i as int).drop_last() =~= ev.take(i - 1));
        }
        i -= 1;
    }
    if i == 0 {
        proof {
            assert(ev.take(0) =~= Seq::<(Seq<char>, Seq<char>)>::empty());
        }
        return Ok(false);
    }
    proof {
        assert(ev.take(i as int).last() == ev[i - 1]);
    }
    let digest = sha256_hex(data);
    let want = &expected[i - 1].1;
    if *want == digest {
        Ok(true)
    } else {
        let a = concat3("Checksum mismatch for ", file, ": expected ");
        let b = concat3(a.as_str(), want.as_str(), ", got ");
        Err(concat2(b.as_str(), digest.as_str()))
    }
}

// ---------------------------------------------------------------------------
// Downloaded model files
// ---------------------------------------------------------------------------

/// The warning printed for a downloaded model file whose `Content-Type`
/// does not fit it: the ONNX model should be binary, JSON files JSON.
pub open spec fn content_type_warning_of(name: Seq<char>, content_type: Seq<char>) -> Option<Seq<char>> {
    if name == "model.onnx"@ && !has_substring(content_type, "application/octet-stream"@)
        && !has_substring(content_type, "x-application"@) {
        Some("  [warning] model.onnx returned Content-Type: "@ + content_type + " (expected application/octet-stream)"@)
    } else if has_suffix(name, ".json"@) && !has_substring(content_type, "application/json"@) {
        Some("  [warning] "@ + name + " returned Content-Type: "@ + content_type + " (expected application/json)"@)
    } else {
        None
    }
}

/// The warning for a downloaded file's `Content-Type`, if any (see
/// [`content_type_warning_of`]).
pub fn content_type_warning(name: &str, content_type: &str) -> (r: Option<String>)
    ensures
        match r {
            Some(w) => content_type_warning_of(name@, content_type@) == Some(w@),
            None => content_type_warning_of(name@, content_type@) is None,
        },
{
    let ct = chars_of(content_type);
    let binary = contains_sub(ct.as_slice(), chars_of("application/octet-stream").as_slice())
        || contains_sub(ct.as_slice(), chars_of("x-application").as_slice());
    if str_eq(name, "model.onnx") && !binary {
        return Some(concat3("  [warning] model.onnx returned Content-Type: ", content_type, " (expected application/octet-stream)"));
    }
    let json_name = ends_with(chars_of(name).as_slice(), chars_of(".json").as_slice());
    if json_name && !contains_sub(ct.as_slice(), chars_of("application/json").as_slice()) {
        let head = concat3("  [warning] ", name, " returned Content-Type: ");
        return Some(concat3(head.as_str(), content_type, " (expected application/json)"));
    }
    None
}

} // verus!
