//! Chunk diagnostics: how many chunks and files an index holds, its symbol
//! kinds, line spans, nesting depths, and how much neighbouring chunks of a
//! file overlap.
//!
//! Averages and percentages are floating point and computed by the caller
//! from the sums and counts given here.
use vstd::prelude::*;
use crate::indexer::{kind_display_name, views, Chunk, ChunkView};
use crate::text::{chars_of, contains_sub, has_substring, str_eq};
use crate::vector_store::occurrences;
use vstd::relations::{antisymmetric, reflexive, sorted_by, strongly_connected, total_ordering, transitive};
use vstd::seq_lib::lemma_sorted_unique;

verus! {

// ---------------------------------------------------------------------------
// Model
// ---------------------------------------------------------------------------

/// The values of `s` without repeats, each where it first occurs.
pub open spec fn distinct(s: Seq<Seq<char>>) -> Seq<Seq<char>>
    decreases s.len(),
{
    if s.len() == 0 {
        seq![]
    } else {
        let r = distinct(s.drop_last());
        if r.contains(s.last()) { r } else { r.push(s.last()) }
    }
}

/// The file of each chunk.
pub open spec fn file_paths(cs: Seq<ChunkView>) -> Seq<Seq<char>> {
    cs.map_values(|c: ChunkView| c.file_path)
}

/// The display name of each chunk's kind.
pub open spec fn kind_names(cs: Seq<ChunkView>) -> Seq<Seq<char>> {
    cs.map_values(|c: ChunkView| kind_display_name(c.symbol_kind))
}

/// A chunk's nesting depth, 0 when it has none.
pub open spec fn depth_or_zero(c: ChunkView) -> nat {
    match c.max_nesting_depth {
        Some(d) => d as nat,
        None => 0,
    }
}

/// The larger of two naturals.
pub open spec fn larger(a: nat, b: nat) -> nat {
    if a >= b { a } else { b }
}

/// The deepest nesting among the chunks of file `f` (0 when none).
pub open spec fn max_depth_in(cs: Seq<ChunkView>, f: Seq<char>) -> nat
    decreases cs.len(),
{
    if cs.len() == 0 {
        0
    } else {
        let rest = max_depth_in(cs.drop_last(), f);
        if cs.last().file_path == f { larger(rest, depth_or_zero(cs.last())) } else { rest }
    }
}

/// Number of the files `fs` whose chunks nest at all.
pub open spec fn nested_files(fs: Seq<Seq<char>>, cs: Seq<ChunkView>) -> nat
    decreases fs.len(),
{
    if fs.len() == 0 {
        0
    } else {
        nested_files(fs.drop_last(), cs) + (if max_depth_in(cs, fs.last()) > 0 { 1nat } else { 0nat })
    }
}

/// Lines a chunk spans (`line_end - line_start`, 0 when it ends first).
pub open spec fn span_lines(c: ChunkView) -> nat {
    if c.line_end >= c.line_start { (c.line_end - c.line_start) as nat } else { 0 }
}

/// Lines spanned by all chunks.
pub open spec fn total_lines(cs: Seq<ChunkView>) -> nat
    decreases cs.len(),
{
    if cs.len() == 0 { 0 } else { total_lines(cs.drop_last()) + span_lines(cs.last()) }
}

/// Sum of the nesting depths of the chunks that have one.
pub open spec fn depth_sum(cs: Seq<ChunkView>) -> nat
    decreases cs.len(),
{
    if cs.len() == 0 { 0 } else { depth_sum(cs.drop_last()) + depth_or_zero(cs.last()) }
}

/// Number of chunks that have a nesting depth.
pub open spec fn with_depth(cs: Seq<ChunkView>) -> nat
    decreases cs.len(),
{
    if cs.len() == 0 {
        0
    } else {
        with_depth(cs.drop_last()) + (if cs.last().max_nesting_depth is Some { 1nat } else { 0nat })
    }
}

/// The separator that surrounds context copied from a neighbouring chunk.
pub open spec fn context_separator() -> Seq<char> {
    "---"@
}

/// Number of chunks that carry context from a neighbour (their text holds `---`).
pub open spec fn with_context(cs: Seq<ChunkView>) -> nat
    decreases cs.len(),
{
    if cs.len() == 0 {
        0
    } else {
        with_context(cs.drop_last()) + (if has_substring(cs.last().text, context_separator()) { 1nat } else { 0nat })
    }
}

/// Each distinct kind name with the number of chunks of that kind.
pub open spec fn kind_breakdown(cs: Seq<ChunkView>) -> Seq<(Seq<char>, nat)> {
    distinct(kind_names(cs)).map_values(|k: Seq<char>| (k, occurrences(kind_names(cs), k)))
}

/// Each distinct file with the deepest nesting of its chunks.
pub open spec fn file_depths(cs: Seq<ChunkView>) -> Seq<(Seq<char>, nat)> {
    distinct(file_paths(cs)).map_values(|f: Seq<char>| (f, max_depth_in(cs, f)))
}

/// Named counts as plain values.
pub open spec fn tallies_view(v: Seq<(String, usize)>) -> Seq<(Seq<char>, nat)> {
    v.map_values(|e: (String, usize)| (e.0@, e.1 as nat))
}

/// The line span (start, end) of each chunk of file `f`, in order.
pub open spec fn spans_in(cs: Seq<ChunkView>, f: Seq<char>) -> Seq<(usize, usize)>
    decreases cs.len(),
{
    if cs.len() == 0 {
        seq![]
    } else {
        let rest = spans_in(cs.drop_last(), f);
        if cs.last().file_path == f { rest.push((cs.last().line_start, cs.last().line_end)) } else { rest }
    }
}

/// `sorted` with `x` placed after every trailing span that starts later than it.
pub open spec fn insert_by_start(sorted: Seq<(usize, usize)>, x: (usize, usize)) -> Seq<(usize, usize)>
    decreases sorted.len(),
{
    if sorted.len() == 0 {
        seq![x]
    } else if sorted.last().0 <= x.0 {
        sorted.push(x)
    } else {
        insert_by_start(sorted.drop_last(), x).push(sorted.last())
    }
}

/// The spans ordered by start; spans that start on the same line keep
/// their order (a stable sort by start).
pub open spec fn by_start(s: Seq<(usize, usize)>) -> Seq<(usize, usize)>
    decreases s.len(),
{
    if s.len() == 0 { seq![] } else { insert_by_start(by_start(s.drop_last()), s.last()) }
}

/// Lines by which span `a` runs past the start of span `b`.
pub open spec fn overlap_of(a: (usize, usize), b: (usize, usize)) -> usize {
    if a.1 > b.0 { (a.1 - b.0) as usize } else { 0 }
}

/// The overlap of each span with the next one.
pub open spec fn neighbour_overlaps(s: Seq<(usize, usize)>) -> Seq<usize> {
    Seq::new(if s.len() > 0 { (s.len() - 1) as nat } else { 0 }, |i: int| overlap_of(s[i], s[i + 1]))
}

/// The overlaps between neighbouring chunks (by start) of each of the files `fs`.
pub open spec fn overlaps_in(fs: Seq<Seq<char>>, cs: Seq<ChunkView>) -> Seq<usize>
    decreases fs.len(),
{
    if fs.len() == 0 {
        seq![]
    } else {
        overlaps_in(fs.drop_last(), cs) + neighbour_overlaps(by_start(spans_in(cs, fs.last())))
    }
}

/// The overlaps between neighbouring chunks of every file.
pub open spec fn chunk_overlaps(cs: Seq<ChunkView>) -> Seq<usize> {
    overlaps_in(distinct(file_paths(cs)), cs)
}

/// Smallest first.
pub open spec fn ascending() -> spec_fn(usize, usize) -> bool {
    |a: usize, b: usize| a <= b
}

/// The middle value: the value at position `len / 2` of the values in
/// ascending order (0 when there is none).
pub open spec fn median(s: Seq<usize>) -> usize {
    if s.len() == 0 { 0 } else { s.sort_by(ascending())[(s.len() / 2) as int] }
}

// ---------------------------------------------------------------------------
// Lemmas
// ---------------------------------------------------------------------------

/// A value is among the distinct values exactly when it is in the sequence.
proof fn lemma_distinct_contains(s: Seq<Seq<char>>, x: Seq<char>)
    ensures
        distinct(s).contains(x) <==> s.contains(x),
    decreases s.len(),
{
    if s.len() > 0 {
        lemma_distinct_contains(s.drop_last(), x);
        if s.drop_last().contains(x) {
            let i = choose|i: int| 0 <= i < s.drop_last().len() && s.drop_last()[i] == x;
            assert(s[i] == x);
        }
        if s.contains(x) {
            let i = choose|i: int| 0 <= i < s.len() && s[i] == x;
            if i < s.len() - 1 {
                assert(s.drop_last()[i] == x);
            }
        }
        let r = distinct(s.drop_last());
        if !r.contains(s.last()) {
            if r.push(s.last()).contains(x) {
                let j = choose|j: int| 0 <= j < r.push(s.last()).len() && r.push(s.last())[j] == x;
                if j < r.len() {
                    assert(r[j] == x);
                }
            }
            if r.contains(x) {
                let j = choose|j: int| 0 <= j < r.len() && r[j] == x;
                assert(r.push(s.last())[j] == x);
            }
            assert(r.push(s.last())[r.len() as int] == s.last());
        }
    }
}

/// A value that does not occur is counted zero times.
proof fn lemma_absent_no_occurrences(s: Seq<Seq<char>>, x: Seq<char>)
    requires
        !s.contains(x),
    ensures
        occurrences(s, x) == 0,
    decreases s.len(),
{
    if s.len() > 0 {
        if s.drop_last().contains(x) {
            let i = choose|i: int| 0 <= i < s.drop_last().len() && s.drop_last()[i] == x;
            assert(s[i] == x);
        }
        assert(s[s.len() - 1] == s.last());
        lemma_absent_no_occurrences(s.drop_last(), x);
    }
}

/// A file with no chunks has depth 0.
proof fn lemma_absent_file_depth(cs: Seq<ChunkView>, f: Seq<char>)
    requires
        !file_paths(cs).contains(f),
    ensures
        max_depth_in(cs, f) == 0,
    decreases cs.len(),
{
    if cs.len() > 0 {
        assert(file_paths(cs.drop_last()) =~= file_paths(cs).drop_last());
        if file_paths(cs.drop_last()).contains(f) {
            let i = choose|i: int| 0 <= i < file_paths(cs.drop_last()).len() && file_paths(cs.drop_last())[i] == f;
            assert(file_paths(cs)[i] == f);
        }
        assert(file_paths(cs)[cs.len() - 1] == cs.last().file_path);
        lemma_absent_file_depth(cs.drop_last(), f);
    }
}

// ---------------------------------------------------------------------------
// Computation
// ---------------------------------------------------------------------------

/// What an index's chunks add up to (see the field docs).
#[derive(Debug)]
pub struct ChunkDiagnostics {
    /// Number of chunks.
    pub chunk_count: usize,
    /// Number of distinct files.
    pub file_count: usize,
    /// Each kind's display name with its number of chunks, in order of first occurrence.
    pub kinds_breakdown: Vec<(String, usize)>,
    /// Lines spanned by all chunks (the average is this over `chunk_count`).
    pub total_lines: u128,
    /// The median overlap, in lines, between neighbouring chunks of a file.
    pub median_overlap_between_chunks: usize,
    /// Number of chunks that carry context from a neighbour.
    pub chunks_with_parent_context: usize,
    /// Sum of the nesting depths of the chunks that have one.
    pub nesting_depth_sum: u128,
    /// Number of chunks that have a nesting depth.
    pub chunks_with_depth: usize,
    /// Each file with the deepest nesting of its chunks, in order of first occurrence.
    pub max_nesting_per_file: Vec<(String, usize)>,
    /// Number of files whose chunks nest at all.
    pub files_with_nested_code: usize,
}

/// Position of `s` among the strings `v`.
fn position_in(v: &Vec<(String, usize)>, s: &str) -> (r: Option<usize>)
    ensures
        match r {
            Some(j) => j < v@.len() && v@[j as int].0@ == s@,
            None => forall|j: int| 0 <= j < v@.len() ==> v@[j].0@ != s@,
        },
{
    let mut j: usize = 0;
    while j < v.len()
        invariant
            j <= v@.len(),
            forall|k: int| 0 <= k < j ==> v@[k].0@ != s@,
        decreases v@.len() - j,
    {
        if str_eq(v[j].0.as_str(), s) {
            return Some(j);
        }
        j += 1;
    }
    None
}

/// Appending a value to a sequence appends it to the distinct values unless
/// it is already among them.
proof fn lemma_distinct_push(s: Seq<Seq<char>>, x: Seq<char>)
    ensures
        distinct(s.push(x)) == (if s.contains(x) { distinct(s) } else { distinct(s).push(x) }),
{
    assert(s.push(x).drop_last() =~= s);
    assert(s.push(x).last() == x);
    lemma_distinct_contains(s, x);
}

/// Appending a value adds one to its count and leaves the others.
proof fn lemma_occurrences_push(s: Seq<Seq<char>>, x: Seq<char>, y: Seq<char>)
    ensures
        occurrences(s.push(x), y) == occurrences(s, y) + (if x == y { 1nat } else { 0nat }),
{
    assert(s.push(x).drop_last() =~= s);
    assert(s.push(x).last() == x);
}

/// The per-chunk tallies of the diagnostics, without the overlaps.
fn tally(chunks: &Vec<Chunk>) -> (r: ChunkDiagnostics)
    ensures
        r.chunk_count == chunks@.len(),
        r.file_count == distinct(file_paths(views(chunks@))).len(),
        tallies_view(r.kinds_breakdown@) == kind_breakdown(views(chunks@)),
        r.total_lines == total_lines(views(chunks@)),
        r.chunks_with_parent_context == with_context(views(chunks@)),
        r.nesting_depth_sum == depth_sum(views(chunks@)),
        r.chunks_with_depth == with_depth(views(chunks@)),
        tallies_view(r.max_nesting_per_file@) == file_depths(views(chunks@)),
        r.files_with_nested_code == nested_files(distinct(file_paths(views(chunks@))), views(chunks@)),
        r.median_overlap_between_chunks == 0,
{
    let ghost cs = views(chunks@);
    let mut kinds: Vec<(String, usize)> = Vec::new();
    let mut files: Vec<(String, usize)> = Vec::new();
    let mut lines: u128 = 0;
    let mut context: usize = 0;
    let mut depths: u128 = 0;
    let mut depth_count: usize = 0;
    let sep = chars_of("---");
    proof {
        reveal_strlit("---");
    }
    let mut i: usize = 0;
    while i < chunks.len()
        invariant
            cs == views(chunks@),
            sep@ == context_separator(),
            i <= chunks@.len(),
            kinds@.len() == distinct(kind_names(cs.take(i as int))).len(),
            forall|j: int| 0 <= j < kinds@.len() ==> {
                &&& (#[trigger] kinds@[j]).0@ == distinct(kind_names(cs.take(i as int)))[j]
                &&& kinds@[j].1 == occurrences(kind_names(cs.take(i as int)), kinds@[j].0@)
                &&& kinds@[j].1 <= i
            },
            files@.len() == distinct(file_paths(cs.take(i as int))).len(),
            forall|j: int| 0 <= j < files@.len() ==> {
                &&& (#[trigger] files@[j]).0@ == distinct(file_paths(cs.take(i as int)))[j]
                &&& files@[j].1 == max_depth_in(cs.take(i as int), files@[j].0@)
            },
            lines == total_lines(cs.take(i as int)),
            lines <= i * 0x1_0000_0000_0000_0000,
            context == with_context(cs.take(i as int)),
            context <= i,
            depths == depth_sum(cs.take(i as int)),
            depths <= i * 0x1_0000_0000_0000_0000,
            depth_count == with_depth(cs.take(i as int)),
            depth_count <= i,
        decreases chunks@.len() - i,
    {
        let c = &chunks[i];
        let ghost prev = cs.take(i as int);
        let ghost next = cs.take(i + 1);
        let ghost kn = kind_names(prev);
        let ghost fp = file_paths(prev);
        proof {
            assert(next.drop_last() =~= prev);
            assert(next.last() == c@);
            assert(kind_names(next) =~= kn.push(kind_display_name(c.symbol_kind)));
            assert(file_paths(next) =~= fp.push(c.file_path@));
        }
        // Kind tally.
        let name = c.symbol_kind_name();
        proof {
            lemma_distinct_push(kn, name@);
            assert forall|y: Seq<char>| #[trigger] occurrences(kind_names(next), y) == occurrences(kn, y) + (if name@ == y { 1nat } else { 0nat }) by {
                lemma_occurrences_push(kn, name@, y);
            }
        }
        match position_in(&kinds, name) {
            Some(j) => {
                proof {
                    assert(distinct(kn).contains(name@)) by {
                        assert(distinct(kn)[j as int] == name@);
                    }
                    lemma_distinct_contains(kn, name@);
                    assert forall|k: int| 0 <= k < kinds@.len() && k != j implies kinds@[k].0@ != name@ by {
                        lemma_distinct_unique(kn, k, j as int);
                    }
                }
                let n = kinds[j].1 + 1;
                let entry = (kinds[j].0.clone(), n);
                kinds.set(j, entry);
            },
            None => {
                proof {
                    assert(!distinct(kn).contains(name@)) by {
                        if distinct(kn).contains(name@) {
                            let k = choose|k: int| 0 <= k < distinct(kn).len() && distinct(kn)[k] == name@;
                            assert(kinds@[k].0@ == name@);
                        }
                    }
                    lemma_distinct_contains(kn, name@);
                    lemma_absent_no_occurrences(kn, name@);
                }
                kinds.push((name.to_owned(), 1));
            },
        }
        // File depths.
        let d: usize = match c.max_nesting_depth {
            Some(d) => d,
            None => 0,
        };
        proof {
            lemma_distinct_push(fp, c.file_path@);
            assert forall|f: Seq<char>| #[trigger] max_depth_in(next, f) == (if c.file_path@ == f { larger(max_depth_in(prev, f), d as nat) } else { max_depth_in(prev, f) }) by {
                assert(depth_or_zero(c@) == d as nat);
            }
        }
        match position_in(&files, c.file_path.as_str()) {
            Some(j) => {
                proof {
                    assert(distinct(fp).contains(c.file_path@)) by {
                        assert(distinct(fp)[j as int] == c.file_path@);
                    }
                    lemma_distinct_contains(fp, c.file_path@);
                    assert forall|k: int| 0 <= k < files@.len() && k != j implies files@[k].0@ != c.file_path@ by {
                        lemma_distinct_unique(fp, k, j as int);
                    }
                }
                let m = if files[j].1 >= d { files[j].1 } else { d };
                let entry = (files[j].0.clone(), m);
                files.set(j, entry);
            },
            None => {
                proof {
                    assert(!distinct(fp).contains(c.file_path@)) by {
                        if distinct(fp).contains(c.file_path@) {
                            let k = choose|k: int| 0 <= k < distinct(fp).len() && distinct(fp)[k] == c.file_path@;
                            assert(files@[k].0@ == c.file_path@);
                        }
                    }
                    lemma_distinct_contains(fp, c.file_path@);
                    lemma_absent_file_depth(prev, c.file_path@);
                }
                files.push((c.file_path.clone(), d));
            },
        }
        // Lines, context and depths.
        let span: usize = if c.line_end >= c.line_start { c.line_end - c.line_start } else { 0 };
        lines = lines + span as u128;
        let text = chars_of(c.text.as_str());
        if contains_sub(text.as_slice(), sep.as_slice()) {
            context = context + 1;
        }
        match c.max_nesting_depth {
            Some(dd) => {
                depths = depths + dd as u128;
                depth_count = depth_count + 1;
            },
            None => {},
        }
        i += 1;
    }
    proof {
        assert(cs.take(chunks@.len() as int) =~= cs);
        assert(tallies_view(kinds@) =~= kind_breakdown(cs));
        assert(tallies_view(files@) =~= file_depths(cs));
    }
    let ghost fs = distinct(file_paths(cs));
    let mut nested: usize = 0;
    let mut k: usize = 0;
    while k < files.len()
        invariant
            cs == views(chunks@),
            fs == distinct(file_paths(cs)),
            files@.len() == fs.len(),
            forall|j: int| 0 <= j < files@.len() ==> {
                &&& (#[trigger] files@[j]).0@ == fs[j]
                &&& files@[j].1 == max_depth_in(cs, fs[j])
            },
            k <= files@.len(),
            nested <= k,
            nested == nested_files(fs.take(k as int), cs),
        decreases files@.len() - k,
    {
        proof {
            assert(fs.take(k + 1).drop_last() =~= fs.take(k as int));
            assert(fs.take(k + 1).last() == fs[k as int]);
            assert(files@[k as int].1 == max_depth_in(cs, fs[k as int]));
        }
        if files[k].1 > 0 {
            nested = nested + 1;
        }
        k += 1;
    }
    proof {
        assert(fs.take(files@.len() as int) =~= fs);
    }
    ChunkDiagnostics {
        chunk_count: chunks.len(),
        file_count: files.len(),
        kinds_breakdown: kinds,
        total_lines: lines,
        median_overlap_between_chunks: 0,
        chunks_with_parent_context: context,
        nesting_depth_sum: depths,
        chunks_with_depth: depth_count,
        max_nesting_per_file: files,
        files_with_nested_code: nested,
    }
}

/// Where `x` goes into `s` by [`insert_by_start`]: after the last span
/// that starts no later than it.
proof fn lemma_insert_split(s: Seq<(usize, usize)>, x: (usize, usize), j: int)
    requires
        0 <= j <= s.len(),
        forall|k: int| j <= k < s.len() ==> s[k].0 > x.0,
        j == 0 || s[j - 1].0 <= x.0,
    ensures
        insert_by_start(s, x) == s.take(j).push(x) + s.skip(j),
    decreases s.len(),
{
    if s.len() == 0 {
        assert(s.take(j).push(x) + s.skip(j) =~= seq![x]);
    } else if s.last().0 <= x.0 {
        assert(j == s.len());
        assert(s.take(j) =~= s);
        assert(s.take(j).push(x) + s.skip(j) =~= s.push(x));
    } else {
        let d = s.drop_last();
        lemma_insert_split(d, x, j);
        assert(d.take(j) =~= s.take(j));
        assert(d.skip(j).push(s.last()) =~= s.skip(j));
        assert((d.take(j).push(x) + d.skip(j)).push(s.last()) =~= s.take(j).push(x) + s.skip(j));
    }
}

/// Inserts `x` into `v` as [`insert_by_start`] does.
fn insert_span(v: &mut Vec<(usize, usize)>, x: (usize, usize))
    ensures
        final(v)@ == insert_by_start(old(v)@, x),
{
    let mut j: usize = v.len();
    while j > 0 && v[j - 1].0 > x.0
        invariant
            j <= v@.len(),
            forall|k: int| j <= k < v@.len() ==> v@[k].0 > x.0,
        decreases j,
    {
        j -= 1;
    }
    proof {
        lemma_insert_split(v@, x, j as int);
        assert(v@.insert(j as int, x) =~= v@.take(j as int).push(x) + v@.skip(j as int));
    }
    v.insert(j, x);
}

/// The spans of the chunks of file `f`, ordered as [`by_start`] orders them.
fn sorted_spans(chunks: &Vec<Chunk>, f: &str) -> (r: Vec<(usize, usize)>)
    ensures
        r@ == by_start(spans_in(views(chunks@), f@)),
{
    let ghost cs = views(chunks@);
    let ghost mut spans: Seq<(usize, usize)> = seq![];
    let mut sorted: Vec<(usize, usize)> = Vec::new();
    let mut i: usize = 0;
    while i < chunks.len()
        invariant
            cs == views(chunks@),
            i <= chunks@.len(),
            spans == spans_in(cs.take(i as int), f@),
            sorted@ == by_start(spans),
        decreases chunks@.len() - i,
    {
        proof {
            assert(cs.take(i + 1).drop_last() =~= cs.take(i as int));
            assert(cs.take(i + 1).last() == chunks@[i as int]@);
        }
        if str_eq(chunks[i].file_path.as_str(), f) {
            let x = (chunks[i].line_start, chunks[i].line_end);
            insert_span(&mut sorted, x);
            proof {
                assert(spans.push(x).drop_last() =~= spans);
                spans = spans.push(x);
            }
        }
        i += 1;
    }
    proof {
        assert(cs.take(chunks@.len() as int) =~= cs);
    }
    sorted
}

/// Appends the overlap of each span of `s` with the next one.
fn push_neighbour_overlaps(out: &mut Vec<usize>, s: &Vec<(usize, usize)>)
    ensures
        final(out)@ == old(out)@ + neighbour_overlaps(s@),
{
    let ghost start = old(out)@;
    let n = s.len();
    if n == 0 {
        proof {
            assert(neighbour_overlaps(s@) =~= Seq::<usize>::empty());
            assert(out@ =~= start + neighbour_overlaps(s@));
        }
        return;
    }
    let mut i: usize = 0;
    proof {
        assert(neighbour_overlaps(s@).take(0) =~= Seq::<usize>::empty());
        assert(out@ =~= start + neighbour_overlaps(s@).take(0));
    }
    while i < n - 1
        invariant
            n == s@.len(),
            n > 0,
            i <= n - 1,
            neighbour_overlaps(s@).len() == n - 1,
            out@ == start + neighbour_overlaps(s@).take(i as int),
        decreases n - 1 - i,
    {
        let a = s[i];
        let b = s[i + 1];
        let o: usize = if a.1 > b.0 { a.1 - b.0 } else { 0 };
        let ghost before = out@;
        out.push(o);
        proof {
            assert(neighbour_overlaps(s@)[i as int] == o);
            assert(neighbour_overlaps(s@).take(i + 1) =~= neighbour_overlaps(s@).take(i as int).push(o));
            assert(out@ =~= start + neighbour_overlaps(s@).take(i + 1));
        }
        i += 1;
    }
    proof {
        assert(neighbour_overlaps(s@).take(i as int) =~= neighbour_overlaps(s@));
    }
}

/// Smallest-first is a total order.
proof fn lemma_ascending_total()
    ensures
        total_ordering(ascending()),
{
    assert(reflexive(ascending()));
    assert(antisymmetric(ascending()));
    assert(transitive(ascending()));
    assert(strongly_connected(ascending()));
}

/// The values of `v` in ascending order.
fn sort_ascending(v: &Vec<usize>) -> (r: Vec<usize>)
    ensures
        r@ == v@.sort_by(ascending()),
        r@.len() == v@.len(),
{
    broadcast use vstd::seq_lib::group_to_multiset_ensures;
    let mut r: Vec<usize> = Vec::new();
    let mut k: usize = 0;
    proof {
        assert(v@.take(0) =~= Seq::<usize>::empty());
    }
    while k < v.len()
        invariant
            k <= v@.len(),
            sorted_by(r@, ascending()),
            r@.to_multiset() == v@.take(k as int).to_multiset(),
        decreases v@.len() - k,
    {
        let x = v[k];
        let mut j: usize = r.len();
        while j > 0 && r[j - 1] > x
            invariant
                j <= r@.len(),
                forall|m: int| j <= m < r@.len() ==> r@[m] > x,
            decreases j,
        {
            j -= 1;
        }
        let ghost before = r@;
        r.insert(j, x);
        proof {
            broadcast use vstd::seq_lib::group_to_multiset_ensures;
            assert(v@.take(k + 1) =~= v@.take(k as int).push(x));
            assert(r@ == before.insert(j as int, x));
            assert(r@.to_multiset() == before.to_multiset().insert(x));
            assert(v@.take(k + 1).to_multiset() == v@.take(k as int).to_multiset().insert(x));
            assert forall|a: int, b: int| 0 <= a < b < r@.len() implies #[trigger] (ascending())(r@[a], r@[b]) by {
                if a < j && b < j {
                    assert(ascending()(before[a], before[b]));
                } else if a < j && b == j {
                    if j > 0 {
                        assert(ascending()(before[a], before[j - 1]));
                    }
                } else if a < j {
                    assert(ascending()(before[a], before[b - 1]));
                } else if a == j {
                    assert(before[b - 1] > x);
                } else {
                    assert(ascending()(before[a - 1], before[b - 1]));
                }
            }
        }
        k += 1;
    }
    proof {
        assert(v@.take(v@.len() as int) =~= v@);
        lemma_ascending_total();
        v@.lemma_sort_by_ensures(ascending());
        lemma_sorted_unique(r@, v@.sort_by(ascending()), ascending());
        assert(r@.to_multiset().len() == r@.len());
        assert(v@.to_multiset().len() == v@.len());
    }
    r
}

/// The distinct values of a sequence are its values, each once.
pub proof fn lemma_distinct_values(s: Seq<Seq<char>>)
    ensures
        distinct(s).no_duplicates(),
        forall|x: Seq<char>| #[trigger] distinct(s).contains(x) <==> s.contains(x),
        distinct(s).len() <= s.len(),
    decreases s.len(),
{
    if s.len() > 0 {
        let front = s.drop_last();
        lemma_distinct_values(front);
        assert forall|x: Seq<char>| front.contains(x) implies s.contains(x) by {
            let i = choose|i: int| 0 <= i < front.len() && front[i] == x;
            assert(s[i] == x);
        }
        assert forall|x: Seq<char>| s.contains(x) implies #[trigger] front.contains(x) || x == s.last() by {
            let i = choose|i: int| 0 <= i < s.len() && s[i] == x;
            if i < s.len() - 1 {
                assert(front[i] == x);
            }
        }
        assert(s[s.len() - 1] == s.last());
        let r = distinct(front);
        if !r.contains(s.last()) {
            let t = r.push(s.last());
            assert forall|a: int, b: int| 0 <= a < b < t.len() implies t[a] != t[b] by {
                assert(t[a] == r[a]);
                if b < r.len() {
                    assert(t[b] == r[b]);
                }
            }
            assert forall|x: Seq<char>| #[trigger] t.contains(x) <==> r.contains(x) || x == s.last() by {
                if t.contains(x) {
                    let i = choose|i: int| 0 <= i < t.len() && t[i] == x;
                    if i < r.len() {
                        assert(r[i] == x);
                    }
                }
                if r.contains(x) {
                    let i = choose|i: int| 0 <= i < r.len() && r[i] == x;
                    assert(t[i] == x);
                }
                if x == s.last() {
                    assert(t[r.len() as int] == x);
                }
            }
        }
    }
}

/// The chunk counts of the diagnostics count chunks: those with a nesting
/// depth, and those carrying `---`-framed context from a neighbour.
pub proof fn lemma_diagnostic_counts(cs: Seq<ChunkView>)
    ensures
        with_depth(cs) == cs.filter(|c: ChunkView| c.max_nesting_depth is Some).len(),
        with_context(cs) == cs.filter(|c: ChunkView| has_substring(c.text, "---"@)).len(),
        with_depth(cs) <= cs.len(),
        with_context(cs) <= cs.len(),
    decreases cs.len(),
{
    reveal(Seq::filter);
    if cs.len() > 0 {
        lemma_diagnostic_counts(cs.drop_last());
    }
}

/// Each kind of the breakdown comes once, with the number of chunks of that
/// kind; every kind that some chunk has is listed.
pub proof fn lemma_kind_breakdown_counts(cs: Seq<ChunkView>)
    ensures
        forall|i: int| 0 <= i < kind_breakdown(cs).len() ==> (#[trigger] kind_breakdown(cs)[i]).1
            == cs.filter(|c: ChunkView| kind_display_name(c.symbol_kind) == kind_breakdown(cs)[i].0).len(),
        forall|a: int, b: int| 0 <= a < b < kind_breakdown(cs).len() ==>
            (#[trigger] kind_breakdown(cs)[a]).0 != (#[trigger] kind_breakdown(cs)[b]).0,
        forall|j: int| 0 <= j < cs.len() ==> exists|i: int| 0 <= i < kind_breakdown(cs).len()
            && (#[trigger] kind_breakdown(cs)[i]).0 == kind_display_name((#[trigger] cs[j]).symbol_kind),
{
    lemma_distinct_values(kind_names(cs));
    let d = distinct(kind_names(cs));
    assert forall|i: int| 0 <= i < kind_breakdown(cs).len() implies (#[trigger] kind_breakdown(cs)[i]).1
        == cs.filter(|c: ChunkView| kind_display_name(c.symbol_kind) == kind_breakdown(cs)[i].0).len() by {
        let k = d[i];
        crate::vector_store::lemma_occurrences_count(kind_names(cs), k);
        lemma_kind_filter_len(cs, k);
    }
    assert forall|j: int| 0 <= j < cs.len() implies exists|i: int| 0 <= i < kind_breakdown(cs).len()
        && (#[trigger] kind_breakdown(cs)[i]).0 == kind_display_name((#[trigger] cs[j]).symbol_kind) by {
        let k = kind_display_name(cs[j].symbol_kind);
        assert(kind_names(cs)[j] == k);
        assert(d.contains(k));
        let i = choose|i: int| 0 <= i < d.len() && d[i] == k;
        assert(kind_breakdown(cs)[i].0 == k);
    }
}

proof fn lemma_kind_filter_len(cs: Seq<ChunkView>, k: Seq<char>)
    ensures
        kind_names(cs).filter(|x: Seq<char>| x == k).len()
            == cs.filter(|c: ChunkView| kind_display_name(c.symbol_kind) == k).len(),
    decreases cs.len(),
{
    reveal(Seq::filter);
    if cs.len() > 0 {
        lemma_kind_filter_len(cs.drop_last(), k);
        assert(kind_names(cs.drop_last()) =~= kind_names(cs).drop_last());
    }
}

/// The diagnostics of the chunks of an index (see [`ChunkDiagnostics`]).
pub fn chunk_diagnostics(chunks: &Vec<Chunk>) -> (r: ChunkDiagnostics)
    ensures
        r.chunk_count == chunks@.len(),
        r.file_count == distinct(file_paths(views(chunks@))).len(),
        tallies_view(r.kinds_breakdown@) == kind_breakdown(views(chunks@)),
        r.total_lines == total_lines(views(chunks@)),
        r.median_overlap_between_chunks == median(chunk_overlaps(views(chunks@))),
        r.chunks_with_parent_context == with_context(views(chunks@)),
        r.nesting_depth_sum == depth_sum(views(chunks@)),
        r.chunks_with_depth == with_depth(views(chunks@)),
        tallies_view(r.max_nesting_per_file@) == file_depths(views(chunks@)),
        r.files_with_nested_code == nested_files(distinct(file_paths(views(chunks@))), views(chunks@)),
{
    let mut r = tally(chunks);
    let ghost cs = views(chunks@);
    let ghost fs = distinct(file_paths(cs));
    let mut all: Vec<usize> = Vec::new();
    let mut m: usize = 0;
    proof {
        assert(tallies_view(r.max_nesting_per_file@).len() == r.max_nesting_per_file@.len());
        assert(file_depths(cs).len() == fs.len());
    }
    while m < r.max_nesting_per_file.len()
        invariant
            cs == views(chunks@),
            fs == distinct(file_paths(cs)),
            tallies_view(r.max_nesting_per_file@) == file_depths(cs),
            r.max_nesting_per_file@.len() == fs.len(),
            m <= fs.len(),
            all@ == overlaps_in(fs.take(m as int), cs),
        decreases fs.len() - m,
    {
        proof {
            assert(tallies_view(r.max_nesting_per_file@)[m as int] == file_depths(cs)[m as int]);
            assert(fs.take(m + 1).drop_last() =~= fs.take(m as int));
            assert(fs.take(m + 1).last() == fs[m as int]);
        }
        let spans = sorted_spans(chunks, r.max_nesting_per_file[m].0.as_str());
        push_neighbour_overlaps(&mut all, &spans);
        m += 1;
    }
    proof {
        assert(fs.take(fs.len() as int) =~= fs);
    }
    if all.len() > 0 {
        let sorted = sort_ascending(&all);
        r.median_overlap_between_chunks = sorted[all.len() / 2];
    }
    r
}

/// Two positions of the distinct values hold different values.
proof fn lemma_distinct_unique(s: Seq<Seq<char>>, a: int, b: int)
    requires
        0 <= a < distinct(s).len(),
        0 <= b < distinct(s).len(),
        a != b,
    ensures
        distinct(s)[a] != distinct(s)[b],
    decreases s.len(),
{
    if s.len() > 0 {
        let r = distinct(s.drop_last());
        if r.contains(s.last()) {
            lemma_distinct_unique(s.drop_last(), a, b);
        } else {
            if a < r.len() && b < r.len() {
                lemma_distinct_unique(s.drop_last(), a, b);
            } else if a == r.len() {
                assert(r[b] == distinct(s)[b]);
                if r[b] == s.last() {
                    assert(r.contains(s.last()));
                }
            } else {
                assert(r[a] == distinct(s)[a]);
                if r[a] == s.last() {
                    assert(r.contains(s.last()));
                }
            }
        }
    }
}

} // verus!
