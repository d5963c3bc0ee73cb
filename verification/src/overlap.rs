//! Chunk overlap: adjacent chunks of one file get context lines from the
//! gap between them, so that text at chunk boundaries is kept for the LLM.
//!
//! Within each file, chunks are ordered by start offset (ties by position).
//! A chunk whose predecessor ends before it starts gets up to `overlap`
//! lines from the end of the predecessor onwards prepended (after a `---`
//! separator line), and its start moves to the predecessor's end. A chunk
//! whose successor starts after it ends gets up to `overlap` lines from its
//! own end onwards appended, and its end grows by the number of lines taken.
//! Offsets are byte offsets; the line of an offset is found through the
//! byte offsets at which the file's lines start.
use vstd::prelude::*;
use crate::text::{
    byte_len, chars_of, char_len_utf8, lemma_byte_len_push, lemma_byte_len_empty,
    lines_of, split_on, strip_cr, join, string_of,
};
use crate::indexer::{Chunk, ChunkView, views};

verus! {

/// A source file's path and its contents, if it could be read.
pub struct SourceText {
    /// Path of the file, as the chunks name it.
    pub path: String,
    /// The file's contents, or `None` when it could not be read.
    pub content: Option<String>,
}

/// The contents of the first source named `path` (`None` when there is
/// no such source or it could not be read).
pub open spec fn source_of(sources: Seq<SourceText>, path: Seq<char>) -> Option<Seq<char>>
    decreases sources.len(),
{
    if sources.len() == 0 {
        None
    } else if sources[0].path@ == path {
        match sources[0].content {
            Some(c) => Some(c@),
            None => None,
        }
    } else {
        source_of(sources.drop_first(), path)
    }
}

/// Sum over `ls` of each line's byte length plus one (its newline).
pub open spec fn lines_total(ls: Seq<Seq<char>>) -> nat
    decreases ls.len(),
{
    if ls.len() == 0 {
        0
    } else {
        lines_total(ls.drop_last()) + byte_len(ls.last()) + 1
    }
}

/// Byte offset at which line `l` starts (lines joined by single newlines).
pub open spec fn line_offset(ls: Seq<Seq<char>>, l: int) -> nat {
    lines_total(ls.take(l))
}

/// Number of lines `l` in `[1, k)` that start at or before byte `x`.
pub open spec fn starts_upto(ls: Seq<Seq<char>>, x: nat, k: int) -> nat
    decreases k,
{
    if k <= 1 {
        0
    } else {
        starts_upto(ls, x, k - 1) + if line_offset(ls, k - 1) <= x { 1nat } else { 0nat }
    }
}

/// The line holding byte offset `x`: the number of line starts after the
/// first one that are at or before `x`.
pub open spec fn line_of(ls: Seq<Seq<char>>, x: nat) -> nat {
    if x == 0 {
        0
    } else {
        starts_upto(ls, x, ls.len() + 1int)
    }
}

/// The smaller of two naturals.
pub open spec fn min_nat(a: nat, b: nat) -> nat {
    if a <= b { a } else { b }
}

/// Lines `[a, b)` of `ls`, keeping only existing lines.
pub open spec fn line_range(ls: Seq<Seq<char>>, a: nat, b: nat) -> Seq<Seq<char>> {
    let e = min_nat(b, ls.len());
    if a < e {
        ls.subrange(a as int, e as int)
    } else {
        seq![]
    }
}

/// Chunk `a` comes before chunk `b` in a file: smaller start, ties by position.
pub open spec fn key_lt(cs: Seq<ChunkView>, a: int, b: int) -> bool {
    ||| cs[a].line_start < cs[b].line_start
    ||| (cs[a].line_start == cs[b].line_start && a < b)
}

/// Chunks `a` and `b` belong to the same file.
pub open spec fn same_file(cs: Seq<ChunkView>, a: int, b: int) -> bool {
    cs[a].file_path == cs[b].file_path
}

/// `k` is the chunk right before `j` in their file.
pub open spec fn is_prev(cs: Seq<ChunkView>, j: int, k: int) -> bool {
    &&& 0 <= k < cs.len()
    &&& same_file(cs, k, j)
    &&& key_lt(cs, k, j)
    &&& forall|m: int|
        0 <= m < cs.len() && same_file(cs, m, j) && #[trigger] key_lt(cs, k, m) ==> !key_lt(cs, m, j)
}

/// `k` is the chunk right after `j` in their file.
pub open spec fn is_next(cs: Seq<ChunkView>, j: int, k: int) -> bool {
    &&& 0 <= k < cs.len()
    &&& same_file(cs, k, j)
    &&& key_lt(cs, j, k)
    &&& forall|m: int|
        0 <= m < cs.len() && same_file(cs, m, j) && #[trigger] key_lt(cs, j, m) ==> !key_lt(cs, m, k)
}

/// The chunk right before `j` in its file, if any.
pub open spec fn prev_of(cs: Seq<ChunkView>, j: int) -> Option<int> {
    if exists|k: int| is_prev(cs, j, k) {
        Some(choose|k: int| is_prev(cs, j, k))
    } else {
        None
    }
}

/// The chunk right after `j` in its file, if any.
pub open spec fn next_of(cs: Seq<ChunkView>, j: int) -> Option<int> {
    if exists|k: int| is_next(cs, j, k) {
        Some(choose|k: int| is_next(cs, j, k))
    } else {
        None
    }
}

/// The lines appended to chunk `j` (from its end towards its successor).
pub open spec fn appended_lines(cs: Seq<ChunkView>, j: int, ls: Seq<Seq<char>>, overlap: nat) -> Seq<Seq<char>> {
    match next_of(cs, j) {
        Some(k) => if cs[j].line_end < cs[k].line_start {
            let cel = line_of(ls, cs[j].line_end as nat);
            line_range(ls, cel, min_nat(cel + overlap, line_of(ls, cs[k].line_start as nat)))
        } else {
            seq![]
        },
        None => seq![],
    }
}

/// The end offset of chunk `j` after its own extension.
pub open spec fn new_end(cs: Seq<ChunkView>, j: int, ls: Seq<Seq<char>>, overlap: nat) -> int {
    cs[j].line_end + appended_lines(cs, j, ls, overlap).len()
}

/// The context lines prepended to chunk `j` (from its predecessor's new end on).
pub open spec fn context_lines(cs: Seq<ChunkView>, j: int, ls: Seq<Seq<char>>, overlap: nat) -> Seq<Seq<char>> {
    match prev_of(cs, j) {
        Some(k) => {
            let pe = new_end(cs, k, ls, overlap);
            if pe < cs[j].line_start {
                let pel = line_of(ls, pe as nat);
                line_range(ls, pel, min_nat(pel + overlap, line_of(ls, cs[j].line_start as nat)))
            } else {
                seq![]
            }
        },
        None => seq![],
    }
}

/// The separator line put between a chunk and its borrowed context.
pub open spec fn sep() -> Seq<char> {
    seq!['\n', '-', '-', '-', '\n']
}

/// A single newline.
pub open spec fn nl() -> Seq<char> {
    seq!['\n']
}

/// Chunk `j` after overlap, given the lines of its file.
pub open spec fn overlapped(cs: Seq<ChunkView>, j: int, ls: Seq<Seq<char>>, overlap: nat) -> ChunkView {
    let c = cs[j];
    let ctx = context_lines(cs, j, ls, overlap);
    let app = appended_lines(cs, j, ls, overlap);
    let text1 = if ctx.len() > 0 { join(ctx, nl()) + sep() + c.text } else { c.text };
    let start1 = if ctx.len() > 0 {
        new_end(cs, prev_of(cs, j)->0, ls, overlap) as usize
    } else {
        c.line_start
    };
    let tail = join(app, nl());
    let text2 = if tail.len() > 0 { text1 + sep() + tail } else { text1 };
    ChunkView {
        file_path: c.file_path,
        line_start: start1,
        line_end: (c.line_end + app.len()) as usize,
        module_name: c.module_name,
        symbol_kind: c.symbol_kind,
        text: text2,
        max_nesting_depth: c.max_nesting_depth,
    }
}

/// Chunk `j` of `cs` after overlap of `overlap` lines with the given sources.
pub open spec fn overlap_result(cs: Seq<ChunkView>, j: int, overlap: nat, sources: Seq<SourceText>) -> ChunkView {
    if overlap == 0 {
        cs[j]
    } else {
        match source_of(sources, cs[j].file_path) {
            Some(content) => overlapped(cs, j, lines_of(content), overlap),
            None => cs[j],
        }
    }
}


// ---------------------------------------------------------------------------
// Line tables
// ---------------------------------------------------------------------------

/// The character sequences of a list of character vectors.
pub open spec fn rows(v: Seq<Vec<char>>) -> Seq<Seq<char>> {
    v.map_values(|x: Vec<char>| x@)
}

/// The lines of a file sum up to at most its byte length plus one.
proof fn lemma_split_total(s: Seq<char>)
    ensures
        lines_total(split_on(s, '\n')) == byte_len(s) + 1,
    decreases s.len(),
{
    if s.len() == 0 {
        lemma_byte_len_empty();
        assert(s =~= Seq::<char>::empty());
        let sp = split_on(s, '\n');
        assert(sp =~= seq![Seq::<char>::empty()]);
        assert(sp.drop_last() =~= Seq::<Seq<char>>::empty());
        assert(lines_total(sp.drop_last()) == 0);
        assert(sp.last() =~= Seq::<char>::empty());
        assert(lines_total(sp) == lines_total(sp.drop_last()) + byte_len(sp.last()) + 1);
    } else {
        let t = s.drop_last();
        let c = s.last();
        lemma_split_total(t);
        assert(s =~= t.push(c));
        lemma_byte_len_push(t, c);
        let rest = split_on(t, '\n');
        if c == '\n' {
            let sp = rest.push(Seq::<char>::empty());
            assert(split_on(s, '\n') == sp);
            assert(sp.drop_last() =~= rest);
            lemma_byte_len_empty();
            assert(sp.last() =~= Seq::<char>::empty());
            assert(lines_total(sp) == lines_total(sp.drop_last()) + byte_len(sp.last()) + 1);
        } else {
            let sp = rest.update(rest.len() - 1, rest.last().push(c));
            assert(rest.len() > 0) by {
                lemma_split_nonempty(t);
            }
            assert(split_on(s, '\n') == sp);
            assert(sp.drop_last() =~= rest.drop_last());
            assert(sp.last() == rest.last().push(c));
            lemma_byte_len_push(rest.last(), c);
            assert(lines_total(rest) == lines_total(rest.drop_last()) + byte_len(rest.last()) + 1);
            assert(lines_total(sp) == lines_total(sp.drop_last()) + byte_len(sp.last()) + 1);
        }
    }
}

/// Splitting always yields at least one piece.
proof fn lemma_split_nonempty(s: Seq<char>)
    ensures
        split_on(s, '\n').len() >= 1,
    decreases s.len(),
{
    if s.len() > 0 {
        lemma_split_nonempty(s.drop_last());
    }
}

/// Dropping trailing carriage returns does not increase the total.
proof fn lemma_total_strip(x: Seq<Seq<char>>)
    ensures
        lines_total(x.map_values(|l: Seq<char>| strip_cr(l))) <= lines_total(x),
    decreases x.len(),
{
    if x.len() > 0 {
        let y = x.map_values(|l: Seq<char>| strip_cr(l));
        lemma_total_strip(x.drop_last());
        assert(y.drop_last() =~= x.drop_last().map_values(|l: Seq<char>| strip_cr(l)));
        let l = x.last();
        if l.len() > 0 && l.last() == '\r' {
            assert(l =~= l.drop_last().push('\r'));
            lemma_byte_len_push(l.drop_last(), '\r');
        }
    }
}

/// A prefix of a list of lines totals at most the whole.
proof fn lemma_total_prefix(x: Seq<Seq<char>>, k: int)
    requires
        0 <= k <= x.len(),
    ensures
        lines_total(x.take(k)) <= lines_total(x),
        k <= lines_total(x.take(k)),
    decreases x.len(),
{
    if k == x.len() {
        assert(x.take(k) =~= x);
        lemma_total_count(x);
    } else {
        lemma_total_prefix(x.drop_last(), k);
        assert(x.drop_last().take(k) =~= x.take(k));
    }
}

/// Each line counts at least one byte (its newline).
proof fn lemma_total_count(x: Seq<Seq<char>>)
    ensures
        x.len() <= lines_total(x),
    decreases x.len(),
{
    if x.len() > 0 {
        lemma_total_count(x.drop_last());
    }
}

/// The lines of a file total at most its byte length plus one.
proof fn lemma_lines_total(s: Seq<char>)
    ensures
        lines_total(lines_of(s)) <= byte_len(s) + 1,
{
    let pieces = split_on(s, '\n');
    lemma_split_total(s);
    lemma_split_nonempty(s);
    let kept = if pieces.last().len() == 0 { pieces.drop_last() } else { pieces };
    assert(lines_total(kept) <= lines_total(pieces));
    lemma_total_strip(kept);
}

/// Characters of `v` without a trailing carriage return.
fn strip_cr_vec(v: Vec<char>) -> (res: Vec<char>)
    ensures
        res@ == strip_cr(v@),
{
    let mut v = v;
    if v.len() > 0 && v[v.len() - 1] == '\r' {
        v.pop();
    }
    v
}

/// The lines of `content` as `str::lines` yields them.
pub fn split_lines(content: &Vec<char>) -> (lines: Vec<Vec<char>>)
    ensures
        rows(lines@) == lines_of(content@),
{
    let mut lines: Vec<Vec<char>> = Vec::new();
    let mut cur: Vec<char> = Vec::new();
    let ghost mut raw: Seq<Seq<char>> = seq![];
    let mut i: usize = 0;
    while i < content.len()
        invariant
            i <= content@.len(),
            split_on(content@.take(i as int), '\n') == raw.push(cur@),
            rows(lines@) == raw.map_values(|l: Seq<char>| strip_cr(l)),
        decreases content@.len() - i,
    {
        let c = content[i];
        proof {
            let t = content@.take(i + 1);
            assert(t.drop_last() =~= content@.take(i as int));
            assert(t.last() == c);
        }
        if c == '\n' {
            let piece = strip_cr_vec(cur);
            let ghost old_lines = lines@;
            lines.push(piece);
            proof {
                let old_raw = raw;
                assert(rows(lines@) =~= rows(old_lines).push(piece@));
                assert(old_raw.push(cur@).map_values(|l: Seq<char>| strip_cr(l))
                    =~= old_raw.map_values(|l: Seq<char>| strip_cr(l)).push(strip_cr(cur@)));
                raw = raw.push(cur@);
                assert(rows(lines@) =~= raw.map_values(|l: Seq<char>| strip_cr(l)));
                assert(raw.push(Seq::<char>::empty()) =~= old_raw.push(cur@).push(Seq::<char>::empty()));
            }
            cur = Vec::new();
        } else {
            let ghost before = cur@;
            cur.push(c);
            proof {
                assert(raw.push(before).update(raw.len() as int, before.push(c)) =~= raw.push(cur@));
            }
        }
        i += 1;
    }
    proof {
        assert(content@.take(content@.len() as int) =~= content@);
    }
    if cur.len() > 0 {
        let piece = strip_cr_vec(cur);
        let ghost old_lines = lines@;
        lines.push(piece);
        proof {
            assert(rows(lines@) =~= rows(old_lines).push(piece@));
            assert(raw.push(cur@).map_values(|l: Seq<char>| strip_cr(l))
                =~= raw.map_values(|l: Seq<char>| strip_cr(l)).push(strip_cr(cur@)));
        }
    } else {
        proof {
            assert(raw.push(cur@).drop_last() =~= raw);
        }
    }
    lines
}

/// Byte length of a character sequence that fits in `usize`.
fn bytes_of(v: &Vec<char>) -> (n: usize)
    requires
        byte_len(v@) <= usize::MAX,
    ensures
        n == byte_len(v@),
{
    let mut n: usize = 0;
    let mut i: usize = 0;
    proof {
        lemma_byte_len_empty();
        assert(v@.take(0) =~= Seq::<char>::empty());
    }
    while i < v.len()
        invariant
            i <= v@.len(),
            byte_len(v@) <= usize::MAX,
            n == byte_len(v@.take(i as int)),
        decreases v@.len() - i,
    {
        let c = v[i];
        proof {
            assert(v@.take(i + 1) =~= v@.take(i as int).push(c));
            lemma_byte_len_push(v@.take(i as int), c);
            assert(v@ =~= v@.take(i + 1) + v@.skip(i + 1));
            crate::text::lemma_byte_len_concat(v@.take(i + 1), v@.skip(i + 1));
        }
        n = n + char_len_utf8(c);
        i += 1;
    }
    proof {
        assert(v@.take(v@.len() as int) =~= v@);
    }
    n
}

/// Byte offsets at which each line starts, plus the end (`lines + 1` entries).
fn line_offsets(lines: &Vec<Vec<char>>, Ghost(bound): Ghost<nat>) -> (offs: Vec<usize>)
    requires
        lines_total(rows(lines@)) <= bound,
        bound <= usize::MAX,
    ensures
        offs@.len() == lines@.len() + 1,
        forall|l: int| 0 <= l <= lines@.len() ==> #[trigger] offs@[l] == line_offset(rows(lines@), l),
{
    let ghost ls = rows(lines@);
    let mut offs: Vec<usize> = Vec::new();
    offs.push(0);
    proof {
        assert(ls.take(0) =~= Seq::<Seq<char>>::empty());
    }
    let mut l: usize = 0;
    while l < lines.len()
        invariant
            ls == rows(lines@),
            lines_total(ls) <= bound,
            bound <= usize::MAX,
            l <= lines@.len(),
            offs@.len() == l + 1,
            forall|k: int| 0 <= k <= l ==> #[trigger] offs@[k] == line_offset(ls, k),
        decreases lines@.len() - l,
    {
        proof {
            assert(ls.take(l + 1).drop_last() =~= ls.take(l as int));
            assert(ls[l as int] == lines@[l as int]@);
            assert(ls.take(l + 1).last() == lines@[l as int]@);
            assert(lines_total(ls.take(l + 1)) == lines_total(ls.take(l + 1).drop_last())
                + byte_len(ls.take(l + 1).last()) + 1);
            lemma_total_prefix(ls, l + 1);
            assert(offs@[l as int] == lines_total(ls.take(l as int)));
            assert(line_offset(ls, l + 1) == lines_total(ls.take(l + 1)));
            assert(line_offset(ls, l + 1) == offs@[l as int] + byte_len(lines@[l as int]@) + 1);
        }
        let b = bytes_of(&lines[l]);
        let next = offs[l] + b + 1;
        offs.push(next);
        l += 1;
    }
    offs
}

/// The line holding byte offset `x`.
fn line_index(offs: &Vec<usize>, x: usize, Ghost(ls): Ghost<Seq<Seq<char>>>) -> (res: usize)
    requires
        offs@.len() == ls.len() + 1,
        forall|l: int| 0 <= l <= ls.len() ==> #[trigger] offs@[l] == line_offset(ls, l),
    ensures
        res == line_of(ls, x as nat),
        res <= ls.len(),
{
    if x == 0 {
        return 0;
    }
    let mut count: usize = 0;
    let mut k: usize = 1;
    while k < offs.len()
        invariant
            offs@.len() == ls.len() + 1,
            forall|l: int| 0 <= l <= ls.len() ==> #[trigger] offs@[l] == line_offset(ls, l),
            1 <= k <= offs@.len(),
            count == starts_upto(ls, x as nat, k as int),
            count < k,
        decreases offs@.len() - k,
    {
        if offs[k] <= x {
            count += 1;
        }
        k += 1;
    }
    count
}

/// Lines `[a, e)` joined by newlines.
pub(crate) fn join_lines(lines: &Vec<Vec<char>>, a: usize, e: usize) -> (res: Vec<char>)
    requires
        a < e <= lines@.len(),
    ensures
        res@ == join(rows(lines@).subrange(a as int, e as int), nl()),
{
    let ghost ls = rows(lines@);
    let mut res: Vec<char> = lines[a].clone();
    proof {
        assert(ls.subrange(a as int, a + 1) =~= seq![ls[a as int]]);
    }
    let mut k: usize = a + 1;
    while k < e
        invariant
            ls == rows(lines@),
            a < k <= e <= lines@.len(),
            res@ == join(ls.subrange(a as int, k as int), nl()),
        decreases e - k,
    {
        res.push('\n');
        let mut i: usize = 0;
        let ghost before = res@;
        while i < lines[k].len()
            invariant
                k < lines@.len(),
                i <= lines@[k as int]@.len(),
                res@ == before + lines@[k as int]@.take(i as int),
            decreases lines@[k as int]@.len() - i,
        {
            res.push(lines[k][i]);
            proof {
                assert(lines@[k as int]@.take(i + 1) =~= lines@[k as int]@.take(i as int).push(lines@[k as int]@[i as int]));
            }
            i += 1;
        }
        proof {
            let sub = ls.subrange(a as int, k + 1);
            assert(sub.drop_last() =~= ls.subrange(a as int, k as int));
            assert(sub.last() == ls[k as int]);
            assert(lines@[k as int]@.take(lines@[k as int]@.len() as int) =~= lines@[k as int]@);
            assert(res@ =~= join(ls.subrange(a as int, k as int), nl()) + nl() + ls[k as int]);
        }
        k += 1;
    }
    res
}

// ---------------------------------------------------------------------------
// Neighbours within a file
// ---------------------------------------------------------------------------

/// `q` is a chunk of `j`'s file that comes before `j`.
pub open spec fn before_in_file(cs: Seq<ChunkView>, j: int, q: int) -> bool {
    0 <= q < cs.len() && same_file(cs, q, j) && key_lt(cs, q, j)
}

/// `q` is a chunk of `j`'s file that comes after `j`.
pub open spec fn after_in_file(cs: Seq<ChunkView>, j: int, q: int) -> bool {
    0 <= q < cs.len() && same_file(cs, q, j) && key_lt(cs, j, q)
}

/// Two chunks of a file are ordered one way or the other.
proof fn lemma_key_total(cs: Seq<ChunkView>, a: int, b: int)
    requires
        a != b,
    ensures
        key_lt(cs, a, b) || key_lt(cs, b, a),
        !(key_lt(cs, a, b) && key_lt(cs, b, a)),
{
}

/// A chunk has at most one predecessor in its file.
proof fn lemma_prev_unique(cs: Seq<ChunkView>, j: int, k: int)
    requires
        is_prev(cs, j, k),
    ensures
        prev_of(cs, j) == Some(k),
{
    let k2 = choose|q: int| is_prev(cs, j, q);
    assert(is_prev(cs, j, k2));
    if k2 != k {
        lemma_key_total(cs, k, k2);
        if key_lt(cs, k, k2) {
            assert(!key_lt(cs, k2, j));
        } else {
            assert(key_lt(cs, k2, k));
            assert(!key_lt(cs, k, j));
        }
    }
}

/// A chunk has at most one successor in its file.
proof fn lemma_next_unique(cs: Seq<ChunkView>, j: int, k: int)
    requires
        is_next(cs, j, k),
    ensures
        next_of(cs, j) == Some(k),
{
    let k2 = choose|q: int| is_next(cs, j, q);
    assert(is_next(cs, j, k2));
    if k2 != k {
        lemma_key_total(cs, k, k2);
        if key_lt(cs, k, k2) {
            assert(!key_lt(cs, k2, k));
            assert(key_lt(cs, j, k2));
            assert(!key_lt(cs, k2, k));
        } else {
            assert(key_lt(cs, k2, k));
            assert(key_lt(cs, j, k));
            assert(!key_lt(cs, k, k2));
        }
    }
}

/// `a` comes before `b` (start offset, then position).
fn key_less(cs: &Vec<Chunk>, a: usize, b: usize) -> (res: bool)
    requires
        a < cs@.len(),
        b < cs@.len(),
    ensures
        res == key_lt(views(cs@), a as int, b as int),
{
    cs[a].line_start < cs[b].line_start || (cs[a].line_start == cs[b].line_start && a < b)
}

/// `a` and `b` name the same file.
fn same_path(cs: &Vec<Chunk>, a: usize, b: usize) -> (res: bool)
    requires
        a < cs@.len(),
        b < cs@.len(),
    ensures
        res == same_file(views(cs@), a as int, b as int),
{
    cs[a].file_path == cs[b].file_path
}

/// The chunk right before `j` in its file.
fn find_prev(cs: &Vec<Chunk>, j: usize) -> (r: Option<usize>)
    requires
        j < cs@.len(),
    ensures
        match r {
            Some(k) => k < cs@.len() && prev_of(views(cs@), j as int) == Some(k as int),
            None => prev_of(views(cs@), j as int) is None,
        },
{
    let ghost vs = views(cs@);
    let mut best: Option<usize> = None;
    let mut m: usize = 0;
    while m < cs.len()
        invariant
            vs == views(cs@),
            j < cs@.len(),
            m <= cs@.len(),
            match best {
                Some(k) => k < m && before_in_file(vs, j as int, k as int)
                    && forall|q: int| 0 <= q < m && #[trigger] before_in_file(vs, j as int, q)
                        ==> !key_lt(vs, k as int, q),
                None => forall|q: int| 0 <= q < m ==> !#[trigger] before_in_file(vs, j as int, q),
            },
        decreases cs@.len() - m,
    {
        if same_path(cs, m, j) && key_less(cs, m, j) {
            match best {
                None => {
                    best = Some(m);
                },
                Some(k) => {
                    if key_less(cs, k, m) {
                        best = Some(m);
                        proof {
                            assert forall|q: int| 0 <= q < m + 1 && #[trigger] before_in_file(vs, j as int, q)
                                implies !key_lt(vs, m as int, q) by {
                                if q != m as int && key_lt(vs, m as int, q) {
                                    assert(!key_lt(vs, k as int, q));
                                    lemma_key_total(vs, k as int, q);
                                }
                            }
                        }
                    }
                },
            }
        }
        m += 1;
    }
    proof {
        match best {
            Some(k) => {
                assert forall|q: int|
                    0 <= q < vs.len() && same_file(vs, q, j as int) && #[trigger] key_lt(vs, k as int, q)
                    implies !key_lt(vs, q, j as int) by {
                    if key_lt(vs, q, j as int) {
                        assert(before_in_file(vs, j as int, q));
                    }
                }
                assert(is_prev(vs, j as int, k as int));
                lemma_prev_unique(vs, j as int, k as int);
            },
            None => {
                if exists|k: int| is_prev(vs, j as int, k) {
                    let k = choose|k: int| is_prev(vs, j as int, k);
                    assert(before_in_file(vs, j as int, k));
                }
            },
        }
    }
    best
}

/// The chunk right after `j` in its file.
fn find_next(cs: &Vec<Chunk>, j: usize) -> (r: Option<usize>)
    requires
        j < cs@.len(),
    ensures
        match r {
            Some(k) => k < cs@.len() && next_of(views(cs@), j as int) == Some(k as int),
            None => next_of(views(cs@), j as int) is None,
        },
{
    let ghost vs = views(cs@);
    let mut best: Option<usize> = None;
    let mut m: usize = 0;
    while m < cs.len()
        invariant
            vs == views(cs@),
            j < cs@.len(),
            m <= cs@.len(),
            match best {
                Some(k) => k < m && after_in_file(vs, j as int, k as int)
                    && forall|q: int| 0 <= q < m && #[trigger] after_in_file(vs, j as int, q)
                        ==> !key_lt(vs, q, k as int),
                None => forall|q: int| 0 <= q < m ==> !#[trigger] after_in_file(vs, j as int, q),
            },
        decreases cs@.len() - m,
    {
        if same_path(cs, m, j) && key_less(cs, j, m) {
            match best {
                None => {
                    best = Some(m);
                },
                Some(k) => {
                    if key_less(cs, m, k) {
                        best = Some(m);
                        proof {
                            assert forall|q: int| 0 <= q < m + 1 && #[trigger] after_in_file(vs, j as int, q)
                                implies !key_lt(vs, q, m as int) by {
                                if q != m as int && key_lt(vs, q, m as int) {
                                    assert(!key_lt(vs, q, k as int));
                                    lemma_key_total(vs, k as int, q);
                                }
                            }
                        }
                    }
                },
            }
        }
        m += 1;
    }
    proof {
        match best {
            Some(k) => {
                assert forall|q: int|
                    0 <= q < vs.len() && same_file(vs, q, j as int) && #[trigger] key_lt(vs, j as int, q)
                    implies !key_lt(vs, q, k as int) by {
                    assert(after_in_file(vs, j as int, q));
                }
                assert(is_next(vs, j as int, k as int));
                lemma_next_unique(vs, j as int, k as int);
            },
            None => {
                if exists|k: int| is_next(vs, j as int, k) {
                    let k = choose|k: int| is_next(vs, j as int, k);
                    assert(after_in_file(vs, j as int, k));
                }
            },
        }
    }
    best
}

// ---------------------------------------------------------------------------
// Line ranges of one file
// ---------------------------------------------------------------------------

/// The lines of one readable source and the byte offsets at which they start.
pub struct LineTable {
    lines: Vec<Vec<char>>,
    offs: Vec<usize>,
}

impl LineTable {
    /// The table describes `content`.
    pub closed spec fn describes(&self, content: Seq<char>) -> bool {
        &&& rows(self.lines@) == lines_of(content)
        &&& self.offs@.len() == self.lines@.len() + 1
        &&& forall|l: int|
            0 <= l <= self.lines@.len() ==> #[trigger] self.offs@[l] == line_offset(rows(self.lines@), l)
    }

    /// Number of lines in the table.
    pub closed spec fn line_count(&self) -> nat {
        self.lines@.len()
    }

    /// Builds the table of `content`.
    pub fn new(content: &String) -> (t: LineTable)
        requires
            byte_len(content@) < usize::MAX,
        ensures
            t.describes(content@),
            t.line_count() == lines_of(content@).len(),
    {
        let chars = chars_of(content.as_str());
        let lines = split_lines(&chars);
        proof {
            lemma_lines_total(content@);
        }
        let offs = line_offsets(&lines, Ghost((byte_len(content@) + 1) as nat));
        LineTable { lines, offs }
    }

    /// The line holding byte offset `x`.
    fn line_at(&self, x: usize, Ghost(content): Ghost<Seq<char>>) -> (l: usize)
        requires
            self.describes(content),
        ensures
            l == line_of(lines_of(content), x as nat),
            l <= lines_of(content).len(),
    {
        line_index(&self.offs, x, Ghost(rows(self.lines@)))
    }

    /// Lines `[a, b)` clipped to the file, as a range `[r.0, r.1)`.
    fn clip(&self, a: usize, b: usize, Ghost(content): Ghost<Seq<char>>) -> (r: (usize, usize))
        requires
            self.describes(content),
        ensures
            r.0 <= r.1 <= lines_of(content).len(),
            lines_of(content).subrange(r.0 as int, r.1 as int) == line_range(lines_of(content), a as nat, b as nat),
    {
        let n = self.lines.len();
        let e = if b < n { b } else { n };
        if a < e {
            (a, e)
        } else {
            proof {
                assert(lines_of(content).subrange(e as int, e as int) =~= Seq::<Seq<char>>::empty());
            }
            (e, e)
        }
    }
}

/// The range of lines appended to chunk `j`.
fn appended_range(cs: &Vec<Chunk>, j: usize, t: &LineTable, overlap: usize, Ghost(content): Ghost<Seq<char>>) -> (r: (usize, usize))
    requires
        j < cs@.len(),
        t.describes(content),
    ensures
        r.0 <= r.1 <= lines_of(content).len(),
        lines_of(content).subrange(r.0 as int, r.1 as int)
            == appended_lines(views(cs@), j as int, lines_of(content), overlap as nat),
{
    let ghost ls = lines_of(content);
    match find_next(cs, j) {
        Some(k) => {
            if cs[j].line_end < cs[k].line_start {
                let cel = t.line_at(cs[j].line_end, Ghost(content));
                let nsl = t.line_at(cs[k].line_start, Ghost(content));
                let reach = cel.saturating_add(overlap);
                let b = if reach < nsl { reach } else { nsl };
                proof {
                    assert(b as nat == min_nat((cel + overlap) as nat, nsl as nat));
                }
                t.clip(cel, b, Ghost(content))
            } else {
                proof {
                    assert(ls.subrange(0, 0) =~= Seq::<Seq<char>>::empty());
                }
                (0, 0)
            }
        },
        None => {
            proof {
                assert(ls.subrange(0, 0) =~= Seq::<Seq<char>>::empty());
            }
            (0, 0)
        },
    }
}

/// Every chunk of `j`'s file can grow by all lines of the file.
pub open spec fn ends_fit(cs: Seq<ChunkView>, j: int, n: nat) -> bool {
    forall|q: int| 0 <= q < cs.len() && same_file(cs, q, j) ==> #[trigger] cs[q].line_end + n <= usize::MAX
}

/// The range of context lines prepended to chunk `j`, with its new start.
fn context_range(cs: &Vec<Chunk>, j: usize, t: &LineTable, overlap: usize, Ghost(content): Ghost<Seq<char>>) -> (r: (usize, usize, usize))
    requires
        j < cs@.len(),
        t.describes(content),
        ends_fit(views(cs@), j as int, lines_of(content).len()),
    ensures
        r.0 <= r.1 <= lines_of(content).len(),
        lines_of(content).subrange(r.0 as int, r.1 as int)
            == context_lines(views(cs@), j as int, lines_of(content), overlap as nat),
        r.0 < r.1 ==> prev_of(views(cs@), j as int) is Some
            && r.2 == new_end(views(cs@), prev_of(views(cs@), j as int)->0, lines_of(content), overlap as nat),
{
    let ghost ls = lines_of(content);
    let ghost vs = views(cs@);
    match find_prev(cs, j) {
        Some(k) => {
            let (a, e) = appended_range(cs, k, t, overlap, Ghost(content));
            proof {
                assert(vs[k as int].line_end == cs@[k as int].line_end);
                assert(same_file(vs, k as int, j as int));
            }
            let pe = cs[k].line_end + (e - a);
            if pe < cs[j].line_start {
                let pel = t.line_at(pe, Ghost(content));
                let csl = t.line_at(cs[j].line_start, Ghost(content));
                let reach = pel.saturating_add(overlap);
                let b = if reach < csl { reach } else { csl };
                proof {
                    assert(b as nat == min_nat((pel + overlap) as nat, csl as nat));
                }
                let (ca, ce) = t.clip(pel, b, Ghost(content));
                (ca, ce, pe)
            } else {
                proof {
                    assert(ls.subrange(0, 0) =~= Seq::<Seq<char>>::empty());
                }
                (0, 0, 0)
            }
        },
        None => {
            proof {
                assert(ls.subrange(0, 0) =~= Seq::<Seq<char>>::empty());
            }
            (0, 0, 0)
        },
    }
}

/// Appends the separator line.
fn push_sep(v: &mut Vec<char>)
    ensures
        final(v)@ == old(v)@ + sep(),
{
    v.push('\n');
    v.push('-');
    v.push('-');
    v.push('-');
    v.push('\n');
    proof {
        assert(final(v)@ =~= old(v)@ + sep());
    }
}

/// Chunk `j` after overlap, given the table of its file.
fn overlap_chunk(cs: &Vec<Chunk>, j: usize, t: &LineTable, overlap: usize, Ghost(content): Ghost<Seq<char>>) -> (c: Chunk)
    requires
        j < cs@.len(),
        t.describes(content),
        ends_fit(views(cs@), j as int, lines_of(content).len()),
    ensures
        c@ == overlapped(views(cs@), j as int, lines_of(content), overlap as nat),
{
    let ghost vs = views(cs@);
    let ghost ls = lines_of(content);
    let (ca, ce, pe) = context_range(cs, j, t, overlap, Ghost(content));
    let (aa, ae) = appended_range(cs, j, t, overlap, Ghost(content));
    proof {
        assert(vs[j as int] == cs@[j as int]@);
        assert(same_file(vs, j as int, j as int));
    }
    let mut text: Vec<char> = Vec::new();
    let mut start = cs[j].line_start;
    if ca < ce {
        text = join_lines(&t.lines, ca, ce);
        push_sep(&mut text);
        start = pe;
    }
    let mut body = chars_of(cs[j].text.as_str());
    text.append(&mut body);
    let ghost text1 = text@;
    if aa < ae {
        let mut tail = join_lines(&t.lines, aa, ae);
        if tail.len() > 0 {
            push_sep(&mut text);
            text.append(&mut tail);
        }
    } else {
        proof {
            assert(ls.subrange(aa as int, ae as int) =~= Seq::<Seq<char>>::empty());
        }
    }
    let end = cs[j].line_end + (ae - aa);
    Chunk {
        file_path: cs[j].file_path.clone(),
        line_start: start,
        line_end: end,
        module_name: cs[j].module_name.clone(),
        symbol_kind: cs[j].symbol_kind,
        text: string_of(text.as_slice()),
        max_nesting_depth: cs[j].max_nesting_depth,
    }
}

/// The contents of a source, as a plain value.
pub open spec fn content_of(src: SourceText) -> Option<Seq<char>> {
    match src.content {
        Some(c) => Some(c@),
        None => None,
    }
}

/// The first source named `path`.
fn find_source(sources: &Vec<SourceText>, path: &String) -> (r: Option<usize>)
    ensures
        match r {
            Some(i) => i < sources@.len() && source_of(sources@, path@) == content_of(sources@[i as int]),
            None => source_of(sources@, path@) is None,
        },
{
    let mut i: usize = 0;
    proof {
        assert(sources@.skip(0) =~= sources@);
    }
    while i < sources.len()
        invariant
            i <= sources@.len(),
            source_of(sources@, path@) == source_of(sources@.skip(i as int), path@),
        decreases sources@.len() - i,
    {
        proof {
            assert(sources@.skip(i as int)[0] == sources@[i as int]);
            assert(sources@.skip(i as int).drop_first() =~= sources@.skip(i + 1));
        }
        if sources[i].path == *path {
            return Some(i);
        }
        i += 1;
    }
    proof {
        assert(sources@.skip(i as int) =~= Seq::<SourceText>::empty());
    }
    None
}

/// Every readable source fits in memory with room for one more byte.
pub open spec fn sources_fit(sources: Seq<SourceText>) -> bool {
    forall|i: int| 0 <= i < sources.len() && (#[trigger] sources[i]).content is Some
        ==> byte_len(sources[i].content->0@) < usize::MAX
}

/// Every chunk's end can grow by all lines of its file.
pub open spec fn chunk_ends_fit(cs: Seq<ChunkView>, sources: Seq<SourceText>) -> bool {
    forall|j: int| 0 <= j < cs.len() ==> match #[trigger] source_of(sources, cs[j].file_path) {
        Some(c) => cs[j].line_end + lines_of(c).len() <= usize::MAX,
        None => true,
    }
}

/// Expands each chunk with up to `overlap` lines taken from the gaps to its
/// neighbours in the same file; `sources` holds the files' contents.
pub fn apply_overlap(chunks: &mut Vec<Chunk>, overlap: usize, sources: &Vec<SourceText>)
    requires
        sources_fit(sources@),
        chunk_ends_fit(views(old(chunks)@), sources@),
    ensures
        final(chunks)@.len() == old(chunks)@.len(),
        forall|j: int| 0 <= j < old(chunks)@.len() ==>
            #[trigger] final(chunks)@[j]@ == overlap_result(views(old(chunks)@), j, overlap as nat, sources@),
{
    if overlap == 0 || chunks.len() == 0 {
        return;
    }
    let ghost vs = views(chunks@);
    let mut tables: Vec<Option<LineTable>> = Vec::new();
    let mut i: usize = 0;
    while i < sources.len()
        invariant
            sources_fit(sources@),
            i <= sources@.len(),
            tables@.len() == i,
            forall|q: int| 0 <= q < i ==> match (#[trigger] tables@[q]) {
                Some(t) => content_of(sources@[q]) is Some && t.describes(content_of(sources@[q])->0),
                None => content_of(sources@[q]) is None,
            },
        decreases sources@.len() - i,
    {
        match &sources[i].content {
            Some(c) => {
                proof {
                    assert(sources@[i as int].content is Some);
                }
                tables.push(Some(LineTable::new(c)));
            },
            None => {
                tables.push(None);
            },
        }
        i += 1;
    }
    let src: &Vec<Chunk> = chunks;
    let mut out: Vec<Chunk> = Vec::new();
    let mut j: usize = 0;
    while j < src.len()
        invariant
            vs == views(src@),
            chunk_ends_fit(vs, sources@),
            overlap > 0,
            tables@.len() == sources@.len(),
            forall|q: int| 0 <= q < sources@.len() ==> match (#[trigger] tables@[q]) {
                Some(t) => content_of(sources@[q]) is Some && t.describes(content_of(sources@[q])->0),
                None => content_of(sources@[q]) is None,
            },
            j <= src@.len(),
            out@.len() == j,
            forall|q: int| 0 <= q < j ==> #[trigger] out@[q]@ == overlap_result(vs, q, overlap as nat, sources@),
        decreases src@.len() - j,
    {
        proof {
            assert(vs[j as int] == src@[j as int]@);
        }
        let c = match find_source(sources, &src[j].file_path) {
            Some(si) => match &tables[si] {
                Some(t) => {
                    let ghost content = content_of(sources@[si as int])->0;
                    proof {
                        assert forall|q: int| 0 <= q < vs.len() && same_file(vs, q, j as int)
                            implies #[trigger] vs[q].line_end + lines_of(content).len() <= usize::MAX by {
                            assert(source_of(sources@, vs[q].file_path) == Some(content));
                        }
                        assert(source_of(sources@, vs[j as int].file_path) == Some(content));
                    }
                    overlap_chunk(src, j, t, overlap, Ghost(content))
                },
                None => src[j].clone(),
            },
            None => src[j].clone(),
        };
        out.push(c);
        j += 1;
    }
    *chunks = out;
}

/// With no overlap, every chunk stays as it was.
pub proof fn lemma_zero_overlap_identity(cs: Seq<ChunkView>, sources: Seq<SourceText>, j: int)
    requires
        0 <= j < cs.len(),
    ensures
        overlap_result(cs, j, 0, sources) == cs[j],
{
}

/// A chunk without another chunk of its file stays as it was.
pub proof fn lemma_lone_chunk_unchanged(cs: Seq<ChunkView>, sources: Seq<SourceText>, j: int, overlap: nat)
    requires
        0 <= j < cs.len(),
        forall|k: int| 0 <= k < cs.len() && k != j ==> !same_file(cs, k, j),
    ensures
        overlap_result(cs, j, overlap, sources) == cs[j],
{
    assert(!(exists|k: int| is_prev(cs, j, k)));
    assert(!(exists|k: int| is_next(cs, j, k)));
    if overlap > 0 {
        match source_of(sources, cs[j].file_path) {
            Some(content) => {
                let ls = lines_of(content);
                assert(context_lines(cs, j, ls, overlap) =~= Seq::<Seq<char>>::empty());
                assert(appended_lines(cs, j, ls, overlap) =~= Seq::<Seq<char>>::empty());
                assert(join(Seq::<Seq<char>>::empty(), nl()) =~= Seq::<char>::empty());
                assert(overlapped(cs, j, ls, overlap) == cs[j]);
            },
            None => {},
        }
    }
}

/// Overlap keeps each chunk's file, module name, kind and nesting depth.
pub proof fn lemma_overlap_keeps_identity(cs: Seq<ChunkView>, sources: Seq<SourceText>, j: int, overlap: nat)
    requires
        0 <= j < cs.len(),
    ensures
        overlap_result(cs, j, overlap, sources).file_path == cs[j].file_path,
        overlap_result(cs, j, overlap, sources).module_name == cs[j].module_name,
        overlap_result(cs, j, overlap, sources).symbol_kind == cs[j].symbol_kind,
        overlap_result(cs, j, overlap, sources).max_nesting_depth == cs[j].max_nesting_depth,
{
}

/// Lines `x` are consecutive lines of `ls`.
pub open spec fn is_run_of(x: Seq<Seq<char>>, ls: Seq<Seq<char>>) -> bool {
    exists|a: int, b: int| 0 <= a <= b <= ls.len() && x == ls.subrange(a, b)
}

/// A chunk's text between borrowed lines: the lines `before` joined and a
/// separator in front, a separator and the lines `after` joined behind (each
/// side only when it adds something).
pub open spec fn framed(before: Seq<Seq<char>>, text: Seq<char>, after: Seq<Seq<char>>) -> Seq<char> {
    let t1 = if before.len() > 0 { join(before, nl()) + sep() + text } else { text };
    let tail = join(after, nl());
    if tail.len() > 0 { t1 + sep() + tail } else { t1 }
}

/// A range of lines is a run of them.
proof fn lemma_line_range_is_run(ls: Seq<Seq<char>>, a: nat, b: nat)
    ensures
        is_run_of(line_range(ls, a, b), ls),
{
    let e = min_nat(b, ls.len());
    if a < e {
        assert(line_range(ls, a, b) == ls.subrange(a as int, e as int));
    } else {
        assert(line_range(ls, a, b) =~= ls.subrange(0, 0));
    }
}

/// Overlap keeps a chunk's own text whole inside its new text, between runs
/// of lines that come only from the chunk's own file.
pub proof fn lemma_overlap_frames_text(cs: Seq<ChunkView>, sources: Seq<SourceText>, j: int, overlap: nat)
    requires
        0 <= j < cs.len(),
    ensures
        exists|before: Seq<Seq<char>>, after: Seq<Seq<char>>| {
            &&& #[trigger] framed(before, cs[j].text, after) == overlap_result(cs, j, overlap, sources).text
            &&& (before.len() > 0 || after.len() > 0) ==> (source_of(sources, cs[j].file_path) matches Some(content)
                && is_run_of(before, lines_of(content)) && is_run_of(after, lines_of(content)))
        },
{
    let none = Seq::<Seq<char>>::empty();
    assert(join(none, nl()) =~= Seq::<char>::empty());
    if overlap == 0 {
        assert(framed(none, cs[j].text, none) == overlap_result(cs, j, overlap, sources).text);
    } else {
        match source_of(sources, cs[j].file_path) {
            Some(content) => {
                let ls = lines_of(content);
                let ctx = context_lines(cs, j, ls, overlap);
                let app = appended_lines(cs, j, ls, overlap);
                match prev_of(cs, j) {
                    Some(k) => {
                        let pe = new_end(cs, k, ls, overlap);
                        if pe < cs[j].line_start {
                            lemma_line_range_is_run(ls, line_of(ls, pe as nat),
                                min_nat(line_of(ls, pe as nat) + overlap, line_of(ls, cs[j].line_start as nat)));
                        } else {
                            assert(ctx =~= ls.subrange(0, 0));
                        }
                    },
                    None => {
                        assert(ctx =~= ls.subrange(0, 0));
                    },
                }
                match next_of(cs, j) {
                    Some(k) => {
                        if cs[j].line_end < cs[k].line_start {
                            let cel = line_of(ls, cs[j].line_end as nat);
                            lemma_line_range_is_run(ls, cel, min_nat(cel + overlap, line_of(ls, cs[k].line_start as nat)));
                        } else {
                            assert(app =~= ls.subrange(0, 0));
                        }
                    },
                    None => {
                        assert(app =~= ls.subrange(0, 0));
                    },
                }
                assert(framed(ctx, cs[j].text, app) == overlap_result(cs, j, overlap, sources).text);
            },
            None => {
                assert(framed(none, cs[j].text, none) == overlap_result(cs, j, overlap, sources).text);
            },
        }
    }
}

} // verus!
