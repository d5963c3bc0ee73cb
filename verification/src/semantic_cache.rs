//! The semantic answer cache's decisions that are not similarity scores:
//! which lines of the cache file hold entries, and when an entry has expired.
//!
//! Embedding questions, comparing them and reading the clock belong to the
//! caller.
use vstd::prelude::*;
use crate::text::{chars_of, lines_of, string_of, trim_chars, trimmed};
use crate::overlap::{rows, split_lines};

verus! {

/// Whether a line is a comment of the cache file (it starts with `#`).
pub open spec fn comment_line(l: Seq<char>) -> bool {
    l.len() > 0 && l[0] == '#'
}

/// The entry lines among `ls`: the non-blank lines that are not comments, in order.
pub open spec fn entry_lines_of(ls: Seq<Seq<char>>) -> Seq<Seq<char>>
    decreases ls.len(),
{
    if ls.len() == 0 {
        seq![]
    } else {
        let rest = entry_lines_of(ls.drop_last());
        let l = ls.last();
        if trimmed(l).len() > 0 && !comment_line(l) { rest.push(l) } else { rest }
    }
}

/// The entry lines are the lines that are neither blank nor comments, each
/// kept whole and in order.
pub proof fn lemma_entry_lines_filter(ls: Seq<Seq<char>>)
    ensures
        entry_lines_of(ls) == ls.filter(|l: Seq<char>| trimmed(l).len() > 0 && !(l.len() > 0 && l[0] == '#')),
    decreases ls.len(),
{
    reveal(Seq::filter);
    if ls.len() > 0 {
        lemma_entry_lines_filter(ls.drop_last());
    }
}

/// The entry lines of a cache file's content (see [`entry_lines_of`]).
pub fn entry_lines(content: &str) -> (r: Vec<String>)
    ensures
        r@.map_values(|l: String| l@) == entry_lines_of(lines_of(content@)),
{
    let chars = chars_of(content);
    let lines = split_lines(&chars);
    let ghost ls = rows(lines@);
    let mut out: Vec<String> = Vec::new();
    let mut i: usize = 0;
    while i < lines.len()
        invariant
            ls == rows(lines@),
            ls == lines_of(content@),
            i <= lines@.len(),
            out@.map_values(|l: String| l@) == entry_lines_of(ls.take(i as int)),
        decreases lines@.len() - i,
    {
        proof {
            assert(ls.take(i + 1).drop_last() =~= ls.take(i as int));
            assert(ls.take(i + 1).last() == lines@[i as int]@);
        }
        let t = trim_chars(&lines[i]);
        let comment = lines[i].len() > 0 && lines[i][0] == '#';
        if t.len() > 0 && !comment {
            let ghost before = out@;
            out.push(string_of(lines[i].as_slice()));
            proof {
                assert(out@.map_values(|l: String| l@) =~= before.map_values(|l: String| l@).push(lines@[i as int]@));
            }
        }
        i += 1;
    }
    proof {
        assert(ls.take(lines@.len() as int) =~= ls);
    }
    out
}

/// Whether an entry that expires at `expires_at` has expired at time `now`
/// (both in seconds since the Unix epoch): it has from that second on.
pub fn is_expired(expires_at: u64, now: u64) -> (r: bool)
    ensures
        r == (now >= expires_at),
{
    now >= expires_at
}

} // verus!
