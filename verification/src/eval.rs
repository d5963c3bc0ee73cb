//! Retrieval evaluation: where the first relevant chunk ranks for each
//! labelled query, and how many queries found one.
//!
//! The mean reciprocal rank is a floating-point mean of these ranks and is
//! computed by the caller.
use vstd::prelude::*;

verus! {

/// A (query, expected chunk ids) label used to evaluate retrieval.
#[derive(Debug)]
pub struct Label {
    /// The query text.
    pub query: String,
    /// Ids of the chunks that should appear among the top results; a hit
    /// counts if any of them appears.
    pub expected_ids: Vec<String>,
}

/// Per-query evaluation detail.
#[derive(Debug)]
pub struct EvaluationDetail {
    /// The query text.
    pub query: String,
    /// Position of the first relevant chunk (1-based), or 0 if none found.
    pub rank: usize,
    /// Whether any ground-truth chunk appeared in results.
    pub hit: bool,
}

/// The strings of a list, as character sequences.
pub open spec fn ids_view(v: Seq<String>) -> Seq<Seq<char>> {
    v.map_values(|s: String| s@)
}

/// Whether `id` is among `expected`.
pub open spec fn is_expected(expected: Seq<Seq<char>>, id: Seq<char>) -> bool {
    expected.contains(id)
}

/// The 1-based position, among the first `limit` results, of the first
/// expected id; 0 when there is none.
pub open spec fn first_relevant_rank(results: Seq<Seq<char>>, expected: Seq<Seq<char>>, limit: nat) -> nat
    decreases limit,
{
    if limit == 0 {
        0
    } else {
        let earlier = first_relevant_rank(results, expected, (limit - 1) as nat);
        if earlier > 0 {
            earlier
        } else if limit <= results.len() && is_expected(expected, results[limit - 1]) {
            limit
        } else {
            0
        }
    }
}

/// Whether `id` is one of `ids`.
fn contains_id(ids: &Vec<String>, id: &String) -> (r: bool)
    ensures
        r == is_expected(ids_view(ids@), id@),
{
    let mut i: usize = 0;
    while i < ids.len()
        invariant
            i <= ids@.len(),
            forall|k: int| 0 <= k < i ==> ids@[k]@ != id@,
        decreases ids@.len() - i,
    {
        if ids[i] == *id {
            proof {
                assert(ids_view(ids@)[i as int] == id@);
            }
            return true;
        }
        i += 1;
    }
    proof {
        if ids_view(ids@).contains(id@) {
            let k = choose|k: int| 0 <= k < ids_view(ids@).len() && ids_view(ids@)[k] == id@;
            assert(ids@[k]@ == id@);
        }
    }
    false
}

/// The 1-based rank of the first result (among the first `top_k`) whose id
/// is expected, or 0 if none is.
pub fn find_rank_of_first_relevant(result_ids: &Vec<String>, expected_ids: &Vec<String>, top_k: usize) -> (rank: usize)
    ensures
        rank == first_relevant_rank(ids_view(result_ids@), ids_view(expected_ids@),
            if top_k < result_ids@.len() { top_k as nat } else { result_ids@.len() }),
{
    let limit = if top_k < result_ids.len() { top_k } else { result_ids.len() };
    let mut i: usize = 0;
    while i < limit
        invariant
            limit <= result_ids@.len(),
            limit as nat == (if top_k < result_ids@.len() { top_k as nat } else { result_ids@.len() }),
            i <= limit,
            first_relevant_rank(ids_view(result_ids@), ids_view(expected_ids@), i as nat) == 0,
        decreases limit - i,
    {
        if contains_id(expected_ids, &result_ids[i]) {
            proof {
                assert(ids_view(result_ids@)[i as int] == result_ids@[i as int]@);
                assert(first_relevant_rank(ids_view(result_ids@), ids_view(expected_ids@), (i + 1) as nat) == i + 1);
                lemma_rank_stable(ids_view(result_ids@), ids_view(expected_ids@), (i + 1) as nat, limit as nat);
            }
            return i + 1;
        }
        proof {
            assert(ids_view(result_ids@)[i as int] == result_ids@[i as int]@);
        }
        i += 1;
    }
    0
}

/// The details of each label and the number of hits, given each label's
/// ranked result ids (as retrieved with `top_k`).
pub fn evaluate_ranks(labels: &Vec<Label>, results: &Vec<Vec<String>>, top_k: usize) -> (r: (Vec<EvaluationDetail>, usize))
    requires
        results@.len() == labels@.len(),
    ensures
        r.0@.len() == labels@.len(),
        forall|i: int| 0 <= i < labels@.len() ==> {
            let rank = first_relevant_rank(ids_view(results@[i]@), ids_view(labels@[i].expected_ids@),
                if top_k < results@[i]@.len() { top_k as nat } else { results@[i]@.len() });
            &&& (#[trigger] r.0@[i]).rank == rank
            &&& r.0@[i].hit == (rank > 0)
            &&& r.0@[i].query@ == labels@[i].query@
        },
        r.1 == hit_count(r.0@, r.0@.len() as int),
{
    let mut details: Vec<EvaluationDetail> = Vec::new();
    let mut hits: usize = 0;
    let mut i: usize = 0;
    while i < labels.len()
        invariant
            results@.len() == labels@.len(),
            i <= labels@.len(),
            details@.len() == i,
            hits <= i,
            hits == hit_count(details@, i as int),
            forall|k: int| 0 <= k < i ==> {
                let rank = first_relevant_rank(ids_view(results@[k]@), ids_view(labels@[k].expected_ids@),
                    if top_k < results@[k]@.len() { top_k as nat } else { results@[k]@.len() });
                &&& (#[trigger] details@[k]).rank == rank
                &&& details@[k].hit == (rank > 0)
                &&& details@[k].query@ == labels@[k].query@
            },
        decreases labels@.len() - i,
    {
        let rank = find_rank_of_first_relevant(&results[i], &labels[i].expected_ids, top_k);
        let hit = rank > 0;
        if hit {
            hits += 1;
        }
        let ghost before = details@;
        details.push(EvaluationDetail { query: labels[i].query.clone(), rank, hit });
        proof {
            assert(details@.take(i as int) =~= before);
            lemma_hit_count_prefix(details@, before, i as int);
        }
        i += 1;
    }
    (details, hits)
}

/// Once found within a limit, the rank stays the same for larger limits.
proof fn lemma_rank_stable(results: Seq<Seq<char>>, expected: Seq<Seq<char>>, n: nat, m: nat)
    requires
        n <= m,
        first_relevant_rank(results, expected, n) > 0,
    ensures
        first_relevant_rank(results, expected, m) == first_relevant_rank(results, expected, n),
    decreases m - n,
{
    if n < m {
        lemma_rank_stable(results, expected, n, (m - 1) as nat);
    }
}

/// Number of details among the first `n` that are hits.
pub open spec fn hit_count(details: Seq<EvaluationDetail>, n: int) -> nat
    decreases n,
{
    if n <= 0 {
        0
    } else {
        hit_count(details, n - 1) + if details[n - 1].hit { 1nat } else { 0nat }
    }
}

/// The hit count of a prefix does not see what follows it.
proof fn lemma_hit_count_prefix(all: Seq<EvaluationDetail>, pre: Seq<EvaluationDetail>, n: int)
    requires
        0 <= n <= pre.len(),
        pre.len() <= all.len(),
        forall|k: int| 0 <= k < pre.len() ==> all[k] == pre[k],
    ensures
        hit_count(all, n) == hit_count(pre, n),
    decreases n,
{
    if n > 0 {
        lemma_hit_count_prefix(all, pre, n - 1);
    }
}

/// The hit count counts the details that are hits.
pub proof fn lemma_hit_count_counts(details: Seq<EvaluationDetail>)
    ensures
        hit_count(details, details.len() as int) == details.filter(|d: EvaluationDetail| d.hit).len(),
        hit_count(details, details.len() as int) <= details.len(),
    decreases details.len(),
{
    reveal(Seq::filter);
    if details.len() > 0 {
        let front = details.drop_last();
        lemma_hit_count_counts(front);
        lemma_hit_count_prefix(details, front, front.len() as int);
    }
}

/// A rank is either 0 or the position of an expected id within the limit,
/// and no earlier position holds an expected id.
pub proof fn lemma_rank_is_first(results: Seq<Seq<char>>, expected: Seq<Seq<char>>, limit: nat)
    requires
        limit <= results.len(),
    ensures
        first_relevant_rank(results, expected, limit) == 0 ==>
            forall|k: int| 0 <= k < limit ==> !is_expected(expected, #[trigger] results[k]),
        first_relevant_rank(results, expected, limit) > 0 ==> {
            let r = first_relevant_rank(results, expected, limit);
            &&& r <= limit
            &&& is_expected(expected, results[r - 1])
            &&& forall|k: int| 0 <= k < r - 1 ==> !is_expected(expected, #[trigger] results[k])
        },
    decreases limit,
{
    if limit > 0 {
        lemma_rank_is_first(results, expected, (limit - 1) as nat);
    }
}

} // verus!
