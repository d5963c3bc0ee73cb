use rust_rag::eval::{evaluate_ranks, find_rank_of_first_relevant, EvaluationDetail, Label};

fn ids(v: &[&str]) -> Vec<String> {
    v.iter().map(|s| s.to_string()).collect()
}

/// The report's numbers as the evaluation prints them: query count, MRR and hits.
fn report(labels: &Vec<Label>, retrieve: impl Fn(&str, usize) -> Vec<String>, top_k: usize) -> (usize, f64, usize) {
    let results: Vec<Vec<String>> = labels.iter().map(|l| retrieve(&l.query, top_k)).collect();
    let (details, hits): (Vec<EvaluationDetail>, usize) = evaluate_ranks(labels, &results, top_k);
    let sum: f64 = details.iter().filter(|d| d.hit).map(|d| 1.0 / d.rank as f64).sum();
    let mrr = if labels.is_empty() { 0.0 } else { sum / labels.len() as f64 };
    (labels.len(), mrr, hits)
}

#[test]
fn test_mrr_perfect_ranking() {
    let labels = vec![Label { query: "find foo".to_string(), expected_ids: ids(&["chunk_foo"]) }];
    let results = |query: &str, _top_k: usize| -> Vec<String> {
        if query == "find foo" { ids(&["chunk_foo", "chunk_bar"]) } else { vec![] }
    };
    let (query_count, mrr, hits) = report(&labels, results, 10);
    assert_eq!(query_count, 1);
    assert!((mrr - 1.0).abs() < 1e-9, "MRR should be 1.0");
    assert_eq!(hits, 1);
}

#[test]
fn test_mrr_relevant_chunk_not_found() {
    let labels = vec![Label { query: "find bar".to_string(), expected_ids: ids(&["chunk_bar"]) }];
    let results = |query: &str, _top_k: usize| -> Vec<String> {
        if query == "find bar" { ids(&["chunk_unrelated"]) } else { vec![] }
    };
    let (query_count, mrr, hits) = report(&labels, results, 10);
    assert_eq!(query_count, 1);
    assert!(mrr < 1e-9, "MRR should be ~0 when irrelevant result returned");
    assert_eq!(hits, 0);
}

#[test]
fn test_mrr_partial_ranking() {
    let labels = vec![Label { query: "find bar".to_string(), expected_ids: ids(&["chunk_bar"]) }];
    let results = |query: &str, _top_k: usize| -> Vec<String> {
        if query == "find bar" { ids(&["chunk_first", "chunk_bar", "chunk_third"]) } else { vec![] }
    };
    let (_, mrr, hits) = report(&labels, results, 10);
    assert!((mrr - 0.5).abs() < 1e-9, "MRR should be 0.5 when relevant chunk is at rank 2");
    assert_eq!(hits, 1);
}

#[test]
fn test_mrr_multiple_labels_average() {
    let labels = vec![
        Label { query: "query_a".into(), expected_ids: ids(&["chunk_a"]) },
        Label { query: "query_b".into(), expected_ids: ids(&["chunk_b"]) },
    ];
    let results = |query: &str, _top_k: usize| -> Vec<String> {
        match query {
            "query_a" => ids(&["chunk_a", "other_a"]),
            "query_b" => ids(&["chunk_b", "other_b"]),
            _ => vec![],
        }
    };
    let (query_count, mrr, _) = report(&labels, results, 10);
    assert_eq!(query_count, 2);
    assert!((mrr - 1.0).abs() < 1e-9);
}

#[test]
fn test_rank_respects_top_k() {
    let results = ids(&["c1", "c2", "c3"]);
    assert_eq!(find_rank_of_first_relevant(&results, &ids(&["c3"]), 3), 3);
    assert_eq!(find_rank_of_first_relevant(&results, &ids(&["c3"]), 2), 0);
    assert_eq!(find_rank_of_first_relevant(&results, &ids(&["zz", "c2", "c1"]), 10), 1);
}

#[test]
fn test_evaluate_ranks_details() {
    let labels = vec![
        Label { query: "a".to_string(), expected_ids: ids(&["x"]) },
        Label { query: "b".to_string(), expected_ids: ids(&["y", "z"]) },
        Label { query: "c".to_string(), expected_ids: ids(&["none"]) },
    ];
    let results = vec![ids(&["x", "q"]), ids(&["q", "z", "y"]), ids(&["q"])];
    let (details, hits) = evaluate_ranks(&labels, &results, 5);
    assert_eq!(hits, 2);
    assert_eq!(details[0].rank, 1);
    assert_eq!(details[1].rank, 2);
    assert_eq!(details[2].rank, 0);
    assert!(details[0].hit && details[1].hit && !details[2].hit);
    assert_eq!(details[1].query, "b");
}
