use bm25::retriever::Retriever;

// k1 = 1.5 and b = 0.75 in fixed point with 16 fractional bits.
const K1: u64 = 98304;
const B: u64 = 49152;
const SCALE: f64 = 65536.0;

fn sample_texts() -> Vec<String> {
    vec![
        "sustainable energy development in modern cities".to_string(),
        "renewable energy systems transform cities today".to_string(),
        "sustainable urban development transforms modern infrastructure".to_string(),
        "future cities require sustainable planning approach".to_string(),
        "energy consumption patterns in urban areas".to_string(),
    ]
}

fn indexed_retriever() -> Retriever {
    let mut r = Retriever::new(K1, B);
    r.index(sample_texts());
    r
}

fn sorted_by_doc(mut v: Vec<(usize, u64)>) -> Vec<(usize, u64)> {
    v.sort();
    v
}

#[test]
fn test_retriever() {
    let mut retriever = Retriever::new(K1, B);

    let texts = vec![
        "sustainable energy development in modern cities".to_string(),
        "renewable energy systems transform cities today".to_string(),
        "sustainable urban development transforms modern infrastructure".to_string(),
        "future cities require sustainable planning approach".to_string(),
        "energy consumption patterns in urban areas".to_string(),
    ];

    retriever.index(texts);

    let result = retriever.top_n("modern cities".to_string(), 3);
    println!("{:?}", result);
}

#[test]
fn scenario_modern_cities_top_three() {
    let r = indexed_retriever();
    let result = r.top_n("modern cities".to_string(), 3);
    assert_eq!(result.len(), 3);
    let top = result.iter().max_by_key(|p| p.1).unwrap();
    assert_eq!(top.0, 0);
    for p in &result {
        assert!(p.0 <= 3, "document {} contains neither query term", p.0);
    }
}

#[test]
fn scenario_out_of_vocabulary_query_is_empty() {
    let r = indexed_retriever();
    let result = r.top_n("xyzzy".to_string(), 5);
    assert!(result.is_empty());
}

#[test]
fn scenario_empty_query_is_empty() {
    let r = indexed_retriever();
    let result = r.top_n("".to_string(), 5);
    assert!(result.is_empty());
}

#[test]
fn scenario_energy_separates_documents() {
    let r = indexed_retriever();
    let result = r.top_n("energy".to_string(), 10);
    assert_eq!(result.len(), 5);
    for p in &result {
        if p.0 == 0 || p.0 == 1 || p.0 == 4 {
            assert!(p.1 > 0, "document {} contains the term", p.0);
        } else {
            assert_eq!(p.1, 0, "document {} lacks the term", p.0);
        }
    }
    let zero_max = result.iter().filter(|p| !(p.0 == 0 || p.0 == 1 || p.0 == 4)).map(|p| p.1).max().unwrap();
    let pos_min = result.iter().filter(|p| p.0 == 0 || p.0 == 1 || p.0 == 4).map(|p| p.1).min().unwrap();
    assert!(pos_min > zero_max);
}

#[test]
fn scenario_sustainable_two_results() {
    let r = indexed_retriever();
    let result = r.top_n("sustainable".to_string(), 2);
    assert_eq!(result.len(), 2);
    for p in &result {
        assert!(p.0 == 0 || p.0 == 2 || p.0 == 3);
    }
    let idf = bm25::fixed::idf_fixed(5, 3);
    let idf_real = (5.0f64 / 3.0).ln();
    assert!((idf as f64 / SCALE - idf_real).abs() < 1e-3);
}

#[test]
fn scenario_batched_matches_single() {
    let mut r = indexed_retriever();
    let single_a = r.top_n("modern cities".to_string(), 3);
    let single_b = r.top_n("energy".to_string(), 3);
    let batched = r.top_n_batched(vec!["modern cities".to_string(), "energy".to_string()], 3);
    assert_eq!(batched.len(), 2);
    assert_eq!(sorted_by_doc(batched[0].clone()), sorted_by_doc(single_a));
    assert_eq!(sorted_by_doc(batched[1].clone()), sorted_by_doc(single_b));
}

#[test]
fn nnz_equals_sum_of_document_frequencies() {
    let r = indexed_retriever();
    // 20 distinct terms; document frequencies over the corpus sum to 30
    assert_eq!(r.vocab.len(), 20);
    assert_eq!(r.score_matrix.indptr.len(), 21);
    assert_eq!(r.score_matrix.rows.len(), 30);
    assert_eq!(r.score_matrix.vals.len(), 30);
    assert_eq!(r.score_matrix.indptr[20], 30);
    let mut total = 0usize;
    for t in 0..20 {
        total += r.score_matrix.indptr[t + 1] - r.score_matrix.indptr[t];
    }
    assert_eq!(total, 30);
}

#[test]
fn column_lengths_equal_document_frequencies() {
    let r = indexed_retriever();
    // first-seen term identifiers: sustainable = 0, energy = 1, cities = 5,
    // renewable = 6, urban = 10
    let df = |t: usize| r.score_matrix.indptr[t + 1] - r.score_matrix.indptr[t];
    assert_eq!(df(0), 3);
    assert_eq!(df(1), 3);
    assert_eq!(df(5), 3);
    assert_eq!(df(6), 1);
    assert_eq!(df(10), 2);
}

#[test]
fn stored_value_matches_bm25_formula() {
    let r = indexed_retriever();
    // column 0 is "sustainable" (df = 3); its first posting is document 0,
    // whose length equals the average, so the term-frequency factor is 1 and
    // the stored value is exactly the inverse document frequency
    assert_eq!(r.score_matrix.rows[0], 0);
    let expected = (5.0f64 / 3.0).ln();
    let stored = r.score_matrix.vals[0] as f64 / SCALE;
    assert!((stored - expected).abs() < 2e-3, "stored {stored} expected {expected}");
}

#[test]
fn full_bm25_posting_with_unequal_lengths() {
    let mut r = Retriever::new(K1, B);
    r.index(vec!["alpha beta alpha".to_string(), "beta gamma".to_string(), "delta".to_string()]);
    // term "alpha" has id 0, occurs twice in document 0 of length 3;
    // average length is 2, N = 3, df(alpha) = 1
    let idf = 3.0f64.ln();
    let tf = 2.0f64;
    let k1 = 1.5f64;
    let b = 0.75f64;
    let expected = idf * (tf * (k1 + 1.0)) / (tf + k1 * (1.0 - b + b * 3.0 / 2.0));
    let stored = r.score_matrix.vals[0] as f64 / SCALE;
    assert!((stored - expected).abs() < 2e-3, "stored {stored} expected {expected}");
    let result = r.top_n("alpha".to_string(), 1);
    assert_eq!(result.len(), 1);
    assert_eq!(result[0].0, 0);
}

#[test]
fn reindexing_is_deterministic() {
    let r1 = indexed_retriever();
    let mut r2 = indexed_retriever();
    // a second rebuild over the same corpus changes nothing
    r2.index(sample_texts());
    assert_eq!(r1.score_matrix.indptr, r2.score_matrix.indptr);
    assert_eq!(r1.score_matrix.rows, r2.score_matrix.rows);
    assert_eq!(r1.score_matrix.vals, r2.score_matrix.vals);
    assert_eq!(r1.vocab, r2.vocab);
}

#[test]
fn result_count_is_min_of_n_and_docs() {
    let r = indexed_retriever();
    assert_eq!(r.top_n("cities".to_string(), 2).len(), 2);
    assert_eq!(r.top_n("cities".to_string(), 5).len(), 5);
    assert_eq!(r.top_n("cities".to_string(), 100).len(), 5);
    assert_eq!(r.top_n("cities".to_string(), 0).len(), 0);
}

#[test]
fn all_miss_query_with_spaces_is_empty() {
    let r = indexed_retriever();
    assert!(r.top_n("qwert zxcv".to_string(), 3).is_empty());
}

#[test]
fn full_query_scores_sum_to_matrix_totals() {
    let r = indexed_retriever();
    // querying every document (n = N) returns all accumulated scores, whose
    // sum equals the sum of the queried columns of the matrix
    let result = r.top_n("energy cities".to_string(), 5);
    assert_eq!(result.len(), 5);
    let returned: u64 = result.iter().map(|p| p.1).sum();
    let mut expected = 0u64;
    for t in [1usize, 5usize] {
        for p in r.score_matrix.indptr[t]..r.score_matrix.indptr[t + 1] {
            expected += r.score_matrix.vals[p];
        }
    }
    assert_eq!(returned, expected);
}

#[test]
fn duplicated_query_terms_double_scores() {
    let r = indexed_retriever();
    let once = sorted_by_doc(r.top_n("energy".to_string(), 5));
    let twice = sorted_by_doc(r.top_n("energy energy".to_string(), 5));
    assert_eq!(once.len(), twice.len());
    for (a, b) in once.iter().zip(twice.iter()) {
        assert_eq!(a.0, b.0);
        assert_eq!(a.1 * 2, b.1);
    }
}

#[test]
fn tokenizer_lowercases_queries() {
    let r = indexed_retriever();
    let lower = sorted_by_doc(r.top_n("modern cities".to_string(), 5));
    let mixed = sorted_by_doc(r.top_n("MODERN Cities".to_string(), 5));
    assert_eq!(lower, mixed);
}

#[test]
fn fresh_and_empty_retrievers_return_nothing() {
    let r = Retriever::new(K1, B);
    assert!(r.top_n("anything".to_string(), 3).is_empty());
    let mut r2 = Retriever::new(K1, B);
    r2.index(Vec::new());
    assert!(r2.top_n("anything".to_string(), 3).is_empty());
}

#[test]
fn selection_surfaces_late_documents() {
    // only the last document contains the term, so the selector must move
    // it to the front of the partially ordered pair vector
    let r = indexed_retriever();
    let result = r.top_n("areas".to_string(), 1);
    assert_eq!(result.len(), 1);
    assert_eq!(result[0].0, 4);
    assert!(result[0].1 > 0);
    let two = r.top_n("urban areas".to_string(), 1);
    assert_eq!(two.len(), 1);
    assert_eq!(two[0].0, 4);
}

#[test]
fn empty_documents_are_tolerated() {
    let mut r = Retriever::new(K1, B);
    r.index(vec!["".to_string(), "alpha".to_string(), "  ".to_string()]);
    let result = r.top_n("alpha".to_string(), 3);
    assert_eq!(result.len(), 3);
    let top = result.iter().max_by_key(|p| p.1).unwrap();
    assert_eq!(top.0, 1);
    assert!(top.1 > 0);
}
