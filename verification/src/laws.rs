use vstd::prelude::*;

verus! {

use crate::matrix::{
    col_rows, col_vals, lemma_col_rows_len_df, lemma_col_vals_len, rows_upto, vals_upto, val_of,
};
use crate::retriever::{qids, string_bytes, Retriever};
use crate::stats::{df_of, occ};
use crate::tok::{corpus_of, tokens_of, vocab_of};
use vstd::seq_lib::{commutative_foldr, lemma_fold_right_permutation};
use vstd::set_lib::{lemma_int_range, set_int_range};

/// The sum of the document frequencies of the first `t` terms.
pub open spec fn sum_df(corpus: Seq<Seq<usize>>, t: int) -> int
    decreases t,
{
    if t <= 0 {
        0
    } else {
        sum_df(corpus, t - 1) + df_of(corpus, (t - 1) as usize)
    }
}

pub proof fn lemma_nnz_is_sum_df(corpus: Seq<Seq<usize>>, t: int)
    requires
        t >= 0,
    ensures
        rows_upto(corpus, t).len() == sum_df(corpus, t),
    decreases t,
{
    if t > 0 {
        lemma_nnz_is_sum_df(corpus, t - 1);
        lemma_col_rows_len_df(corpus, ((t - 1) as usize), corpus.len() as int);
    }
}

/// Law: after indexing, the number of stored nonzeros equals the sum over
/// the vocabulary of the document frequencies.
pub proof fn lemma_matrix_nnz(r: Retriever, tb: Seq<Seq<u8>>)
    requires
        r.indexed(tb),
    ensures
        r.score_matrix.rows@.len() == sum_df(corpus_of(tb), vocab_of(tb).len() as int),
        r.score_matrix.vals@.len() == r.score_matrix.rows@.len(),
{
    lemma_nnz_is_sum_df(corpus_of(tb), vocab_of(tb).len() as int);
    crate::matrix::lemma_vals_upto_len(
        corpus_of(tb),
        r.k1 as int,
        r.b as int,
        vocab_of(tb).len() as int,
    );
}

/// Law: after indexing, the slice of column `t` has exactly `df(t)` entries.
pub proof fn lemma_column_len_is_df(r: Retriever, tb: Seq<Seq<u8>>, t: usize)
    requires
        r.indexed(tb),
        (t as int) < vocab_of(tb).len(),
        rows_upto(corpus_of(tb), vocab_of(tb).len() as int).len() <= usize::MAX,
    ensures
        r.score_matrix.indptr@[t as int + 1] - r.score_matrix.indptr@[t as int] == df_of(
            corpus_of(tb),
            t,
        ),
{
    let corpus = corpus_of(tb);
    let nt = vocab_of(tb).len() as int;
    crate::matrix::lemma_rows_upto_mono(corpus, t as int, nt);
    crate::matrix::lemma_rows_upto_mono(corpus, t as int + 1, nt);
    assert(r.score_matrix.indptr@[t as int] as int == rows_upto(corpus, t as int).len());
    assert(r.score_matrix.indptr@[t as int + 1] as int == rows_upto(corpus, t as int + 1).len());
    lemma_col_rows_len_df(corpus, t, corpus.len() as int);
}

/// Within one column, entry `i` belongs to a document that contains the term
/// and stores exactly its BM25 posting value.
pub proof fn lemma_col_entry_is_posting(
    corpus: Seq<Seq<usize>>,
    k1: int,
    b: int,
    t: usize,
    d: int,
    i: int,
)
    requires
        corpus.len() <= usize::MAX,
        0 <= d <= corpus.len(),
        0 <= i < col_rows(corpus, t, d).len(),
    ensures
        col_rows(corpus, t, d)[i] < d,
        occ(corpus[col_rows(corpus, t, d)[i] as int], t) >= 1,
        col_vals(corpus, k1, b, t, d)[i] == val_of(
            corpus,
            k1,
            b,
            col_rows(corpus, t, d)[i] as int,
            t,
        ) as u64,
    decreases d,
{
    lemma_col_vals_len(corpus, k1, b, t, d);
    if d > 0 {
        let rprev = col_rows(corpus, t, d - 1);
        lemma_col_vals_len(corpus, k1, b, t, d - 1);
        if occ(corpus[d - 1], t) > 0 && i == rprev.len() {
        } else {
            lemma_col_entry_is_posting(corpus, k1, b, t, d - 1, i);
            assert(col_rows(corpus, t, d)[i] == rprev[i]);
            assert(col_vals(corpus, k1, b, t, d)[i] == col_vals(corpus, k1, b, t, d - 1)[i]);
        }
    }
}

/// Positions below `rows_upto(corpus, a).len()` are unchanged by appending
/// further columns.
pub proof fn lemma_rows_upto_stable(corpus: Seq<Seq<usize>>, k1: int, b: int, a: int, m: int, p: int)
    requires
        0 <= a <= m,
        0 <= p < rows_upto(corpus, a).len(),
    ensures
        rows_upto(corpus, m)[p] == rows_upto(corpus, a)[p],
        vals_upto(corpus, k1, b, m)[p] == vals_upto(corpus, k1, b, a)[p],
    decreases m - a,
{
    crate::matrix::lemma_vals_upto_len(corpus, k1, b, a);
    if a < m {
        lemma_rows_upto_stable(corpus, k1, b, a, m - 1, p);
        crate::matrix::lemma_rows_upto_mono(corpus, a, m - 1);
        crate::matrix::lemma_vals_upto_len(corpus, k1, b, m - 1);
    }
}

/// Law: every stored nonzero at `(d, t)` equals the precomputed BM25
/// contribution `idf(t) * tf * (k1 + 1) / (tf + k1 * (1 - b + b * len/avg))`
/// of that posting, and its document contains the term.
pub proof fn lemma_stored_values_are_postings(r: Retriever, tb: Seq<Seq<u8>>, t: usize, i: int)
    requires
        r.indexed(tb),
        tb.len() <= usize::MAX,
        (t as int) < vocab_of(tb).len(),
        rows_upto(corpus_of(tb), vocab_of(tb).len() as int).len() <= usize::MAX,
        0 <= i < col_rows(corpus_of(tb), t, corpus_of(tb).len() as int).len(),
    ensures
        ({
            let corpus = corpus_of(tb);
            let pos = r.score_matrix.indptr@[t as int] + i;
            let d = r.score_matrix.rows@[pos] as int;
            &&& occ(corpus[d], t) >= 1
            &&& r.score_matrix.vals@[pos] == val_of(corpus, r.k1 as int, r.b as int, d, t) as u64
        }),
{
    let corpus = corpus_of(tb);
    let nt = vocab_of(tb).len() as int;
    let nd = corpus.len() as int;
    let col_r = col_rows(corpus, t, nd);
    let col_v = col_vals(corpus, r.k1 as int, r.b as int, t, nd);
    crate::matrix::lemma_rows_upto_mono(corpus, t as int, nt);
    assert(r.score_matrix.indptr@[t as int] as int == rows_upto(corpus, t as int).len());
    let pos = r.score_matrix.indptr@[t as int] + i;
    lemma_col_entry_is_posting(corpus, r.k1 as int, r.b as int, t, nd, i);
    crate::matrix::lemma_vals_upto_len(corpus, r.k1 as int, r.b as int, t as int);
    lemma_col_vals_len(corpus, r.k1 as int, r.b as int, t, nd);
    // position `pos` of the full arrays is entry `i` of column `t`
    assert(rows_upto(corpus, t as int + 1)[pos] == col_r[i]);
    assert(vals_upto(corpus, r.k1 as int, r.b as int, t as int + 1)[pos] == col_v[i]);
    crate::matrix::lemma_vals_upto_len(corpus, r.k1 as int, r.b as int, t as int + 1);
    lemma_rows_upto_stable(corpus, r.k1 as int, r.b as int, t as int + 1, nt, pos);
}

/// The score-summing fold operator.
pub open spec fn add_score() -> spec_fn((usize, u64), int) -> int {
    |p: (usize, u64), acc: int| p.1 + acc
}

/// The sum of the scores of a result sequence.
pub open spec fn pair_sum(r: Seq<(usize, u64)>) -> int {
    r.fold_right(add_score(), 0)
}

/// The sum of the first `n` entries of a dense score vector.
pub open spec fn scores_sum(scores: Seq<u64>, n: int) -> int
    decreases n,
{
    if n <= 0 {
        0
    } else {
        scores_sum(scores, n - 1) + scores[n - 1]
    }
}

proof fn lemma_canonical_pairs_sum(scores: Seq<u64>, n: int, b: int)
    requires
        0 <= n <= scores.len(),
    ensures
        Seq::new(n as nat, |d: int| (d as usize, scores[d])).fold_right(add_score(), b)
            == scores_sum(scores, n) + b,
    decreases n,
{
    let pp = Seq::new(n as nat, |d: int| (d as usize, scores[d]));
    if n > 0 {
        let prev = Seq::new((n - 1) as nat, |d: int| (d as usize, scores[d]));
        assert(pp.drop_last() =~= prev);
        assert(pp.last() == ((n - 1) as usize, scores[n - 1]));
        lemma_canonical_pairs_sum(scores, n - 1, add_score()(pp.last(), b));
    }
}

/// Law: a full-length query result (`n >= n_docs`) carries every document's
/// accumulated score exactly once, so the returned scores sum to the total
/// of the accumulated scores over all documents.
pub proof fn lemma_top_n_scores_total(s: Retriever, query: Seq<char>, n: int, r: Seq<(usize, u64)>)
    requires
        s.wf(),
        s.vocab@.len() <= usize::MAX,
        s.top_n_post(query, n, r),
        n >= s.n_docs as int,
        qids(s.vocab_view(), tokens_of(string_bytes(query))).len() > 0,
    ensures
        pair_sum(r) == scores_sum(
            s.scores_of(qids(s.vocab_view(), tokens_of(string_bytes(query)))),
            s.n_docs as int,
        ),
{
    broadcast use vstd::set::group_set_axioms;

    let q = qids(s.vocab_view(), tokens_of(string_bytes(query)));
    let scores = s.scores_of(q);
    let nd = s.n_docs as int;
    crate::retriever::lemma_qids_bounds(
        s.vocab_view(),
        tokens_of(string_bytes(query)),
    );
    crate::retriever::lemma_scores_of_len(s, q, q.len() as int);
    assert(scores.len() == nd);
    assert(r.len() == nd);
    let pp = Seq::new(nd as nat, |d: int| (d as usize, scores[d]));
    let ds = Seq::new(nd as nat, |i: int| r[i].0 as int);
    assert(ds.no_duplicates()) by {
        assert forall|i: int, j: int|
            0 <= i < ds.len() && 0 <= j < ds.len() && i != j implies ds[i] != ds[j] by {
            assert(r[i].0 < s.n_docs);
        }
    }
    ds.unique_seq_to_set();
    lemma_int_range(0, nd);
    let rng = set_int_range(0, nd);
    assert(ds.to_set().subset_of(rng)) by {
        assert forall|x: int| ds.to_set().contains(x) implies rng.contains(x) by {
            let i = choose|i: int| 0 <= i < ds.len() && ds[i] == x;
            assert(r[i].0 < s.n_docs);
        }
    }
    assert forall|d: int| 0 <= d < nd implies ds.to_set().contains(d) by {
        if !ds.to_set().contains(d) {
            ds.to_set().lemma_subset_not_in_lt(rng, d);
            assert(false);
        }
    }
    // r and the canonical pair list hold the same pairs, each exactly once
    assert(r.no_duplicates()) by {
        assert forall|i: int, j: int|
            0 <= i < r.len() && 0 <= j < r.len() && i != j implies r[i] != r[j] by {
            if i < j {
                assert(r[i].0 != r[j].0);
            } else {
                assert(r[j].0 != r[i].0);
            }
        }
    }
    assert(pp.no_duplicates()) by {
        assert forall|i: int, j: int|
            0 <= i < pp.len() && 0 <= j < pp.len() && i != j implies pp[i] != pp[j] by {
            assert(pp[i].0 == i as usize);
            assert(pp[j].0 == j as usize);
        }
    }
    r.to_multiset_ensures();
    pp.to_multiset_ensures();
    r.lemma_multiset_has_no_duplicates();
    pp.lemma_multiset_has_no_duplicates();
    assert forall|x: (usize, u64)|
        r.to_multiset().count(x) == pp.to_multiset().count(x) by {
        if r.contains(x) {
            let i = choose|i: int| 0 <= i < r.len() && r[i] == x;
            assert(r[i].0 < s.n_docs);
            assert(r[i].1 == scores[r[i].0 as int]);
            assert(pp[r[i].0 as int] == x);
            assert(pp.contains(x));
            assert(r.to_multiset().count(x) == 1);
            assert(pp.to_multiset().count(x) == 1);
        } else if pp.contains(x) {
            let d = choose|d: int| 0 <= d < pp.len() && pp[d] == x;
            assert(ds.to_set().contains(d));
            assert(ds.contains(d));
            let i = choose|i: int| 0 <= i < ds.len() && ds[i] == d;
            assert(r[i].0 as int == d);
            assert(r[i].1 == scores[d]);
            assert(r[i] == x);
            assert(r.contains(x));
            assert(false);
        } else {
            assert(r.to_multiset().count(x) == 0);
            assert(pp.to_multiset().count(x) == 0);
        }
    }
    assert(r.to_multiset() =~= pp.to_multiset());
    assert(commutative_foldr(add_score())) by {
        assert forall|x: (usize, u64), y: (usize, u64), v: int|
            #[trigger] add_score()(x, add_score()(y, v)) == add_score()(y, add_score()(x, v)) by {
        }
    }
    lemma_fold_right_permutation(r, pp, add_score(), 0);
    lemma_canonical_pairs_sum(scores, nd, 0);
}

/// No two documents share an accumulated score for the resolved query.
pub open spec fn scores_all_distinct(s: Retriever, q: Seq<usize>) -> bool {
    forall|d1: int, d2: int|
        #![trigger s.scores_of(q)[d1], s.scores_of(q)[d2]]
        0 <= d1 < d2 < s.n_docs ==> s.scores_of(q)[d1] != s.scores_of(q)[d2]
}

/// Every pair of one contract-conforming result appears in any other,
/// provided no two documents tie.
proof fn lemma_result_subset(
    s: Retriever,
    query: Seq<char>,
    n: int,
    r1: Seq<(usize, u64)>,
    r2: Seq<(usize, u64)>,
    x: (usize, u64),
)
    requires
        s.top_n_post(query, n, r1),
        s.top_n_post(query, n, r2),
        scores_all_distinct(s, qids(s.vocab_view(), tokens_of(string_bytes(query)))),
        qids(s.vocab_view(), tokens_of(string_bytes(query))).len() > 0,
        r1.contains(x),
    ensures
        r2.contains(x),
{
    broadcast use vstd::set::group_set_axioms;

    let q = qids(s.vocab_view(), tokens_of(string_bytes(query)));
    let scores = s.scores_of(q);
    let i = choose|i: int| 0 <= i < r1.len() && r1[i] == x;
    let d = r1[i].0 as int;
    assert(r1[i].1 == scores[d]);
    if exists|j: int| 0 <= j < r2.len() && (#[trigger] r2[j]).0 as int == d {
        let j = choose|j: int| 0 <= j < r2.len() && (#[trigger] r2[j]).0 as int == d;
        assert(r2[j].1 == scores[d]);
        assert(r2[j] == x);
    } else {
        // every pair of r2 then outscores document d strictly
        assert forall|a: int| 0 <= a < r2.len() implies (#[trigger] r2[a]).1 > scores[d] by {
            assert(r2[a].1 >= scores[d]);
            let e = r2[a].0 as int;
            assert(r2[a].1 == scores[e]);
            if e < d {
                assert(scores[e] != scores[d]);
            } else {
                assert(e != d);
                assert(scores[d] != scores[e]);
            }
        }
        // some document of r2 is missing from r1, else r1 would hold k + 1
        // distinct documents in k slots
        let ds1 = Seq::new(r1.len(), |w: int| r1[w].0 as int);
        let ds2 = Seq::new(r2.len(), |w: int| r2[w].0 as int);
        assert(ds1.no_duplicates()) by {
            assert forall|a: int, b: int|
                0 <= a < ds1.len() && 0 <= b < ds1.len() && a != b implies ds1[a] != ds1[b] by {
                if a < b {
                    assert(r1[a].0 != r1[b].0);
                } else {
                    assert(r1[b].0 != r1[a].0);
                }
            }
        }
        assert(ds2.no_duplicates()) by {
            assert forall|a: int, b: int|
                0 <= a < ds2.len() && 0 <= b < ds2.len() && a != b implies ds2[a] != ds2[b] by {
                if a < b {
                    assert(r2[a].0 != r2[b].0);
                } else {
                    assert(r2[b].0 != r2[a].0);
                }
            }
        }
        ds1.unique_seq_to_set();
        ds2.unique_seq_to_set();
        if forall|a: int| 0 <= a < r2.len() ==> ds1.contains((#[trigger] r2[a]).0 as int) {
            assert(ds2.to_set().insert(d).subset_of(ds1.to_set())) by {
                assert forall|y: int| ds2.to_set().insert(d).contains(y) implies ds1.to_set()
                    .contains(y) by {
                    if y == d {
                        assert(ds1[i] == d);
                    } else {
                        let a = choose|a: int| 0 <= a < ds2.len() && ds2[a] == y;
                        assert(ds1.contains(r2[a].0 as int));
                    }
                }
            }
            assert(!ds2.to_set().contains(d)) by {
                if ds2.to_set().contains(d) {
                    let a = choose|a: int| 0 <= a < ds2.len() && ds2[a] == d;
                    assert(r2[a].0 as int == d);
                    assert(false);
                }
            }
            vstd::set_lib::lemma_len_subset(ds2.to_set().insert(d), ds1.to_set());
            assert(false);
        } else {
            let a = choose|a: int| 0 <= a < r2.len() && !ds1.contains((#[trigger] r2[a]).0 as int);
            let e = r2[a].0 as int;
            // e is absent from r1, so r1's pairs all outscore it; yet e
            // strictly outscores d, which r1 contains
            assert forall|j: int| 0 <= j < r1.len() implies (#[trigger] r1[j]).0 as int != e by {
                if r1[j].0 as int == e {
                    assert(ds1[j] == e);
                }
            }
            assert(0 <= e < s.n_docs);
            assert(r1[i].1 >= scores[e]);
            assert(scores[e] == r2[a].1);
            assert(false);
        }
    }
}

/// Law: any two results that meet the query contract for the same retriever,
/// query and cutoff hold the same multiset of `(document, score)` pairs,
/// provided no two documents tie on their accumulated scores. Since every
/// entry of `top_n_batched` and every `top_n` result meet that contract,
/// they agree under the same proviso; a tie at the cutoff leaves the choice
/// between the tied documents open.
pub proof fn lemma_top_n_agreement(
    s: Retriever,
    query: Seq<char>,
    n: int,
    r1: Seq<(usize, u64)>,
    r2: Seq<(usize, u64)>,
)
    requires
        s.top_n_post(query, n, r1),
        s.top_n_post(query, n, r2),
        scores_all_distinct(s, qids(s.vocab_view(), tokens_of(string_bytes(query)))),
    ensures
        r1.to_multiset() == r2.to_multiset(),
{
    let q = qids(s.vocab_view(), tokens_of(string_bytes(query)));
    if q.len() == 0 {
        assert(r1 =~= r2);
    } else {
        assert(r1.no_duplicates()) by {
            assert forall|a: int, b: int|
                0 <= a < r1.len() && 0 <= b < r1.len() && a != b implies r1[a] != r1[b] by {
                if a < b {
                    assert(r1[a].0 != r1[b].0);
                } else {
                    assert(r1[b].0 != r1[a].0);
                }
            }
        }
        assert(r2.no_duplicates()) by {
            assert forall|a: int, b: int|
                0 <= a < r2.len() && 0 <= b < r2.len() && a != b implies r2[a] != r2[b] by {
                if a < b {
                    assert(r2[a].0 != r2[b].0);
                } else {
                    assert(r2[b].0 != r2[a].0);
                }
            }
        }
        r1.to_multiset_ensures();
        r2.to_multiset_ensures();
        r1.lemma_multiset_has_no_duplicates();
        r2.lemma_multiset_has_no_duplicates();
        assert forall|x: (usize, u64)|
            r1.to_multiset().count(x) == r2.to_multiset().count(x) by {
            if r1.contains(x) {
                lemma_result_subset(s, query, n, r1, r2, x);
            } else if r2.contains(x) {
                lemma_result_subset(s, query, n, r2, r1, x);
                assert(false);
            } else {
                assert(r1.to_multiset().count(x) == 0);
                assert(r2.to_multiset().count(x) == 0);
            }
        }
        assert(r1.to_multiset() =~= r2.to_multiset());
    }
}

/// Law: indexing the same texts with the same hyperparameters produces
/// identical state, so a rebuild from an unchanged corpus changes nothing.
pub proof fn lemma_reindex_deterministic(r1: Retriever, r2: Retriever, tb: Seq<Seq<u8>>)
    requires
        r1.indexed(tb),
        r2.indexed(tb),
        r1.k1 == r2.k1,
        r1.b == r2.b,
    ensures
        r1.vocab_view() == r2.vocab_view(),
        r1.n_docs == r2.n_docs,
        r1.score_matrix.indptr@ == r2.score_matrix.indptr@,
        r1.score_matrix.rows@ == r2.score_matrix.rows@,
        r1.score_matrix.vals@ == r2.score_matrix.vals@,
{
}

} // verus!
