use vstd::prelude::*;

verus! {

use crate::fixed::{idf_fixed_spec, posting_fixed, posting_fp, sat_add};
use crate::stats::{df_of, df_upto, lemma_occ_bounds, occ, tally_ok, DocTally};
use crate::tok::id_views;

/// Total token count of the corpus, summed with saturation.
pub open spec fn total_len_upto(corpus: Seq<Seq<usize>>, n: int) -> int
    decreases n,
{
    if n <= 0 {
        0
    } else {
        sat_add(total_len_upto(corpus, n - 1), corpus[n - 1].len() as int)
    }
}

pub open spec fn total_len_of(corpus: Seq<Seq<usize>>) -> int {
    total_len_upto(corpus, corpus.len() as int)
}

pub proof fn lemma_total_len_mono(corpus: Seq<Seq<usize>>, n: int, m: int)
    requires
        0 <= n <= m,
    ensures
        0 <= total_len_upto(corpus, n) <= total_len_upto(corpus, m) <= u64::MAX,
    decreases m,
{
    if m == 0 {
    } else if n == m {
        lemma_total_len_mono(corpus, 0, m - 1);
    } else {
        lemma_total_len_mono(corpus, n, m - 1);
    }
}

/// The corpus total is at least the length of any one document.
pub proof fn lemma_total_ge_doc(corpus: Seq<Seq<usize>>, d: int)
    requires
        0 <= d < corpus.len(),
    ensures
        total_len_of(corpus) >= corpus[d].len() || total_len_of(corpus) == u64::MAX,
{
    lemma_total_len_mono(corpus, 0, d);
    lemma_total_len_mono(corpus, d + 1, corpus.len() as int);
}

/// The precomputed BM25 contribution of document `d` for term `t`.
pub open spec fn val_of(corpus: Seq<Seq<usize>>, k1: int, b: int, d: int, t: usize) -> int {
    posting_fp(
        k1,
        b,
        idf_fixed_spec(corpus.len() as int, df_of(corpus, t)),
        occ(corpus[d], t),
        corpus[d].len() as int,
        corpus.len() as int,
        total_len_of(corpus),
    )
}

/// The row indices of column `t`, restricted to the first `d` documents: the
/// documents containing `t`, in increasing order.
pub open spec fn col_rows(corpus: Seq<Seq<usize>>, t: usize, d: int) -> Seq<usize>
    decreases d,
{
    if d <= 0 {
        Seq::empty()
    } else {
        let r = col_rows(corpus, t, d - 1);
        if occ(corpus[d - 1], t) > 0 {
            r.push((d - 1) as usize)
        } else {
            r
        }
    }
}

/// The stored values of column `t`, restricted to the first `d` documents.
pub open spec fn col_vals(corpus: Seq<Seq<usize>>, k1: int, b: int, t: usize, d: int) -> Seq<u64>
    decreases d,
{
    if d <= 0 {
        Seq::empty()
    } else {
        let r = col_vals(corpus, k1, b, t, d - 1);
        if occ(corpus[d - 1], t) > 0 {
            r.push(val_of(corpus, k1, b, d - 1, t) as u64)
        } else {
            r
        }
    }
}

/// Concatenation of the row indices of the first `t` columns.
pub open spec fn rows_upto(corpus: Seq<Seq<usize>>, t: int) -> Seq<usize>
    decreases t,
{
    if t <= 0 {
        Seq::empty()
    } else {
        rows_upto(corpus, t - 1) + col_rows(corpus, ((t - 1) as usize), corpus.len() as int)
    }
}

/// Concatenation of the stored values of the first `t` columns.
pub open spec fn vals_upto(corpus: Seq<Seq<usize>>, k1: int, b: int, t: int) -> Seq<u64>
    decreases t,
{
    if t <= 0 {
        Seq::empty()
    } else {
        vals_upto(corpus, k1, b, t - 1) + col_vals(
            corpus,
            k1,
            b,
            ((t - 1) as usize),
            corpus.len() as int,
        )
    }
}

/// The column pointer array: entry `t` is where column `t` starts.
pub open spec fn indptr_of(corpus: Seq<Seq<usize>>, n_terms: int) -> Seq<usize> {
    Seq::new((n_terms + 1) as nat, |t: int| rows_upto(corpus, t).len() as usize)
}

/// A column's slice length equals the term's document frequency.
pub proof fn lemma_col_rows_len_df(corpus: Seq<Seq<usize>>, t: usize, d: int)
    ensures
        col_rows(corpus, t, d).len() == if d >= 0 {
            df_upto(corpus, t, d)
        } else {
            0
        },
    decreases d,
{
    if d > 0 {
        lemma_col_rows_len_df(corpus, t, d - 1);
    }
}

pub proof fn lemma_col_vals_len(corpus: Seq<Seq<usize>>, k1: int, b: int, t: usize, d: int)
    ensures
        col_vals(corpus, k1, b, t, d).len() == col_rows(corpus, t, d).len(),
    decreases d,
{
    if d > 0 {
        lemma_col_vals_len(corpus, k1, b, t, d - 1);
    }
}

/// Every stored row index refers to a document of the corpus.
pub proof fn lemma_col_rows_bounds(corpus: Seq<Seq<usize>>, t: usize, d: int)
    requires
        d <= corpus.len(),
    ensures
        forall|p: int|
            0 <= p < col_rows(corpus, t, d).len() ==> #[trigger] col_rows(corpus, t, d)[p]
                < corpus.len(),
    decreases d,
{
    if d > 0 {
        lemma_col_rows_bounds(corpus, t, d - 1);
        let r = col_rows(corpus, t, d - 1);
        assert forall|p: int|
            0 <= p < col_rows(corpus, t, d).len() implies #[trigger] col_rows(corpus, t, d)[p]
            < corpus.len() by {
            if occ(corpus[d - 1], t) > 0 && p == r.len() {
            } else {
                assert(col_rows(corpus, t, d)[p] == r[p]);
            }
        }
    }
}

pub proof fn lemma_vals_upto_len(corpus: Seq<Seq<usize>>, k1: int, b: int, t: int)
    ensures
        vals_upto(corpus, k1, b, t).len() == rows_upto(corpus, t).len(),
    decreases t,
{
    if t > 0 {
        lemma_vals_upto_len(corpus, k1, b, t - 1);
        lemma_col_vals_len(corpus, k1, b, ((t - 1) as usize), corpus.len() as int);
    }
}

pub proof fn lemma_rows_upto_mono(corpus: Seq<Seq<usize>>, a: int, b: int)
    requires
        0 <= a <= b,
    ensures
        rows_upto(corpus, a).len() <= rows_upto(corpus, b).len(),
    decreases b - a,
{
    if a < b {
        lemma_rows_upto_mono(corpus, a, b - 1);
    }
}

pub proof fn lemma_rows_upto_bounds(corpus: Seq<Seq<usize>>, t: int)
    ensures
        forall|p: int|
            0 <= p < rows_upto(corpus, t).len() ==> #[trigger] rows_upto(corpus, t)[p]
                < corpus.len(),
    decreases t,
{
    if t > 0 {
        lemma_rows_upto_bounds(corpus, t - 1);
        lemma_col_rows_bounds(corpus, ((t - 1) as usize), corpus.len() as int);
        let prev = rows_upto(corpus, t - 1);
        let col = col_rows(corpus, ((t - 1) as usize), corpus.len() as int);
        assert forall|p: int|
            0 <= p < rows_upto(corpus, t).len() implies #[trigger] rows_upto(corpus, t)[p]
            < corpus.len() by {
            if p < prev.len() {
                assert(rows_upto(corpus, t)[p] == prev[p]);
            } else {
                assert(rows_upto(corpus, t)[p] == col[p - prev.len()]);
            }
        }
    }
}

/// A column-compressed sparse matrix: per-column contiguous row indices and
/// values, delimited by the column pointer array.
pub struct CscMatrix {
    pub indptr: Vec<usize>,
    pub rows: Vec<usize>,
    pub vals: Vec<u64>,
}

/// Assembles the column-compressed score matrix of a tallied corpus.
pub fn prepare_sparse_matrix(
    corpus: &Vec<Vec<usize>>,
    tallies: &Vec<DocTally>,
    idfs: &Vec<u64>,
    total: u64,
    n_terms: usize,
    k1: u64,
    b: u64,
) -> (r: CscMatrix)
    requires
        tallies@.len() == corpus@.len(),
        forall|d: int| 0 <= d < corpus@.len() ==> tally_ok(#[trigger] tallies@[d], corpus@[d]@),
        idfs@.len() == n_terms,
        forall|t: int|
            0 <= t < n_terms ==> #[trigger] idfs@[t] as int == idf_fixed_spec(
                corpus@.len() as int,
                df_of(id_views(corpus@), t as usize),
            ),
        total as int == total_len_of(id_views(corpus@)),
    ensures
        r.indptr@ == indptr_of(id_views(corpus@), n_terms as int),
        r.rows@ == rows_upto(id_views(corpus@), n_terms as int),
        r.vals@ == vals_upto(id_views(corpus@), k1 as int, b as int, n_terms as int),
{
    let ghost cv = id_views(corpus@);
    let n_docs = corpus.len();
    let mut indptr: Vec<usize> = Vec::new();
    let mut rows: Vec<usize> = Vec::new();
    let mut vals: Vec<u64> = Vec::new();
    indptr.push(0);
    let mut t: usize = 0;
    proof {
        assert(rows@ =~= rows_upto(cv, 0));
        assert(vals@ =~= vals_upto(cv, k1 as int, b as int, 0));
    }
    while t < n_terms
        invariant
            t <= n_terms,
            cv == id_views(corpus@),
            n_docs == corpus@.len(),
            tallies@.len() == corpus@.len(),
            forall|d: int| 0 <= d < corpus@.len() ==> tally_ok(#[trigger] tallies@[d], corpus@[d]@),
            idfs@.len() == n_terms,
            forall|u: int|
                0 <= u < n_terms ==> #[trigger] idfs@[u] as int == idf_fixed_spec(
                    corpus@.len() as int,
                    df_of(cv, u as usize),
                ),
            total as int == total_len_of(cv),
            indptr@.len() == t + 1,
            forall|u: int| 0 <= u <= t ==> #[trigger] indptr@[u] as int == rows_upto(cv, u).len(),
            rows@ == rows_upto(cv, t as int),
            vals@ == vals_upto(cv, k1 as int, b as int, t as int),
        decreases n_terms - t,
    {
        let mut d: usize = 0;
        while d < n_docs
            invariant
                d <= n_docs,
                t < n_terms,
                cv == id_views(corpus@),
                n_docs == corpus@.len(),
                tallies@.len() == corpus@.len(),
                forall|dd: int|
                    0 <= dd < corpus@.len() ==> tally_ok(#[trigger] tallies@[dd], corpus@[dd]@),
                idfs@.len() == n_terms,
                forall|u: int|
                    0 <= u < n_terms ==> #[trigger] idfs@[u] as int == idf_fixed_spec(
                        corpus@.len() as int,
                        df_of(cv, u as usize),
                    ),
                total as int == total_len_of(cv),
                rows@ == rows_upto(cv, t as int) + col_rows(cv, t, d as int),
                vals@ == vals_upto(cv, k1 as int, b as int, t as int) + col_vals(
                    cv,
                    k1 as int,
                    b as int,
                    t,
                    d as int,
                ),
            decreases n_docs - d,
        {
            let y = &tallies[d];
            proof {
                assert(cv[d as int] == corpus@[d as int]@);
            }
            match crate::stats::find_id(&y.terms, t) {
                Some(q) => {
                    let tf = y.counts[q];
                    proof {
                        assert(tf == occ(cv[d as int], t));
                        assert(occ(cv[d as int], t) >= 1);
                        lemma_occ_bounds(cv[d as int], t);
                        lemma_total_ge_doc(cv, d as int);
                        assert(total >= 1);
                    }
                    let len_d = corpus[d].len();
                    let v = posting_fixed(k1, b, idfs[t], tf, len_d as u64, n_docs as u64, total);
                    proof {
                        assert(v as int == val_of(cv, k1 as int, b as int, d as int, t));
                        assert(rows@.push(d) =~= rows_upto(cv, t as int) + col_rows(
                            cv,
                            t,
                            d as int,
                        ).push(d));
                        assert(vals@.push(v) =~= vals_upto(cv, k1 as int, b as int, t as int)
                            + col_vals(cv, k1 as int, b as int, t, d as int).push(v));
                    }
                    rows.push(d);
                    vals.push(v);
                },
                None => {
                    proof {
                        if occ(cv[d as int], t) > 0 {
                            assert(y.terms@.contains(t));
                            assert(false);
                        }
                    }
                },
            }
            d = d + 1;
        }
        proof {
            assert(rows@ == rows_upto(cv, t as int) + col_rows(cv, t, corpus@.len() as int));
            assert(rows@ == rows_upto(cv, t as int + 1));
        }
        indptr.push(rows.len());
        proof {
            assert(vals@ == vals_upto(cv, k1 as int, b as int, t as int + 1));
        }
        t = t + 1;
    }
    proof {
        assert(indptr@ =~= indptr_of(cv, n_terms as int));
    }
    CscMatrix { indptr, rows, vals }
}

} // verus!
