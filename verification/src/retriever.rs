use vstd::prelude::*;

verus! {

use vstd::string::StrSliceExecFns;
use vstd::utf8::encode_utf8;

use crate::fixed::{add_sat, idf_fixed, idf_fixed_spec, sat_add};
use crate::matrix::{
    indptr_of, lemma_rows_upto_bounds, lemma_rows_upto_mono, lemma_vals_upto_len,
    prepare_sparse_matrix, rows_upto, total_len_of, total_len_upto, vals_upto, CscMatrix,
};
use crate::stats::compute_frequencies;
use crate::tok::{
    build_corpus, corpus_of, find_token, tok_index, tokenize, tokens_of, views, vocab_of,
};

/// The UTF-8 bytes of a text.
pub open spec fn string_bytes(s: Seq<char>) -> Seq<u8> {
    encode_utf8(s)
}

/// The byte strings of a sequence of texts.
pub open spec fn texts_bytes(ts: Seq<String>) -> Seq<Seq<u8>> {
    Seq::new(ts.len(), |i: int| string_bytes(ts[i]@))
}

/// The term identifiers a query resolves to: tokens found in the vocabulary,
/// in order and with multiplicity; misses are dropped.
pub open spec fn qids(vocab: Seq<Seq<u8>>, toks: Seq<Seq<u8>>) -> Seq<usize>
    decreases toks.len(),
{
    if toks.len() == 0 {
        Seq::empty()
    } else {
        let rest = qids(vocab, toks.drop_last());
        if vocab.contains(toks.last()) {
            rest.push(tok_index(vocab, toks.last()) as usize)
        } else {
            rest
        }
    }
}

pub proof fn lemma_qids_bounds(vocab: Seq<Seq<u8>>, toks: Seq<Seq<u8>>)
    requires
        vocab.len() <= usize::MAX,
    ensures
        forall|p: int|
            0 <= p < qids(vocab, toks).len() ==> #[trigger] qids(vocab, toks)[p] < vocab.len(),
    decreases toks.len(),
{
    if toks.len() > 0 {
        lemma_qids_bounds(vocab, toks.drop_last());
        let rest = qids(vocab, toks.drop_last());
        if vocab.contains(toks.last()) {
            vocab.index_of_first_ensures(toks.last());
            assert forall|p: int|
                0 <= p < qids(vocab, toks).len() implies #[trigger] qids(vocab, toks)[p]
                < vocab.len() by {
                if p < rest.len() {
                    assert(qids(vocab, toks)[p] == rest[p]);
                }
            }
        }
    }
}

/// A dense vector of zero scores.
pub open spec fn zeros(n: int) -> Seq<u64> {
    Seq::new(n as nat, |i: int| 0u64)
}

/// The row indices of column `t` of a stored matrix.
pub open spec fn col_rows_slice(m: CscMatrix, t: usize) -> Seq<usize> {
    m.rows@.subrange(m.indptr@[t as int] as int, m.indptr@[t as int + 1] as int)
}

/// The stored values of column `t` of a stored matrix.
pub open spec fn col_vals_slice(m: CscMatrix, t: usize) -> Seq<u64> {
    m.vals@.subrange(m.indptr@[t as int] as int, m.indptr@[t as int + 1] as int)
}

/// Adds the first `p` postings of one column into the accumulator, with
/// saturation.
pub open spec fn acc_col(scores: Seq<u64>, rows: Seq<usize>, vals: Seq<u64>, p: int) -> Seq<u64>
    decreases p,
{
    if p <= 0 {
        scores
    } else {
        let prev = acc_col(scores, rows, vals, p - 1);
        let d = rows[p - 1] as int;
        prev.update(d, sat_add(prev[d] as int, vals[p - 1] as int) as u64)
    }
}

/// Accumulates the columns of the first `i` query terms.
pub open spec fn acc_query(scores: Seq<u64>, m: CscMatrix, q: Seq<usize>, i: int) -> Seq<u64>
    decreases i,
{
    if i <= 0 {
        scores
    } else {
        let prev = acc_query(scores, m, q, i - 1);
        let t = q[i - 1];
        acc_col(prev, col_rows_slice(m, t), col_vals_slice(m, t), col_rows_slice(m, t).len() as int)
    }
}

/// The BM25 retriever: hyperparameters, the vocabulary, and the
/// column-compressed score matrix over `n_docs` documents.
pub struct Retriever {
    pub k1: u64,
    pub b: u64,
    pub vocab: Vec<Vec<u8>>,
    pub n_docs: usize,
    pub score_matrix: CscMatrix,
}

impl Retriever {
    pub open spec fn vocab_view(self) -> Seq<Seq<u8>> {
        views(self.vocab@)
    }

    /// Structural well-formedness of the stored matrix: the column pointers
    /// delimit the row and value arrays and every row index is a document.
    pub open spec fn wf(self) -> bool {
        &&& self.score_matrix.indptr@.len() == self.vocab@.len() + 1
        &&& self.score_matrix.indptr@[0] == 0
        &&& forall|t: int|
            0 <= t < self.vocab@.len() ==> #[trigger] self.score_matrix.indptr@[t]
                <= self.score_matrix.indptr@[t + 1]
        &&& self.score_matrix.indptr@[self.vocab@.len() as int] == self.score_matrix.rows@.len()
        &&& self.score_matrix.rows@.len() == self.score_matrix.vals@.len()
        &&& forall|p: int|
            0 <= p < self.score_matrix.rows@.len() ==> #[trigger] self.score_matrix.rows@[p]
                < self.n_docs
    }

    /// The accumulated scores of a resolved query against the stored matrix.
    pub open spec fn scores_of(self, q: Seq<usize>) -> Seq<u64> {
        acc_query(zeros(self.n_docs as int), self.score_matrix, q, q.len() as int)
    }

    /// The full query contract: misses are dropped; an all-miss query yields
    /// the empty result; otherwise exactly `min(n, n_docs)` pairs come back,
    /// for distinct documents, each carrying its accumulated score, and no
    /// omitted document scores above any returned one.
    pub open spec fn top_n_post(self, query: Seq<char>, n: int, r: Seq<(usize, u64)>) -> bool {
        let q = qids(self.vocab_view(), tokens_of(string_bytes(query)));
        let scores = self.scores_of(q);
        let k = if n < self.n_docs as int {
            n
        } else {
            self.n_docs as int
        };
        if q.len() == 0 {
            r == Seq::<(usize, u64)>::empty()
        } else {
            &&& r.len() == k
            &&& forall|i: int|
                0 <= i < r.len() ==> (#[trigger] r[i]).0 < self.n_docs && r[i].1 == scores[r[i].0 as int]
            &&& forall|i: int, j: int|
                0 <= i < j < r.len() ==> (#[trigger] r[i]).0 != (#[trigger] r[j]).0
            &&& forall|i: int, d: int|
                #![trigger r[i], scores[d]]
                0 <= i < r.len() && 0 <= d < self.n_docs && (forall|j: int|
                    0 <= j < r.len() ==> (#[trigger] r[j]).0 != d) ==> r[i].1 >= scores[d]
        }
    }

    /// The matrix holds exactly the column-compressed BM25 postings of the
    /// tokenized corpus under the stored hyperparameters.
    pub open spec fn indexed(self, tb: Seq<Seq<u8>>) -> bool {
        let corpus = corpus_of(tb);
        let nt = vocab_of(tb).len() as int;
        &&& self.vocab_view() == vocab_of(tb)
        &&& self.n_docs == tb.len()
        &&& self.score_matrix.indptr@ == indptr_of(corpus, nt)
        &&& self.score_matrix.rows@ == rows_upto(corpus, nt)
        &&& self.score_matrix.vals@ == vals_upto(corpus, self.k1 as int, self.b as int, nt)
    }

    /// A fresh retriever with the given fixed-point hyperparameters, an empty
    /// vocabulary and an empty matrix.
    pub fn new(k1: u64, b: u64) -> (r: Self)
        ensures
            r.wf(),
            r.k1 == k1,
            r.b == b,
            r.n_docs == 0,
            r.vocab@.len() == 0,
            r.score_matrix.rows@.len() == 0,
    {
        let mut indptr: Vec<usize> = Vec::new();
        indptr.push(0);
        let rows: Vec<usize> = Vec::new();
        let vals: Vec<u64> = Vec::new();
        Retriever {
            k1,
            b,
            vocab: Vec::new(),
            n_docs: 0,
            score_matrix: CscMatrix { indptr, rows, vals },
        }
    }

    /// Replaces any existing index with one built from `texts`, in input
    /// order.
    pub fn index(&mut self, texts: Vec<String>)
        requires
            old(self).wf(),
        ensures
            final(self).wf(),
            final(self).k1 == old(self).k1,
            final(self).b == old(self).b,
            final(self).indexed(texts_bytes(texts@)),
    {
        self.internal_index(&texts);
    }

    fn internal_index(&mut self, texts: &Vec<String>)
        requires
            old(self).wf(),
        ensures
            final(self).wf(),
            final(self).k1 == old(self).k1,
            final(self).b == old(self).b,
            final(self).indexed(texts_bytes(texts@)),
    {
        let ghost tb = texts_bytes(texts@);
        let mut bdocs: Vec<Vec<u8>> = Vec::new();
        let mut i: usize = 0;
        while i < texts.len()
            invariant
                i <= texts@.len(),
                tb == texts_bytes(texts@),
                bdocs@.len() == i,
                forall|e: int| 0 <= e < i ==> #[trigger] bdocs@[e]@ == tb[e],
            decreases texts@.len() - i,
        {
            let bs = texts[i].as_str().as_bytes_vec();
            bdocs.push(bs);
            i = i + 1;
        }
        proof {
            assert(views(bdocs@) =~= tb);
        }
        let (vocab, corpus) = build_corpus(&bdocs);
        let n_terms = vocab.len();
        let n_docs = texts.len();
        let ghost cv = corpus_of(tb);
        proof {
            crate::tok::lemma_corpus_ids_bound(tb);
            assert(crate::tok::id_views(corpus@) == cv);
            assert forall|d: int, j: int|
                0 <= d < corpus@.len() && 0 <= j < corpus@[d]@.len() implies #[trigger] corpus@[d]@[j]
                < n_terms by {
                assert(corpus@[d]@ == cv[d]);
                assert(cv[d][j] < vocab_of(tb).len());
            }
        }
        let (df, tallies) = compute_frequencies(&corpus, n_terms);
        let idfs = Retriever::compute_idf_array(n_terms, n_docs, &df);
        let mut total: u64 = 0;
        let mut d: usize = 0;
        while d < corpus.len()
            invariant
                d <= corpus@.len(),
                cv == crate::tok::id_views(corpus@),
                total as int == total_len_upto(cv, d as int),
            decreases corpus@.len() - d,
        {
            proof {
                assert(cv[d as int] == corpus@[d as int]@);
            }
            let l = corpus[d].len();
            total = add_sat(total, l as u64);
            d = d + 1;
        }
        proof {
            assert(cv.len() == corpus@.len());
            assert(total as int == total_len_of(cv));
        }
        let m = prepare_sparse_matrix(&corpus, &tallies, &idfs, total, n_terms, self.k1, self.b);
        self.vocab = vocab;
        self.n_docs = n_docs;
        self.score_matrix = m;
        let rl = self.score_matrix.rows.len();
        proof {
            let nt = n_terms as int;
            lemma_vals_upto_len(cv, self.k1 as int, self.b as int, nt);
            lemma_rows_upto_bounds(cv, nt);
            assert(cv.len() == tb.len());
            assert(rows_upto(cv, nt).len() == rl);
            assert(rows_upto(cv, 0) =~= Seq::<usize>::empty());
            assert(self.score_matrix.indptr@[0] == rows_upto(cv, 0).len());
            assert forall|t: int|
                0 <= t < self.vocab@.len() implies #[trigger] self.score_matrix.indptr@[t]
                <= self.score_matrix.indptr@[t + 1] by {
                lemma_rows_upto_mono(cv, t, t + 1);
                lemma_rows_upto_mono(cv, t + 1, nt);
                assert(self.score_matrix.indptr@[t] as int == rows_upto(cv, t).len() as usize as int);
                assert(self.score_matrix.indptr@[t + 1] as int == rows_upto(cv, t + 1).len() as usize as int);
            }
        }
    }

    /// The dense fixed-point IDF vector over `n_terms` terms.
    fn compute_idf_array(n_terms: usize, n_docs: usize, df: &Vec<u64>) -> (r: Vec<u64>)
        requires
            df@.len() == n_terms,
        ensures
            r@.len() == n_terms,
            forall|t: int|
                0 <= t < n_terms ==> #[trigger] r@[t] as int == idf_fixed_spec(
                    n_docs as int,
                    df@[t] as int,
                ),
    {
        let mut r: Vec<u64> = Vec::new();
        let mut t: usize = 0;
        while t < n_terms
            invariant
                t <= n_terms,
                df@.len() == n_terms,
                r@.len() == t,
                forall|u: int|
                    0 <= u < t ==> #[trigger] r@[u] as int == idf_fixed_spec(
                        n_docs as int,
                        df@[u] as int,
                    ),
            decreases n_terms - t,
        {
            let v = idf_fixed(n_docs as u64, df[t]);
            r.push(v);
            t = t + 1;
        }
        r
    }

    /// Up to `n` `(document, score)` pairs with the highest accumulated
    /// scores; scores are fixed point with 16 fractional bits.
    pub fn top_n(&self, query: String, n: usize) -> (r: Vec<(usize, u64)>)
        requires
            self.wf(),
        ensures
            self.top_n_post(query@, n as int, r@),
    {
        self.internal_top_n(&query, n)
    }

    /// Evaluates all queries in order; each entry meets exactly the contract
    /// of the corresponding single `top_n` call.
    pub fn top_n_batched(&mut self, queries: Vec<String>, n: usize) -> (r: Vec<Vec<(usize, u64)>>)
        requires
            old(self).wf(),
        ensures
            *final(self) == *old(self),
            r@.len() == queries@.len(),
            forall|i: int|
                0 <= i < queries@.len() ==> old(self).top_n_post(
                    queries@[i]@,
                    n as int,
                    (#[trigger] r@[i])@,
                ),
    {
        let mut out: Vec<Vec<(usize, u64)>> = Vec::new();
        let mut i: usize = 0;
        while i < queries.len()
            invariant
                i <= queries@.len(),
                self.wf(),
                *self == *old(self),
                out@.len() == i,
                forall|e: int|
                    0 <= e < i ==> old(self).top_n_post(
                        queries@[e]@,
                        n as int,
                        (#[trigger] out@[e])@,
                    ),
            decreases queries@.len() - i,
        {
            let one = self.internal_top_n(&queries[i], n);
            out.push(one);
            i = i + 1;
        }
        out
    }

    fn internal_top_n(&self, query: &String, n: usize) -> (r: Vec<(usize, u64)>)
        requires
            self.wf(),
        ensures
            self.top_n_post(query@, n as int, r@),
    {
        let qb = query.as_str().as_bytes_vec();
        let toks = tokenize(&qb);
        let ghost tv = tokens_of(string_bytes(query@));
        proof {
            assert(views(toks@) == tv);
        }
        let nv = self.vocab.len();
        let mut ids: Vec<usize> = Vec::new();
        let mut j: usize = 0;
        proof {
            assert(tv.take(0) =~= Seq::<Seq<u8>>::empty());
        }
        while j < toks.len()
            invariant
                j <= toks@.len(),
                views(toks@) == tv,
                self.wf(),
                ids@ == qids(self.vocab_view(), tv.take(j as int)),
            decreases toks@.len() - j,
        {
            proof {
                tv.lemma_take_succ_push(j as int);
                assert(tv.take(j as int + 1).drop_last() =~= tv.take(j as int));
                assert(tv.take(j as int + 1).last() == tv[j as int]);
                assert(views(toks@)[j as int] == toks@[j as int]@);
            }
            match find_token(&self.vocab, &toks[j]) {
                Some(ix) => {
                    ids.push(ix);
                },
                None => {},
            }
            j = j + 1;
        }
        proof {
            assert(tv.take(toks@.len() as int) =~= tv);
        }
        let ghost q = qids(self.vocab_view(), tv);
        if ids.len() == 0 {
            let out: Vec<(usize, u64)> = Vec::new();
            proof {
                assert(out@ =~= Seq::<(usize, u64)>::empty());
            }
            return out;
        }
        let n_docs = self.n_docs;
        let mut scores: Vec<u64> = Vec::new();
        let mut d0: usize = 0;
        while d0 < n_docs
            invariant
                d0 <= n_docs,
                scores@.len() == d0,
                forall|e: int| 0 <= e < d0 ==> #[trigger] scores@[e] == 0u64,
            decreases n_docs - d0,
        {
            scores.push(0);
            d0 = d0 + 1;
        }
        proof {
            assert(scores@ =~= zeros(n_docs as int));
            lemma_qids_bounds(self.vocab_view(), tv);
        }
        let mut i: usize = 0;
        while i < ids.len()
            invariant
                i <= ids@.len(),
                self.wf(),
                n_docs == self.n_docs,
                nv == self.vocab@.len(),
                ids@ == q,
                forall|p: int| 0 <= p < q.len() ==> #[trigger] q[p] < nv,
                scores@.len() == n_docs,
                scores@ == acc_query(zeros(n_docs as int), self.score_matrix, q, i as int),
            decreases ids@.len() - i,
        {
            let t = ids[i];
            proof {
                lemma_wf_indptr_le(*self, t as int + 1, nv as int);
            }
            let s = self.score_matrix.indptr[t];
            let e = self.score_matrix.indptr[t + 1];
            let ghost crows = col_rows_slice(self.score_matrix, t);
            let ghost cvals = col_vals_slice(self.score_matrix, t);
            let ghost base = scores@;
            let mut p: usize = s;
            proof {
                assert(acc_col(base, crows, cvals, 0) == base);
            }
            while p < e
                invariant
                    s <= p <= e,
                    self.wf(),
                    n_docs == self.n_docs,
                    t < self.vocab@.len(),
                    s == self.score_matrix.indptr@[t as int],
                    e == self.score_matrix.indptr@[t as int + 1],
                    e <= self.score_matrix.rows@.len(),
                    crows == col_rows_slice(self.score_matrix, t),
                    cvals == col_vals_slice(self.score_matrix, t),
                    base.len() == n_docs,
                    scores@.len() == n_docs,
                    scores@ == acc_col(base, crows, cvals, p - s),
                decreases e - p,
            {
                let doc = self.score_matrix.rows[p];
                let v = self.score_matrix.vals[p];
                proof {
                    assert(crows[p - s] == self.score_matrix.rows@[p as int]);
                    assert(cvals[p - s] == self.score_matrix.vals@[p as int]);
                    assert(doc < n_docs);
                }
                let cur = scores[doc];
                let nv2 = add_sat(cur, v);
                scores.set(doc, nv2);
                p = p + 1;
            }
            proof {
                assert(e - s == crows.len());
                assert(scores@ == acc_col(base, crows, cvals, crows.len() as int));
                assert(base == acc_query(zeros(n_docs as int), self.score_matrix, q, i as int));
            }
            i = i + 1;
        }
        let ghost fin = scores@;
        let mut pairs: Vec<(usize, u64)> = Vec::new();
        let mut d: usize = 0;
        while d < n_docs
            invariant
                d <= n_docs,
                scores@ == fin,
                fin.len() == n_docs,
                pairs@.len() == d,
                forall|e: int| 0 <= e < d ==> #[trigger] pairs@[e] == (e as usize, fin[e]),
            decreases n_docs - d,
        {
            let sc = scores[d];
            pairs.push((d, sc));
            d = d + 1;
        }
        let k = if n < n_docs {
            n
        } else {
            n_docs
        };
        if k == 0 {
            let out: Vec<(usize, u64)> = Vec::new();
            return out;
        }
        let ghost orig = pairs@;
        crate::select::select_kth_desc(&mut pairs, k - 1);
        let mut out: Vec<(usize, u64)> = Vec::new();
        let mut w: usize = 0;
        while w < k
            invariant
                w <= k,
                k <= pairs@.len(),
                out@.len() == w,
                pairs@.to_multiset() == orig.to_multiset(),
                pairs@.len() == orig.len(),
                forall|e: int| 0 <= e < w ==> #[trigger] out@[e] == pairs@[e],
                forall|e2: int| 0 <= e2 < k - 1 ==> #[trigger] pairs@[e2].1 >= pairs@[k - 1].1,
                forall|e3: int|
                    k <= e3 < pairs@.len() ==> #[trigger] pairs@[e3].1 <= pairs@[k - 1].1,
            decreases k - w,
        {
            let pr = pairs[w];
            out.push(pr);
            w = w + 1;
        }
        proof {
            orig.to_multiset_ensures();
            pairs@.to_multiset_ensures();
            assert(orig.no_duplicates()) by {
                assert forall|a: int, b2: int|
                    0 <= a < orig.len() && 0 <= b2 < orig.len() && a != b2 implies orig[a]
                    != orig[b2] by {
                    assert(orig[a].0 == a as usize);
                    assert(orig[b2].0 == b2 as usize);
                }
            }
            orig.lemma_multiset_has_no_duplicates();
            assert forall|x: (usize, u64)| pairs@.to_multiset().contains(x) implies pairs@.to_multiset().count(x) == 1 by {
                assert(orig.to_multiset().count(x) == pairs@.to_multiset().count(x));
            }
            pairs@.lemma_multiset_has_no_duplicates_conv();
            // every pair of the permuted vector already stood in it before the call
            assert forall|e: int| 0 <= e < pairs@.len() implies (#[trigger] pairs@[e]).0 < n_docs
                && pairs@[e].1 == fin[pairs@[e].0 as int] by {
                assert(pairs@.contains(pairs@[e]));
                assert(pairs@.to_multiset().count(pairs@[e]) > 0);
                assert(orig.to_multiset().count(pairs@[e]) > 0);
                assert(orig.contains(pairs@[e]));
                let g = choose|g: int| 0 <= g < orig.len() && orig[g] == pairs@[e];
                assert(orig[g] == (g as usize, fin[g]));
            }
            // distinct documents among the returned pairs
            assert forall|a: int, b2: int|
                0 <= a < b2 < out@.len() implies (#[trigger] out@[a]).0
                != (#[trigger] out@[b2]).0 by {
                if out@[a].0 == out@[b2].0 {
                    assert(pairs@[a].1 == fin[pairs@[a].0 as int]);
                    assert(pairs@[b2].1 == fin[pairs@[b2].0 as int]);
                    assert(pairs@[a] == pairs@[b2]);
                    assert(false);
                }
            }
            // no omitted document outscores a returned pair
            assert forall|a: int, dd: int|
                #![trigger out@[a], fin[dd]]
                0 <= a < out@.len() && 0 <= dd < n_docs && (forall|j2: int|
                    0 <= j2 < out@.len() ==> (#[trigger] out@[j2]).0 != dd) implies out@[a].1
                >= fin[dd] by {
                assert(orig[dd] == (dd as usize, fin[dd]));
                assert(orig.contains(orig[dd]));
                assert(orig.to_multiset().count(orig[dd]) > 0);
                assert(pairs@.to_multiset().count(orig[dd]) > 0);
                assert(pairs@.contains(orig[dd]));
                let pos = choose|pos: int| 0 <= pos < pairs@.len() && pairs@[pos] == orig[dd];
                if pos < k {
                    assert(out@[pos].0 == dd);
                    assert(false);
                }
                assert(pairs@[pos].1 <= pairs@[k - 1].1);
                assert(out@[a] == pairs@[a]);
                if a < k - 1 {
                    assert(pairs@[a].1 >= pairs@[k - 1].1);
                }
            }
        }
        out
    }
}

/// Accumulating a column of in-range row indices never changes the length
/// of the score vector.
pub proof fn lemma_acc_col_len(scores: Seq<u64>, rows: Seq<usize>, vals: Seq<u64>, p: int)
    requires
        forall|j: int| 0 <= j < rows.len() ==> (#[trigger] rows[j]) < scores.len(),
        p <= rows.len(),
    ensures
        acc_col(scores, rows, vals, p).len() == scores.len(),
    decreases p,
{
    if p > 0 {
        lemma_acc_col_len(scores, rows, vals, p - 1);
    }
}

/// Accumulating a query against a well-formed retriever keeps the score
/// vector at `n_docs` entries.
pub proof fn lemma_scores_of_len(s: Retriever, q: Seq<usize>, i: int)
    requires
        s.wf(),
        0 <= i <= q.len(),
        forall|p: int| 0 <= p < q.len() ==> (#[trigger] q[p]) < s.vocab@.len(),
    ensures
        acc_query(zeros(s.n_docs as int), s.score_matrix, q, i).len() == s.n_docs,
    decreases i,
{
    if i > 0 {
        lemma_scores_of_len(s, q, i - 1);
        let prev = acc_query(zeros(s.n_docs as int), s.score_matrix, q, i - 1);
        let t = q[i - 1];
        lemma_wf_indptr_le(s, t as int + 1, s.vocab@.len() as int);
        let crows = col_rows_slice(s.score_matrix, t);
        assert forall|j: int| 0 <= j < crows.len() implies (#[trigger] crows[j]) < prev.len() by {
            assert(crows[j] == s.score_matrix.rows@[s.score_matrix.indptr@[t as int] + j]);
        }
        lemma_acc_col_len(prev, crows, col_vals_slice(s.score_matrix, t), crows.len() as int);
    }
}

/// Chains the adjacent column-pointer inequalities of a well-formed matrix.
pub proof fn lemma_wf_indptr_le(s: Retriever, a: int, b: int)
    requires
        s.wf(),
        0 <= a <= b <= s.vocab@.len(),
    ensures
        s.score_matrix.indptr@[a] <= s.score_matrix.indptr@[b],
    decreases b - a,
{
    if a < b {
        lemma_wf_indptr_le(s, a, b - 1);
    }
}

} // verus!
