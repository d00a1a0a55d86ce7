use vstd::prelude::*;

verus! {

use crate::tok::id_views;

/// Number of occurrences of term `t` in a document.
pub open spec fn occ(doc: Seq<usize>, t: usize) -> int
    decreases doc.len(),
{
    if doc.len() == 0 {
        0
    } else {
        occ(doc.drop_last(), t) + if doc.last() == t {
            1int
        } else {
            0int
        }
    }
}

pub proof fn lemma_occ_bounds(doc: Seq<usize>, t: usize)
    ensures
        0 <= occ(doc, t) <= doc.len(),
    decreases doc.len(),
{
    if doc.len() == 0 {
    } else {
        lemma_occ_bounds(doc.drop_last(), t);
    }
}

/// Document frequency of `t` over the first `n` documents.
pub open spec fn df_upto(corpus: Seq<Seq<usize>>, t: usize, n: int) -> int
    decreases n,
{
    if n <= 0 {
        0
    } else {
        df_upto(corpus, t, n - 1) + if occ(corpus[n - 1], t) > 0 {
            1int
        } else {
            0int
        }
    }
}

/// Document frequency: in how many documents `t` occurs at least once.
pub open spec fn df_of(corpus: Seq<Seq<usize>>, t: usize) -> int {
    df_upto(corpus, t, corpus.len() as int)
}

pub proof fn lemma_df_bounds(corpus: Seq<Seq<usize>>, t: usize, n: int)
    requires
        n >= 0,
    ensures
        0 <= df_upto(corpus, t, n) <= n,
    decreases n,
{
    if n > 0 {
        lemma_df_bounds(corpus, t, n - 1);
    }
}

/// The per-document term tally: distinct terms and their counts, in parallel
/// vectors.
pub struct DocTally {
    pub terms: Vec<usize>,
    pub counts: Vec<u64>,
}

/// A tally faithfully records the multiplicities of a document: distinct
/// keys, exact counts, and a key for every term that occurs.
pub open spec fn tally_ok(y: DocTally, doc: Seq<usize>) -> bool {
    &&& y.terms@.len() == y.counts@.len()
    &&& y.terms@.no_duplicates()
    &&& forall|q: int|
        0 <= q < y.terms@.len() ==> y.counts@[q] == occ(doc, #[trigger] y.terms@[q]) && occ(
            doc,
            y.terms@[q],
        ) >= 1
    &&& forall|t: usize| occ(doc, t) > 0 ==> y.terms@.contains(t)
}

/// Linear lookup of a term in a tally's key vector.
pub fn find_id(v: &Vec<usize>, x: usize) -> (r: Option<usize>)
    ensures
        match r {
            Some(i) => i < v@.len() && v@[i as int] == x,
            None => !v@.contains(x),
        },
{
    let mut i: usize = 0;
    while i < v.len()
        invariant
            i <= v@.len(),
            forall|j: int| 0 <= j < i ==> v@[j] != x,
        decreases v@.len() - i,
    {
        if v[i] == x {
            return Some(i);
        }
        i = i + 1;
    }
    proof {
        if v@.contains(x) {
            let j = choose|j: int| 0 <= j < v@.len() && v@[j] == x;
            assert(false);
        }
    }
    None
}

/// Folds one document into a term-count tally.
pub fn tally_doc(doc: &Vec<usize>) -> (r: DocTally)
    ensures
        tally_ok(r, doc@),
{
    let mut terms: Vec<usize> = Vec::new();
    let mut counts: Vec<u64> = Vec::new();
    let mut j: usize = 0;
    proof {
        assert(doc@.take(0) =~= Seq::<usize>::empty());
    }
    while j < doc.len()
        invariant
            j <= doc@.len(),
            terms@.len() == counts@.len(),
            terms@.no_duplicates(),
            forall|q: int|
                0 <= q < terms@.len() ==> counts@[q] == occ(
                    doc@.take(j as int),
                    #[trigger] terms@[q],
                ) && occ(doc@.take(j as int), terms@[q]) >= 1,
            forall|t: usize| occ(doc@.take(j as int), t) > 0 ==> terms@.contains(t),
        decreases doc@.len() - j,
    {
        let t = doc[j];
        proof {
            doc@.lemma_take_succ_push(j as int);
            assert(doc@.take(j as int + 1).drop_last() =~= doc@.take(j as int));
            assert(doc@.take(j as int + 1).last() == doc@[j as int]);
            lemma_occ_bounds(doc@.take(j as int), t);
        }
        match find_id(&terms, t) {
            Some(i) => {
                let c = counts[i];
                counts.set(i, c + 1);
                proof {
                    assert forall|q: int| 0 <= q < terms@.len() implies counts@[q]
                        == occ(doc@.take(j as int + 1), #[trigger] terms@[q]) && occ(
                        doc@.take(j as int + 1),
                        terms@[q],
                    ) >= 1 by {
                        if q != i as int {
                            assert(terms@[q] != t);
                        }
                    }
                }
            },
            None => {
                let ghost ot = terms@;
                terms.push(t);
                counts.push(1);
                proof {
                    let nt = terms@;
                    assert(nt.drop_last() =~= ot);
                    assert forall|q: int| 0 <= q < nt.len() implies counts@[q] == occ(
                        doc@.take(j as int + 1),
                        #[trigger] nt[q],
                    ) && occ(doc@.take(j as int + 1), nt[q]) >= 1 by {
                        if q < nt.len() - 1 {
                            assert(nt[q] != t);
                        } else {
                            assert(nt[q] == t);
                            assert(occ(doc@.take(j as int), t) == 0);
                        }
                    }
                    assert forall|a: int, b: int|
                        0 <= a < nt.len() && 0 <= b < nt.len() && a != b implies nt[a] != nt[b] by {
                        if a < nt.len() - 1 && b < nt.len() - 1 {
                        } else if a == nt.len() - 1 {
                            assert(nt[b] != t);
                        } else {
                            assert(nt[a] != t);
                        }
                    }
                    assert forall|x: usize| occ(doc@.take(j as int + 1), x) > 0 implies nt.contains(
                        x,
                    ) by {
                        if x == t {
                            assert(nt[nt.len() - 1] == t);
                        } else {
                            assert(occ(doc@.take(j as int), x) == occ(doc@.take(j as int + 1), x));
                            if occ(doc@.take(j as int), x) > 0 {
                                assert(ot.contains(x));
                                let w = choose|w: int| 0 <= w < ot.len() && ot[w] == x;
                                assert(nt[w] == x);
                            }
                        }
                    }
                }
            },
        }
        j = j + 1;
    }
    proof {
        assert(doc@.take(doc@.len() as int) =~= doc@);
    }
    DocTally { terms, counts }
}

/// Computes the per-document tallies and the document-frequency vector of a
/// tokenized corpus over `n_terms` vocabulary entries.
pub fn compute_frequencies(corpus: &Vec<Vec<usize>>, n_terms: usize) -> (r: (Vec<u64>, Vec<DocTally>))
    requires
        forall|d: int, j: int|
            0 <= d < corpus@.len() && 0 <= j < corpus@[d]@.len() ==> #[trigger] corpus@[d]@[j]
                < n_terms,
    ensures
        r.0@.len() == n_terms,
        forall|t: int|
            0 <= t < n_terms ==> #[trigger] r.0@[t] == df_of(id_views(corpus@), t as usize),
        r.1@.len() == corpus@.len(),
        forall|d: int| 0 <= d < corpus@.len() ==> tally_ok(#[trigger] r.1@[d], corpus@[d]@),
{
    let mut df: Vec<u64> = Vec::new();
    let mut i: usize = 0;
    while i < n_terms
        invariant
            i <= n_terms,
            df@.len() == i,
            forall|t: int| 0 <= t < i ==> #[trigger] df@[t] == 0,
        decreases n_terms - i,
    {
        df.push(0);
        i = i + 1;
    }
    let mut tallies: Vec<DocTally> = Vec::new();
    let mut d: usize = 0;
    let ghost cv = id_views(corpus@);
    while d < corpus.len()
        invariant
            d <= corpus@.len(),
            cv == id_views(corpus@),
            forall|dd: int, j: int|
                0 <= dd < corpus@.len() && 0 <= j < corpus@[dd]@.len() ==> #[trigger] corpus@[dd]@[j]
                    < n_terms,
            df@.len() == n_terms,
            forall|t: int|
                0 <= t < n_terms ==> #[trigger] df@[t] == df_upto(cv, t as usize, d as int),
            tallies@.len() == d,
            forall|e: int| 0 <= e < d ==> tally_ok(#[trigger] tallies@[e], corpus@[e]@),
        decreases corpus@.len() - d,
    {
        let y = tally_doc(&corpus[d]);
        let mut q: usize = 0;
        proof {
            lemma_occ_bounds(cv[d as int], 0);
        }
        while q < y.terms.len()
            invariant
                q <= y.terms@.len(),
                d < corpus@.len(),
                cv == id_views(corpus@),
                tally_ok(y, corpus@[d as int]@),
                forall|dd: int, j: int|
                    0 <= dd < corpus@.len() && 0 <= j < corpus@[dd]@.len() ==> #[trigger] corpus@[dd]@[j]
                        < n_terms,
                df@.len() == n_terms,
                forall|t: int|
                    0 <= t < n_terms ==> #[trigger] df@[t] == df_upto(cv, t as usize, d as int) + (
                    if y.terms@.take(q as int).contains(t as usize) {
                        1int
                    } else {
                        0int
                    }),
            decreases y.terms@.len() - q,
        {
            let t = y.terms[q];
            proof {
                assert(occ(corpus@[d as int]@, t) >= 1);
                assert(corpus@[d as int]@.contains(t)) by {
                    lemma_occ_contains(corpus@[d as int]@, t);
                }
                assert(t < n_terms);
                lemma_df_bounds(cv, t, d as int);
                y.terms@.lemma_take_succ_push(q as int);
                assert(corpus@.len() <= usize::MAX) by {
                    assert(corpus@.len() == corpus.len());
                }
                assert(!y.terms@.take(q as int).contains(t)) by {
                    let tka = y.terms@.take(q as int);
                    if tka.contains(t) {
                        let w = choose|w: int| 0 <= w < tka.len() && tka[w] == t;
                        assert(y.terms@[w] == t);
                        assert(y.terms@[q as int] == t);
                        assert(false);
                    }
                }
            }
            let c = df[t];
            df.set(t, c + 1);
            proof {
                assert forall|tt: int| 0 <= tt < n_terms implies #[trigger] df@[tt] == df_upto(
                    cv,
                    tt as usize,
                    d as int,
                ) + (if y.terms@.take(q as int + 1).contains(tt as usize) {
                    1int
                } else {
                    0int
                }) by {
                    let tu = tt as usize;
                    if tu == t {
                        assert(!y.terms@.take(q as int).contains(tu));
                        assert(y.terms@.take(q as int + 1).contains(tu)) by {
                            assert(y.terms@.take(q as int + 1).last() == t);
                        }
                    } else {
                        assert(y.terms@.take(q as int + 1).contains(tu) == y.terms@.take(
                            q as int,
                        ).contains(tu)) by {
                            let tka = y.terms@.take(q as int);
                            let tkb = y.terms@.take(q as int + 1);
                            if tka.contains(tu) {
                                let w = choose|w: int| 0 <= w < tka.len() && tka[w] == tu;
                                assert(tkb[w] == tu);
                            }
                            if tkb.contains(tu) {
                                let w = choose|w: int| 0 <= w < tkb.len() && tkb[w] == tu;
                                assert(w < q);
                                assert(tka[w] == tu);
                            }
                        }
                    }
                }
            }
            q = q + 1;
        }
        proof {
            assert(y.terms@.take(y.terms@.len() as int) =~= y.terms@);
            assert(cv[d as int] == corpus@[d as int]@);
            assert forall|t: int| 0 <= t < n_terms implies #[trigger] df@[t] == df_upto(
                cv,
                t as usize,
                d as int + 1,
            ) by {
                let tu = t as usize;
                if occ(cv[d as int], tu) > 0 {
                    assert(y.terms@.contains(tu));
                } else {
                    if y.terms@.contains(tu) {
                        let w = choose|w: int| 0 <= w < y.terms@.len() && y.terms@[w] == tu;
                        assert(occ(corpus@[d as int]@, tu) >= 1);
                        assert(false);
                    }
                }
            }
        }
        tallies.push(y);
        d = d + 1;
    }
    proof {
        assert(corpus@.len() == cv.len());
    }
    (df, tallies)
}

/// A term with a positive count is a member of the document.
pub proof fn lemma_occ_contains(doc: Seq<usize>, t: usize)
    requires
        occ(doc, t) > 0,
    ensures
        doc.contains(t),
    decreases doc.len(),
{
    if doc.len() == 0 {
    } else {
        if doc.last() == t {
            assert(doc[doc.len() - 1] == t);
        } else {
            lemma_occ_contains(doc.drop_last(), t);
            let w = choose|w: int| 0 <= w < doc.len() - 1 && doc.drop_last()[w] == t;
            assert(doc[w] == t);
        }
    }
}

} // verus!
