use vstd::prelude::*;

verus! {

use vstd::slice::slice_to_vec;

/// The byte views of a sequence of byte vectors.
pub open spec fn views(s: Seq<Vec<u8>>) -> Seq<Seq<u8>> {
    Seq::new(s.len(), |i: int| s[i]@)
}

/// The views of a sequence of term-identifier vectors.
pub open spec fn id_views(s: Seq<Vec<usize>>) -> Seq<Seq<usize>> {
    Seq::new(s.len(), |i: int| s[i]@)
}

pub proof fn lemma_views_push(s: Seq<Vec<u8>>, v: Vec<u8>)
    ensures
        views(s.push(v)) =~= views(s).push(v@),
{
}

pub proof fn lemma_id_views_push(s: Seq<Vec<usize>>, v: Vec<usize>)
    ensures
        id_views(s.push(v)) =~= id_views(s).push(v@),
{
}

/// ASCII whitespace, the token separators of the tokenizer.
pub open spec fn is_space(b: u8) -> bool {
    b == 32 || b == 9 || b == 10 || b == 13 || b == 11 || b == 12
}

/// ASCII lowercasing of a single byte.
pub open spec fn lower(b: u8) -> u8 {
    if 65 <= b && b <= 90 {
        (b + 32) as u8
    } else {
        b
    }
}

/// One left-to-right pass of whitespace splitting: `cur` is the token under
/// construction and `acc` the tokens already completed.
pub open spec fn split_acc(s: Seq<u8>, cur: Seq<u8>, acc: Seq<Seq<u8>>) -> Seq<Seq<u8>>
    decreases s.len(),
{
    if s.len() == 0 {
        if cur.len() == 0 {
            acc
        } else {
            acc.push(cur)
        }
    } else if is_space(s[0]) {
        if cur.len() == 0 {
            split_acc(s.drop_first(), cur, acc)
        } else {
            split_acc(s.drop_first(), Seq::empty(), acc.push(cur))
        }
    } else {
        split_acc(s.drop_first(), cur.push(lower(s[0])), acc)
    }
}

/// The tokens of a byte string: maximal runs of non-whitespace bytes, each
/// lowercased bytewise.
pub open spec fn tokens_of(s: Seq<u8>) -> Seq<Seq<u8>> {
    split_acc(s, Seq::empty(), Seq::empty())
}

/// Whitespace-lowercase tokenization of one document or query.
pub fn tokenize(s: &Vec<u8>) -> (r: Vec<Vec<u8>>)
    ensures
        views(r@) == tokens_of(s@),
{
    let mut acc: Vec<Vec<u8>> = Vec::new();
    let mut cur: Vec<u8> = Vec::new();
    let mut i: usize = 0;
    proof {
        assert(s@.skip(0) =~= s@);
        assert(views(acc@) =~= Seq::<Seq<u8>>::empty());
    }
    while i < s.len()
        invariant
            i <= s@.len(),
            tokens_of(s@) == split_acc(s@.skip(i as int), cur@, views(acc@)),
        decreases s@.len() - i,
    {
        let b = s[i];
        proof {
            assert(s@.skip(i as int).drop_first() =~= s@.skip(i as int + 1));
            assert(s@.skip(i as int)[0] == s@[i as int]);
        }
        if b == 32 || b == 9 || b == 10 || b == 13 || b == 11 || b == 12 {
            if cur.len() > 0 {
                proof {
                    lemma_views_push(acc@, cur);
                }
                acc.push(cur);
                cur = Vec::new();
            }
        } else {
            let lb = if 65 <= b && b <= 90 {
                b + 32
            } else {
                b
            };
            cur.push(lb);
        }
        i = i + 1;
    }
    proof {
        assert(s@.skip(i as int) =~= Seq::<u8>::empty());
    }
    if cur.len() > 0 {
        proof {
            lemma_views_push(acc@, cur);
        }
        acc.push(cur);
    }
    acc
}

/// The identifier a vocabulary assigns to a token: the index of its first
/// occurrence.
pub open spec fn tok_index(vocab: Seq<Seq<u8>>, t: Seq<u8>) -> int {
    match vocab.index_of_first(t) {
        Some(i) => i,
        None => vocab.len() as int,
    }
}

/// A first occurrence is stable under extension: a longer vocabulary that
/// starts with `v1` assigns the same identifier to every token of `v1`.
pub proof fn lemma_tok_index_prefix(v1: Seq<Seq<u8>>, v2: Seq<Seq<u8>>, t: Seq<u8>)
    requires
        v1.is_prefix_of(v2),
        v1.contains(t),
    ensures
        v2.contains(t),
        0 <= tok_index(v1, t) < v1.len(),
        tok_index(v2, t) == tok_index(v1, t),
        v1[tok_index(v1, t)] == t,
{
    v1.index_of_first_ensures(t);
    let i1 = tok_index(v1, t);
    assert(v2[i1] == v1[i1]);
    assert(v2.contains(t)) by {
        assert(v2[i1] == t);
    }
    v2.index_of_first_ensures(t);
    let i2 = tok_index(v2, t);
    if i2 < i1 {
        assert(v1[i2] == v2[i2]);
        assert(false);
    }
    if i2 > i1 {
        assert(v2[i1] != t);
        assert(false);
    }
}

/// A token first added at the end of `v1` keeps identifier `v1.len()` in any
/// extension.
pub proof fn lemma_tok_index_new(v1: Seq<Seq<u8>>, v2: Seq<Seq<u8>>, t: Seq<u8>)
    requires
        v1.push(t).is_prefix_of(v2),
        !v1.contains(t),
    ensures
        v2.contains(t),
        tok_index(v2, t) == v1.len(),
{
    let n = v1.len() as int;
    assert(v1.push(t)[n] == t);
    assert(v2[n] == t);
    assert(v2.contains(t)) by {
        assert(v2[n] == t);
    }
    v2.index_of_first_ensures(t);
    let i2 = tok_index(v2, t);
    if i2 < n {
        assert(v1.push(t)[i2] == v1[i2]);
        assert(v2[i2] == v1[i2]);
        assert(v1.contains(t)) by {
            assert(v1[i2] == t);
        }
        assert(false);
    }
    if i2 > n {
        assert(v2[n] != t);
        assert(false);
    }
}

/// The vocabulary after folding the tokens `toks` into `vocab` in order,
/// appending each token not seen before.
pub open spec fn vocab_add(vocab: Seq<Seq<u8>>, toks: Seq<Seq<u8>>) -> Seq<Seq<u8>>
    decreases toks.len(),
{
    if toks.len() == 0 {
        vocab
    } else {
        let v1 = vocab_add(vocab, toks.drop_last());
        if v1.contains(toks.last()) {
            v1
        } else {
            v1.push(toks.last())
        }
    }
}

pub proof fn lemma_prefix_trans(a: Seq<Seq<u8>>, b: Seq<Seq<u8>>, c: Seq<Seq<u8>>)
    requires
        a.is_prefix_of(b),
        b.is_prefix_of(c),
    ensures
        a.is_prefix_of(c),
{
    assert(a =~= c.subrange(0, a.len() as int));
}

pub proof fn lemma_vocab_add_prefix(vocab: Seq<Seq<u8>>, toks: Seq<Seq<u8>>)
    ensures
        vocab.is_prefix_of(vocab_add(vocab, toks)),
    decreases toks.len(),
{
    if toks.len() == 0 {
        assert(vocab =~= vocab_add(vocab, toks).subrange(0, vocab.len() as int));
    } else {
        lemma_vocab_add_prefix(vocab, toks.drop_last());
        let v1 = vocab_add(vocab, toks.drop_last());
        if v1.contains(toks.last()) {
        } else {
            assert(v1.is_prefix_of(v1.push(toks.last()))) by {
                assert(v1 =~= v1.push(toks.last()).subrange(0, v1.len() as int));
            }
            lemma_prefix_trans(vocab, v1, v1.push(toks.last()));
        }
    }
}

/// Folding a longer token prefix extends the vocabulary.
pub proof fn lemma_vocab_add_take_prefix(vocab: Seq<Seq<u8>>, toks: Seq<Seq<u8>>, j: int)
    requires
        0 <= j <= toks.len(),
    ensures
        vocab_add(vocab, toks.take(j)).is_prefix_of(vocab_add(vocab, toks)),
    decreases toks.len() - j,
{
    if j == toks.len() {
        assert(toks.take(j) =~= toks);
        let v = vocab_add(vocab, toks);
        assert(v =~= v.subrange(0, v.len() as int));
    } else {
        toks.lemma_take_succ_push(j);
        let a = vocab_add(vocab, toks.take(j));
        let b = vocab_add(vocab, toks.take(j + 1));
        assert(toks.take(j + 1).drop_last() =~= toks.take(j));
        assert(toks.take(j + 1).last() == toks[j]);
        assert(a.is_prefix_of(b)) by {
            if a.contains(toks[j]) {
                assert(b == a);
                assert(a =~= b.subrange(0, a.len() as int));
            } else {
                assert(b == a.push(toks[j]));
                assert(a =~= b.subrange(0, a.len() as int));
            }
        }
        lemma_vocab_add_take_prefix(vocab, toks, j + 1);
        lemma_prefix_trans(a, b, vocab_add(vocab, toks));
    }
}

/// Every token folded in is contained afterwards, and containment is kept.
pub proof fn lemma_vocab_add_contains(vocab: Seq<Seq<u8>>, toks: Seq<Seq<u8>>)
    ensures
        forall|t: Seq<u8>| vocab.contains(t) ==> vocab_add(vocab, toks).contains(t),
        forall|i: int| 0 <= i < toks.len() ==> vocab_add(vocab, toks).contains(#[trigger] toks[i]),
    decreases toks.len(),
{
    if toks.len() == 0 {
    } else {
        lemma_vocab_add_contains(vocab, toks.drop_last());
        let v1 = vocab_add(vocab, toks.drop_last());
        let v2 = vocab_add(vocab, toks);
        assert forall|t: Seq<u8>| v1.contains(t) implies v2.contains(t) by {
            let i = choose|i: int| 0 <= i < v1.len() && v1[i] == t;
            if v1.contains(toks.last()) {
            } else {
                assert(v2[i] == t);
            }
        }
        assert(v2.contains(toks.last())) by {
            if v1.contains(toks.last()) {
            } else {
                assert(v2[v1.len() as int] == toks.last());
            }
        }
        assert forall|i: int| 0 <= i < toks.len() implies v2.contains(#[trigger] toks[i]) by {
            if i < toks.len() - 1 {
                assert(toks.drop_last()[i] == toks[i]);
            } else {
                assert(toks[i] == toks.last());
            }
        }
    }
}

/// The vocabulary built from the first `n` documents.
pub open spec fn vocab_upto(texts: Seq<Seq<u8>>, n: int) -> Seq<Seq<u8>>
    decreases n,
{
    if n <= 0 {
        Seq::empty()
    } else {
        vocab_add(vocab_upto(texts, n - 1), tokens_of(texts[n - 1]))
    }
}

/// The vocabulary of a corpus: all tokens, identifiers in first-seen order.
pub open spec fn vocab_of(texts: Seq<Seq<u8>>) -> Seq<Seq<u8>> {
    vocab_upto(texts, texts.len() as int)
}

pub proof fn lemma_vocab_upto_mono(texts: Seq<Seq<u8>>, n: int, m: int)
    requires
        0 <= n <= m,
    ensures
        vocab_upto(texts, n).is_prefix_of(vocab_upto(texts, m)),
    decreases m - n,
{
    if n == m {
        let v = vocab_upto(texts, n);
        assert(v =~= v.subrange(0, v.len() as int));
    } else {
        lemma_vocab_upto_mono(texts, n, m - 1);
        lemma_vocab_add_prefix(vocab_upto(texts, m - 1), tokens_of(texts[m - 1]));
        lemma_prefix_trans(
            vocab_upto(texts, n),
            vocab_upto(texts, m - 1),
            vocab_upto(texts, m),
        );
    }
}

/// The term identifiers of a token sequence under a fixed vocabulary.
pub open spec fn term_ids(vocab: Seq<Seq<u8>>, toks: Seq<Seq<u8>>) -> Seq<usize> {
    Seq::new(toks.len(), |i: int| tok_index(vocab, toks[i]) as usize)
}

/// The tokenized corpus: each document as its term-identifier sequence.
pub open spec fn corpus_of(texts: Seq<Seq<u8>>) -> Seq<Seq<usize>> {
    Seq::new(texts.len(), |d: int| term_ids(vocab_of(texts), tokens_of(texts[d])))
}

/// Every identifier in the tokenized corpus is below the vocabulary size.
pub proof fn lemma_corpus_ids_bound(texts: Seq<Seq<u8>>)
    ensures
        forall|d: int, j: int|
            0 <= d < texts.len() && 0 <= j < corpus_of(texts)[d].len()
                ==> #[trigger] corpus_of(texts)[d][j] < vocab_of(texts).len(),
{
    assert forall|d: int, j: int|
        0 <= d < texts.len() && 0 <= j < corpus_of(texts)[d].len()
            implies #[trigger] corpus_of(texts)[d][j] < vocab_of(texts).len() by {
        let toks = tokens_of(texts[d]);
        lemma_vocab_add_contains(vocab_upto(texts, d), toks);
        let vnext = vocab_upto(texts, d + 1);
        assert(vnext.contains(toks[j]));
        lemma_vocab_upto_mono(texts, d + 1, texts.len() as int);
        lemma_tok_index_prefix(vnext, vocab_of(texts), toks[j]);
        vnext.index_of_first_ensures(toks[j]);
        vocab_of(texts).index_of_first_ensures(toks[j]);
    }
}

pub fn copy_bytes(v: &Vec<u8>) -> (r: Vec<u8>)
    ensures
        r@ == v@,
{
    slice_to_vec(v.as_slice())
}

/// Linear lookup of a token in the vocabulary.
pub fn find_token(vocab: &Vec<Vec<u8>>, t: &Vec<u8>) -> (r: Option<usize>)
    ensures
        match r {
            Some(i) => views(vocab@).contains(t@) && i < vocab@.len() && i as int == tok_index(
                views(vocab@),
                t@,
            ),
            None => !views(vocab@).contains(t@),
        },
{
    let mut i: usize = 0;
    while i < vocab.len()
        invariant
            i <= vocab@.len(),
            forall|j: int| 0 <= j < i ==> views(vocab@)[j] != t@,
        decreases vocab@.len() - i,
    {
        if bytes_eq(&vocab[i], t) {
            proof {
                let vs = views(vocab@);
                assert(vs[i as int] == t@);
                assert(vs.contains(t@)) by {
                    assert(vs[i as int] == t@);
                }
                vs.index_of_first_ensures(t@);
                let ix = tok_index(vs, t@);
                if ix < i as int {
                    assert(vs[ix] != t@);
                    assert(false);
                }
                if ix > i as int {
                    assert(vs[i as int] != t@);
                    assert(false);
                }
            }
            return Some(i);
        }
        i = i + 1;
    }
    proof {
        let vs = views(vocab@);
        if vs.contains(t@) {
            let j = choose|j: int| 0 <= j < vs.len() && vs[j] == t@;
            assert(false);
        }
    }
    None
}

pub fn bytes_eq(a: &Vec<u8>, b: &Vec<u8>) -> (r: bool)
    ensures
        r == (a@ == b@),
{
    if a.len() != b.len() {
        return false;
    }
    let mut i: usize = 0;
    while i < a.len()
        invariant
            i <= a@.len(),
            a@.len() == b@.len(),
            forall|j: int| 0 <= j < i ==> a@[j] == b@[j],
        decreases a@.len() - i,
    {
        if a[i] != b[i] {
            return false;
        }
        i = i + 1;
    }
    proof {
        assert(a@ =~= b@);
    }
    true
}

/// Tokenizes every document, assigning dense term identifiers in first-seen
/// order; returns the vocabulary and the tokenized corpus.
pub fn build_corpus(texts: &Vec<Vec<u8>>) -> (r: (Vec<Vec<u8>>, Vec<Vec<usize>>))
    ensures
        views(r.0@) == vocab_of(views(texts@)),
        id_views(r.1@) == corpus_of(views(texts@)),
{
    let ghost tb = views(texts@);
    let mut vocab: Vec<Vec<u8>> = Vec::new();
    let mut corpus: Vec<Vec<usize>> = Vec::new();
    let mut d: usize = 0;
    proof {
        assert(views(vocab@) =~= vocab_upto(tb, 0));
    }
    while d < texts.len()
        invariant
            d <= texts@.len(),
            tb == views(texts@),
            views(vocab@) == vocab_upto(tb, d as int),
            corpus@.len() == d,
            forall|e: int|
                0 <= e < d ==> #[trigger] corpus@[e]@ == term_ids(vocab_of(tb), tokens_of(tb[e])),
        decreases texts@.len() - d,
    {
        let toks = tokenize(&texts[d]);
        let ghost tv = tokens_of(tb[d as int]);
        proof {
            assert(views(toks@) == tv);
        }
        let mut ids: Vec<usize> = Vec::new();
        let mut j: usize = 0;
        proof {
            assert(tv.take(0) =~= Seq::<Seq<u8>>::empty());
        }
        while j < toks.len()
            invariant
                j <= toks@.len(),
                tb == views(texts@),
                d < texts@.len(),
                tv == tokens_of(tb[d as int]),
                views(toks@) == tv,
                views(vocab@) == vocab_add(vocab_upto(tb, d as int), tv.take(j as int)),
                ids@.len() == j,
                forall|q: int|
                    0 <= q < j ==> #[trigger] ids@[q] == tok_index(vocab_of(tb), tv[q]) as usize,
            decreases toks@.len() - j,
        {
            let ghost vcur = views(vocab@);
            proof {
                // the vocabulary so far is a prefix of the final one
                lemma_vocab_add_take_prefix(vocab_upto(tb, d as int), tv, j as int);
                lemma_vocab_upto_mono(tb, d as int + 1, tb.len() as int);
                lemma_prefix_trans(vcur, vocab_upto(tb, d as int + 1), vocab_of(tb));
                // folding in the next token steps the partial fold
                tv.lemma_take_succ_push(j as int);
                assert(tv.take(j as int + 1).drop_last() =~= tv.take(j as int));
                assert(tv.take(j as int + 1).last() == tv[j as int]);
                assert(views(toks@)[j as int] == toks@[j as int]@);
            }
            match find_token(&vocab, &toks[j]) {
                Some(ix) => {
                    proof {
                        lemma_tok_index_prefix(vcur, vocab_of(tb), toks@[j as int]@);
                        assert(vocab_add(vocab_upto(tb, d as int), tv.take(j as int + 1)) == vcur);
                    }
                    ids.push(ix);
                },
                None => {
                    let n = vocab.len();
                    let tcopy = copy_bytes(&toks[j]);
                    proof {
                        lemma_views_push(vocab@, tcopy);
                        assert(vocab_add(vocab_upto(tb, d as int), tv.take(j as int + 1))
                            == vcur.push(tv[j as int]));
                        // the pushed vocabulary is still a prefix of the final one
                        lemma_vocab_add_take_prefix(vocab_upto(tb, d as int), tv, j as int + 1);
                        lemma_vocab_upto_mono(tb, d as int + 1, tb.len() as int);
                        lemma_prefix_trans(
                            vcur.push(tv[j as int]),
                            vocab_upto(tb, d as int + 1),
                            vocab_of(tb),
                        );
                        lemma_tok_index_new(vcur, vocab_of(tb), tv[j as int]);
                    }
                    ids.push(n);
                    vocab.push(tcopy);
                },
            }
            j = j + 1;
        }
        proof {
            assert(tv.take(j as int) =~= tv);
            assert(ids@ =~= term_ids(vocab_of(tb), tv));
            lemma_id_views_push(corpus@, ids);
        }
        corpus.push(ids);
        d = d + 1;
    }
    proof {
        assert(id_views(corpus@) =~= corpus_of(tb));
    }
    (vocab, corpus)
}

} // verus!
