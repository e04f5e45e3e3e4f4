use vstd::prelude::*;
use crate::builder::{chunk_keys, chunk_len, chunk_run, lemma_occurrences_concat, sharded_keys};
use crate::extract::line_tokens;
use crate::ngram::{bigram_keys, bigram_window, occurrences, opt_seq, trigram_keys, trigram_window};

verus! {

/// The number of chunks of `size` lines that `n` lines are cut into.
pub open spec fn chunk_count(n: nat, size: nat) -> nat
    decreases n,
{
    if size == 0 || n <= size {
        1
    } else {
        1 + chunk_count((n - size) as nat, size)
    }
}

proof fn lemma_bigrams_extend_back(s: Seq<Seq<char>>, e: Seq<Seq<char>>)
    ensures
        bigram_keys(s).len() <= bigram_keys(s + e).len() <= bigram_keys(s).len() + e.len(),
        bigram_keys(s + e).subrange(0, bigram_keys(s).len() as int) == bigram_keys(s),
{
    assert(bigram_keys(s + e).subrange(0, bigram_keys(s).len() as int) =~= bigram_keys(s));
}

proof fn lemma_trigrams_extend_back(s: Seq<Seq<char>>, e: Seq<Seq<char>>)
    ensures
        trigram_keys(s).len() <= trigram_keys(s + e).len() <= trigram_keys(s).len() + e.len(),
        trigram_keys(s + e).subrange(0, trigram_keys(s).len() as int) == trigram_keys(s),
{
    assert(trigram_keys(s + e).subrange(0, trigram_keys(s).len() as int) =~= trigram_keys(s));
}

proof fn lemma_bigrams_extend_front(f: Seq<Seq<char>>, s: Seq<Seq<char>>)
    requires
        s.len() >= 1,
    ensures
        bigram_keys(f + s).len() == bigram_keys(s).len() + f.len(),
        bigram_keys(f + s).subrange(f.len() as int, bigram_keys(f + s).len() as int) == bigram_keys(s),
{
    assert(bigram_keys(f + s).subrange(f.len() as int, bigram_keys(f + s).len() as int) =~= bigram_keys(s));
}

proof fn lemma_trigrams_extend_front(f: Seq<Seq<char>>, s: Seq<Seq<char>>)
    ensures
        trigram_keys(f + s).len() <= trigram_keys(s).len() + f.len(),
        trigram_keys(f + s).subrange(trigram_keys(f + s).len() - trigram_keys(s).len(), trigram_keys(f + s).len() as int)
            == trigram_keys(s),
{
    let n = trigram_keys(f + s).len() - trigram_keys(s).len();
    assert(trigram_keys(f + s).subrange(n, trigram_keys(f + s).len() as int) =~= trigram_keys(s));
}

/// A run over `x` agrees with a run over any longer `y` that starts with
/// `x`, as long as the last line read still has its lookahead inside `x`.
proof fn lemma_run_prefix(p: Seq<char>, rs: Seq<Seq<char>>, x: Seq<Seq<char>>, y: Seq<Seq<char>>, n: nat)
    requires
        n < x.len() <= y.len(),
        y.subrange(0, x.len() as int) == x,
    ensures
        chunk_run(p, rs, x, n) == chunk_run(p, rs, y, n),
    decreases n,
{
    if n > 0 {
        lemma_run_prefix(p, rs, x, y, (n - 1) as nat);
        assert(x[n - 1] == y.subrange(0, x.len() as int)[n - 1]);
        assert(x[n as int] == y.subrange(0, x.len() as int)[n as int]);
    }
}

/// Where a chunk `a` is followed by more lines, its last line also sees
/// their first line as lookahead: its keys only grow at the back, by at most
/// one bigram and two trigrams, and the carry is the same.
proof fn lemma_run_at_end(p: Seq<char>, rs: Seq<Seq<char>>, a: Seq<Seq<char>>, y: Seq<Seq<char>>)
    requires
        1 <= a.len() < y.len(),
        y.subrange(0, a.len() as int) == a,
    ensures
        ({
            let ca = chunk_run(p, rs, a, a.len());
            let cy = chunk_run(p, rs, y, a.len());
            &&& cy.0.subrange(0, ca.0.len() as int) == ca.0
            &&& ca.0.len() <= cy.0.len() <= ca.0.len() + 1
            &&& cy.1.subrange(0, ca.1.len() as int) == ca.1
            &&& ca.1.len() <= cy.1.len() <= ca.1.len() + 2
            &&& cy.2 == ca.2
            &&& cy.3 == ca.3
        }),
{
    let n = a.len();
    lemma_run_prefix(p, rs, a, y, (n - 1) as nat);
    let pre = chunk_run(p, rs, a, (n - 1) as nat);
    assert(a[n - 1] == y[n - 1]);
    let t = line_tokens(p, rs, a[n - 1]);
    let next = line_tokens(p, rs, y[n as int]);
    let empty = Seq::<Seq<char>>::empty();
    if t.len() > 0 {
        let bw = bigram_window(pre.2, t, empty);
        let e2 = opt_seq(if next.len() > 0 { Some(next[0]) } else { None });
        assert(bigram_window(pre.2, t, next) =~= bw + e2);
        lemma_bigrams_extend_back(bw, e2);
        let tw = trigram_window(pre.2, pre.3, t, empty);
        let e3 = opt_seq(if next.len() > 0 { Some(next[0]) } else { None }) + opt_seq(if next.len() > 1 { Some(next[1]) } else { None });
        assert(trigram_window(pre.2, pre.3, t, next) =~= tw + e3);
        lemma_trigrams_extend_back(tw, e3);
        let ca = chunk_run(p, rs, a, n);
        let cy = chunk_run(p, rs, y, n);
        assert(cy.0 == pre.0 + bigram_keys(bigram_window(pre.2, t, next)));
        assert(cy.0.subrange(0, ca.0.len() as int) =~= ca.0);
        assert(cy.1.subrange(0, ca.1.len() as int) =~= ca.1);
    } else {
        assert(chunk_run(p, rs, y, n).0.subrange(0, chunk_run(p, rs, a, n).0.len() as int) =~= chunk_run(p, rs, a, n).0);
        assert(chunk_run(p, rs, y, n).1.subrange(0, chunk_run(p, rs, a, n).1.len() as int) =~= chunk_run(p, rs, a, n).1);
    }
}

/// `whole` is `front`, then at most `extra` keys, then `back`.
pub open spec fn splits_as(whole: Seq<Seq<char>>, front: Seq<Seq<char>>, back: Seq<Seq<char>>, extra: nat) -> bool {
    &&& front.len() + back.len() <= whole.len() <= front.len() + back.len() + extra
    &&& whole == front + whole.subrange(front.len() as int, whole.len() - back.len()) + back
}

#[verifier::rlimit(60)]
proof fn lemma_run_after_start_first(p: Seq<char>, rs: Seq<Seq<char>>, a_len: nat, y: Seq<Seq<char>>)
    requires
        a_len + 1 <= y.len(),
    ensures
        ({
            let b = y.subrange(a_len as int, y.len() as int);
            let ce = chunk_run(p, rs, y, a_len);
            let cy = chunk_run(p, rs, y, a_len + 1);
            let cb = chunk_run(p, rs, b, 1);
            &&& splits_as(cy.0, ce.0, cb.0, 1)
            &&& splits_as(cy.1, ce.1, cb.1, 2)
            &&& cy.2 == cb.2
            &&& cy.3 == cb.3
        }),
{
    let b = y.subrange(a_len as int, y.len() as int);
    let ce = chunk_run(p, rs, y, a_len);
    let cy = chunk_run(p, rs, y, a_len + 1);
    let cb = chunk_run(p, rs, b, 1);
    assert(b[0] == y[a_len as int]);
    let t = line_tokens(p, rs, b[0]);
    let next = if 1 < b.len() { line_tokens(p, rs, b[1]) } else { Seq::<Seq<char>>::empty() };
    if 1 < b.len() {
        assert(b[1] == y[(a_len + 1) as int]);
    }
    let none = None::<Seq<char>>;
    let e = Seq::<Seq<char>>::empty();
    assert(chunk_run(p, rs, b, 0) == (e, e, none, none));
    assert(a_len + 1 < y.len() <==> 1 < b.len());
    if t.len() > 0 {
        let s2 = bigram_window(none, t, next);
        let f2 = opt_seq(ce.2);
        assert(bigram_window(ce.2, t, next) =~= f2 + s2);
        lemma_bigrams_extend_front(f2, s2);
        let s3 = trigram_window(none, none, t, next);
        let f3 = opt_seq(ce.3) + opt_seq(ce.2);
        assert(trigram_window(ce.2, ce.3, t, next) =~= f3 + s3);
        lemma_trigrams_extend_front(f3, s3);
        let k2 = bigram_keys(f2 + s2);
        let k3 = trigram_keys(f3 + s3);
        assert(cy.0 == ce.0 + k2);
        assert(cy.1 == ce.1 + k3);
        assert(cb.0 == e + bigram_keys(s2));
        assert(cb.1 == e + trigram_keys(s3));
        assert(cb.0 =~= bigram_keys(s2));
        assert(cb.1 =~= trigram_keys(s3));
        assert(cy.0 =~= ce.0 + cy.0.subrange(ce.0.len() as int, cy.0.len() - cb.0.len()) + cb.0);
        assert(cy.1 =~= ce.1 + cy.1.subrange(ce.1.len() as int, cy.1.len() - cb.1.len()) + cb.1);
    } else {
        assert(cy.0 == ce.0);
        assert(cb.0 == e);
        assert(cy.0 =~= ce.0 + cy.0.subrange(ce.0.len() as int, cy.0.len() - cb.0.len()) + cb.0);
        assert(cy.1 =~= ce.1 + cy.1.subrange(ce.1.len() as int, cy.1.len() - cb.1.len()) + cb.1);
    }
}

/// After a chunk boundary, the run over the whole lines and the run over
/// the next chunk alone differ only in the keys of the chunk's first line
/// that reach back over the boundary: at most one bigram and two trigrams.
proof fn lemma_run_after_start(p: Seq<char>, rs: Seq<Seq<char>>, a_len: nat, y: Seq<Seq<char>>, m: nat)
    requires
        1 <= m,
        a_len + m <= y.len(),
    ensures
        ({
            let b = y.subrange(a_len as int, y.len() as int);
            let ce = chunk_run(p, rs, y, a_len);
            let cy = chunk_run(p, rs, y, a_len + m);
            let cb = chunk_run(p, rs, b, m);
            &&& splits_as(cy.0, ce.0, cb.0, 1)
            &&& splits_as(cy.1, ce.1, cb.1, 2)
            &&& cy.2 == cb.2
            &&& cy.3 == cb.3
        }),
    decreases m,
{
    if m == 1 {
        lemma_run_after_start_first(p, rs, a_len, y);
    } else {
        let b = y.subrange(a_len as int, y.len() as int);
        let ce = chunk_run(p, rs, y, a_len);
        let cy = chunk_run(p, rs, y, a_len + m);
        let cb = chunk_run(p, rs, b, m);
        lemma_run_after_start(p, rs, a_len, y, (m - 1) as nat);
        let py = chunk_run(p, rs, y, (a_len + m - 1) as nat);
        let pb = chunk_run(p, rs, b, (m - 1) as nat);
        let line = b[m - 1];
        assert(line == y[a_len + m - 1]);
        let t = line_tokens(p, rs, line);
        if m < b.len() {
            assert(b[m as int] == y[(a_len + m) as int]);
        }
        let mid0 = py.0.subrange(ce.0.len() as int, py.0.len() - pb.0.len());
        let mid1 = py.1.subrange(ce.1.len() as int, py.1.len() - pb.1.len());
        if t.len() > 0 {
            assert(cy.0 =~= ce.0 + mid0 + cb.0);
            assert(cy.0.subrange(ce.0.len() as int, cy.0.len() - cb.0.len()) =~= mid0);
            assert(cy.1 =~= ce.1 + mid1 + cb.1);
            assert(cy.1.subrange(ce.1.len() as int, cy.1.len() - cb.1.len()) =~= mid1);
        } else {
            assert(cy.0.subrange(ce.0.len() as int, cy.0.len() - cb.0.len()) =~= mid0);
            assert(cy.1.subrange(ce.1.len() as int, cy.1.len() - cb.1.len()) =~= mid1);
        }
    }
}

/// Cutting `lines` after its first `size` lines: the keys of the whole run
/// are those of the first part, at most two bigrams / four trigrams that
/// span the cut, then those of the rest.
proof fn lemma_cut(p: Seq<char>, rs: Seq<Seq<char>>, lines: Seq<Seq<char>>, size: nat)
    requires
        1 <= size < lines.len(),
    ensures
        ({
            let ca = chunk_keys(p, rs, lines.subrange(0, size as int));
            let cb = chunk_keys(p, rs, lines.subrange(size as int, lines.len() as int));
            let w = chunk_keys(p, rs, lines);
            &&& splits_as(w.0, ca.0, cb.0, 2)
            &&& splits_as(w.1, ca.1, cb.1, 4)
        }),
{
    let a = lines.subrange(0, size as int);
    let b = lines.subrange(size as int, lines.len() as int);
    assert(lines.subrange(0, a.len() as int) == a);
    lemma_run_at_end(p, rs, a, lines);
    lemma_run_after_start(p, rs, size, lines, b.len());
    let ca = chunk_run(p, rs, a, a.len());
    let ce = chunk_run(p, rs, lines, size);
    let cb = chunk_run(p, rs, b, b.len());
    let w = chunk_run(p, rs, lines, lines.len());
    assert(size + b.len() == lines.len());
    let m0 = w.0.subrange(ce.0.len() as int, w.0.len() - cb.0.len());
    let m1 = w.1.subrange(ce.1.len() as int, w.1.len() - cb.1.len());
    let e0 = ce.0.subrange(ca.0.len() as int, ce.0.len() as int);
    let e1 = ce.1.subrange(ca.1.len() as int, ce.1.len() as int);
    assert(ce.0 =~= ca.0 + e0);
    assert(ce.1 =~= ca.1 + e1);
    assert(w.0 =~= ca.0 + (e0 + m0) + cb.0);
    assert(w.1 =~= ca.1 + (e1 + m1) + cb.1);
    assert(w.0.subrange(ca.0.len() as int, w.0.len() - cb.0.len()) =~= e0 + m0);
    assert(w.1.subrange(ca.1.len() as int, w.1.len() - cb.1.len()) =~= e1 + m1);
}

proof fn lemma_splits_occurrences(w: Seq<Seq<char>>, a: Seq<Seq<char>>, b: Seq<Seq<char>>, extra: nat, k: Seq<char>)
    requires
        splits_as(w, a, b, extra),
    ensures
        occurrences(a, k) + occurrences(b, k) <= occurrences(w, k),
{
    let mid = w.subrange(a.len() as int, w.len() - b.len());
    lemma_occurrences_concat(a + mid, b, k);
    lemma_occurrences_concat(a, mid, k);
}

/// Cutting the lines into chunks only loses n-grams: no key occurs more
/// often in the sharded keys than in the keys of a single run over all the
/// lines, and each chunk boundary loses at most two bigrams and four
/// trigrams, those that would have spanned it.
pub proof fn lemma_sharding_loses_only_boundary_ngrams(p: Seq<char>, rs: Seq<Seq<char>>, lines: Seq<Seq<char>>, size: nat)
    requires
        size >= 1,
    ensures
        ({
            let sh = sharded_keys(p, rs, lines, size);
            let wh = chunk_keys(p, rs, lines);
            let cuts = (chunk_count(lines.len(), size) - 1) as nat;
            &&& forall|k: Seq<char>| occurrences(sh.0, k) <= #[trigger] occurrences(wh.0, k)
            &&& forall|k: Seq<char>| occurrences(sh.1, k) <= #[trigger] occurrences(wh.1, k)
            &&& sh.0.len() <= wh.0.len() <= sh.0.len() + 2 * cuts
            &&& sh.1.len() <= wh.1.len() <= sh.1.len() + 4 * cuts
        }),
    decreases lines.len(),
{
    if lines.len() > size {
        let a = lines.subrange(0, size as int);
        let b = lines.subrange(size as int, lines.len() as int);
        lemma_sharding_loses_only_boundary_ngrams(p, rs, b, size);
        lemma_cut(p, rs, lines, size);
        let ca = chunk_keys(p, rs, a);
        let cb = chunk_keys(p, rs, b);
        let shb = sharded_keys(p, rs, b, size);
        let wh = chunk_keys(p, rs, lines);
        assert(chunk_count(lines.len(), size) == 1 + chunk_count(b.len(), size));
        assert forall|k: Seq<char>| occurrences(sharded_keys(p, rs, lines, size).0, k) <= #[trigger] occurrences(wh.0, k) by {
            lemma_occurrences_concat(ca.0, shb.0, k);
            lemma_splits_occurrences(wh.0, ca.0, cb.0, 2, k);
        }
        assert forall|k: Seq<char>| occurrences(sharded_keys(p, rs, lines, size).1, k) <= #[trigger] occurrences(wh.1, k) by {
            lemma_occurrences_concat(ca.1, shb.1, k);
            lemma_splits_occurrences(wh.1, ca.1, cb.1, 4, k);
        }
    }
}

proof fn lemma_count_bound(n: nat, size: nat, k: nat)
    requires
        size >= 1,
        k >= 1,
        n <= k * size,
    ensures
        chunk_count(n, size) <= k,
    decreases n,
{
    if n > size {
        assert(k >= 2) by (nonlinear_arith)
            requires n > size, n <= k * size, size >= 1, k >= 1;
        assert((k - 1) * size == k * size - size) by (nonlinear_arith)
            requires k >= 2;
        lemma_count_bound((n - size) as nat, size, (k - 1) as nat);
    }
}

/// With `w` workers the lines are cut into at most `w` chunks.
pub proof fn lemma_chunks_at_most_workers(n: nat, w: nat)
    requires
        w >= 1,
    ensures
        chunk_len(n, w) >= 1,
        chunk_count(n, chunk_len(n, w)) <= w,
{
    let size = chunk_len(n, w);
    if n > 0 {
        assert(n == w * (n / w) + n % w) by (nonlinear_arith)
            requires w >= 1;
        if n % w == 0 {
            assert(n / w >= 1) by (nonlinear_arith)
                requires n > 0, w >= 1, n % w == 0, n == w * (n / w) + n % w;
            assert(n <= w * size);
        } else {
            assert(w * size == w * (n / w) + w) by (nonlinear_arith)
                requires size == n / w + 1;
        }
        lemma_count_bound(n, size, w);
    }
}

/// With `w` workers, sharding loses at most `2 * (w - 1)` bigrams and
/// `4 * (w - 1)` trigrams against a single run, and never adds any.
pub proof fn lemma_worker_count_bound(p: Seq<char>, rs: Seq<Seq<char>>, lines: Seq<Seq<char>>, w: nat)
    requires
        w >= 1,
    ensures
        ({
            let sh = sharded_keys(p, rs, lines, chunk_len(lines.len(), w));
            let wh = chunk_keys(p, rs, lines);
            &&& forall|k: Seq<char>| occurrences(sh.0, k) <= #[trigger] occurrences(wh.0, k)
            &&& forall|k: Seq<char>| occurrences(sh.1, k) <= #[trigger] occurrences(wh.1, k)
            &&& wh.0.len() <= sh.0.len() + 2 * (w - 1)
            &&& wh.1.len() <= sh.1.len() + 4 * (w - 1)
        }),
{
    lemma_chunks_at_most_workers(lines.len(), w);
    lemma_sharding_loses_only_boundary_ngrams(p, rs, lines, chunk_len(lines.len(), w));
}

} // verus!
