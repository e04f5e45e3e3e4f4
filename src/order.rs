use vstd::prelude::*;
use crate::text::views;

verus! {

/// Lexicographic order on character sequences by code point, the order of
/// `str` comparison in Rust.
pub open spec fn lex_lt(a: Seq<char>, b: Seq<char>) -> bool
    decreases a.len(),
{
    if a.len() == 0 {
        b.len() > 0
    } else if b.len() == 0 {
        false
    } else if a[0] != b[0] {
        a[0] < b[0]
    } else {
        lex_lt(a.drop_first(), b.drop_first())
    }
}

/// Strictly increasing, hence free of duplicates.
pub open spec fn strictly_sorted(s: Seq<Seq<char>>) -> bool {
    forall|i: int, j: int| 0 <= i < j < s.len() ==> lex_lt(#[trigger] s[i], #[trigger] s[j])
}

pub proof fn lemma_lex_total(a: Seq<char>, b: Seq<char>)
    ensures
        a == b || lex_lt(a, b) || lex_lt(b, a),
    decreases a.len(),
{
    if a.len() > 0 && b.len() > 0 && a[0] == b[0] {
        lemma_lex_total(a.drop_first(), b.drop_first());
        if a.drop_first() == b.drop_first() {
            assert(a =~= seq![a[0]] + a.drop_first());
            assert(b =~= seq![b[0]] + b.drop_first());
        }
    } else if a.len() == 0 && b.len() == 0 {
        assert(a =~= b);
    }
}

pub proof fn lemma_lex_asymmetric(a: Seq<char>, b: Seq<char>)
    ensures
        !(lex_lt(a, b) && lex_lt(b, a)),
    decreases a.len(),
{
    if a.len() > 0 && b.len() > 0 && a[0] == b[0] {
        lemma_lex_asymmetric(a.drop_first(), b.drop_first());
    }
}

pub proof fn lemma_lex_transitive(a: Seq<char>, b: Seq<char>, c: Seq<char>)
    requires
        lex_lt(a, b),
        lex_lt(b, c),
    ensures
        lex_lt(a, c),
    decreases a.len(),
{
    if a.len() > 0 && b.len() > 0 && c.len() > 0 && a[0] == b[0] && b[0] == c[0] {
        lemma_lex_transitive(a.drop_first(), b.drop_first(), c.drop_first());
    }
}

/// Whether `a` comes strictly before `b`.
pub fn lex_less(a: &Vec<char>, b: &Vec<char>) -> (r: bool)
    ensures
        r == lex_lt(a@, b@),
{
    let mut i: usize = 0;
    assert(a@.skip(0) =~= a@);
    assert(b@.skip(0) =~= b@);
    while i < a.len() && i < b.len() && a[i] == b[i]
        invariant
            i <= a@.len(),
            i <= b@.len(),
            lex_lt(a@, b@) == lex_lt(a@.skip(i as int), b@.skip(i as int)),
        decreases a@.len() - i,
    {
        assert(a@.skip(i as int).drop_first() =~= a@.skip(i + 1));
        assert(b@.skip(i as int).drop_first() =~= b@.skip(i + 1));
        i += 1;
    }
    if i == a.len() {
        i < b.len()
    } else if i == b.len() {
        false
    } else {
        a[i] < b[i]
    }
}

pub proof fn lemma_sorted_distinct(s: Seq<Seq<char>>)
    requires
        strictly_sorted(s),
    ensures
        forall|i: int, j: int| 0 <= i < j < s.len() ==> #[trigger] s[i] != #[trigger] s[j],
{
    assert forall|i: int, j: int| 0 <= i < j < s.len() implies #[trigger] s[i] != #[trigger] s[j] by {
        lemma_lex_asymmetric(s[i], s[j]);
    }
}

/// Putting `t` at `i` keeps a sequence strictly increasing when everything
/// before `i` is below `t` and everything from `i` on is above it.
pub proof fn lemma_insert_sorted(s: Seq<Seq<char>>, i: int, t: Seq<char>)
    requires
        strictly_sorted(s),
        0 <= i <= s.len(),
        forall|j: int| 0 <= j < i ==> lex_lt(#[trigger] s[j], t),
        forall|j: int| i <= j < s.len() ==> lex_lt(t, #[trigger] s[j]),
    ensures
        strictly_sorted(s.insert(i, t)),
{
    let n = s.insert(i, t);
    assert forall|a: int, b: int| 0 <= a < b < n.len() implies lex_lt(#[trigger] n[a], #[trigger] n[b]) by {
        if b < i {
        } else if b == i {
        } else if a < i {
            assert(n[b] == s[b - 1]);
            lemma_lex_transitive(n[a], t, n[b]);
        } else if a == i {
            assert(n[b] == s[b - 1]);
        } else {
            assert(n[a] == s[a - 1]);
            assert(n[b] == s[b - 1]);
        }
    }
}

/// Binary search in a strictly increasing sequence: whether `t` is there,
/// and the index of the first element not below it.
pub fn search_sorted(items: &Vec<Vec<char>>, t: &Vec<char>) -> (r: (bool, usize))
    requires
        strictly_sorted(views(items@)),
    ensures
        r.1 <= items@.len(),
        forall|j: int| 0 <= j < r.1 ==> lex_lt(#[trigger] items@[j]@, t@),
        r.0 ==> r.1 < items@.len() && items@[r.1 as int]@ == t@,
        !r.0 ==> forall|j: int| r.1 <= j < items@.len() ==> lex_lt(t@, #[trigger] items@[j]@),
{
    let ghost v = views(items@);
    let mut lo: usize = 0;
    let mut hi: usize = items.len();
    while lo < hi
        invariant
            v == views(items@),
            strictly_sorted(v),
            lo <= hi <= items@.len(),
            forall|j: int| 0 <= j < lo ==> lex_lt(#[trigger] items@[j]@, t@),
            forall|j: int| hi <= j < items@.len() ==> !lex_lt(#[trigger] items@[j]@, t@),
        decreases hi - lo,
    {
        let mid = lo + (hi - lo) / 2;
        if lex_less(&items[mid], t) {
            assert forall|j: int| 0 <= j < mid + 1 implies lex_lt(#[trigger] items@[j]@, t@) by {
                if j < mid {
                    assert(lex_lt(v[j], v[mid as int]));
                    lemma_lex_transitive(items@[j]@, items@[mid as int]@, t@);
                }
            }
            lo = mid + 1;
        } else {
            assert forall|j: int| mid <= j < items@.len() implies !lex_lt(#[trigger] items@[j]@, t@) by {
                if j > mid && lex_lt(items@[j]@, t@) {
                    assert(lex_lt(v[mid as int], v[j]));
                    lemma_lex_transitive(items@[mid as int]@, items@[j]@, t@);
                }
            }
            hi = mid;
        }
    }
    if lo < items.len() && !lex_less(t, &items[lo]) {
        proof {
            lemma_lex_total(items@[lo as int]@, t@);
        }
        (true, lo)
    } else {
        assert forall|j: int| lo <= j < items@.len() implies lex_lt(t@, #[trigger] items@[j]@) by {
            lemma_lex_total(items@[lo as int]@, t@);
            if j > lo {
                assert(lex_lt(v[lo as int], v[j]));
                lemma_lex_transitive(t@, items@[lo as int]@, items@[j]@);
            }
        }
        (false, lo)
    }
}

} // verus!
