use vstd::prelude::*;
use std::collections::HashMap;
use crate::tables::FreqTable;

verus! {

broadcast use vstd::std_specs::hash::group_hash_axioms;

/// Strictly increasing.
pub open spec fn increasing(s: Seq<u64>) -> bool {
    forall|i: int, j: int| 0 <= i < j < s.len() ==> s[i] < s[j]
}

/// `v` is the count of some key of `m`.
pub open spec fn is_count_of(m: Map<Seq<char>, nat>, v: u64) -> bool {
    exists|k: Seq<char>| #[trigger] m.contains_key(k) && m[k] == v as nat
}

/// The reverse index of a table: `counts` holds each count that occurs
/// once, in increasing order; `buckets` maps each such count to the keys
/// that have it, each key exactly once.
pub open spec fn is_reverse_index(m: Map<Seq<char>, nat>, counts: Seq<u64>, buckets: Map<u64, Vec<String>>) -> bool {
    &&& increasing(counts)
    &&& forall|v: u64| #[trigger] counts.contains(v) <==> is_count_of(m, v)
    &&& forall|v: u64| #[trigger] buckets.contains_key(v) <==> is_count_of(m, v)
    &&& forall|v: u64, i: int| #[trigger] buckets.contains_key(v) && 0 <= i < buckets[v]@.len()
        ==> m.contains_key(#[trigger] buckets[v]@[i]@) && m[buckets[v]@[i]@] == v as nat
    &&& forall|v: u64, i: int, j: int| #[trigger] buckets.contains_key(v) && 0 <= i < j < buckets[v]@.len()
        ==> #[trigger] buckets[v]@[i]@ != #[trigger] buckets[v]@[j]@
    &&& forall|k: Seq<char>| #[trigger] m.contains_key(k) ==> buckets.contains_key(m[k] as u64)
        && exists|i: int| 0 <= i < buckets[m[k] as u64]@.len() && #[trigger] buckets[m[k] as u64]@[i]@ == k
}

fn insert_sorted(counts: &mut Vec<u64>, v: u64)
    requires
        increasing(old(counts)@),
        !old(counts)@.contains(v),
    ensures
        increasing(final(counts)@),
        forall|x: u64| #[trigger] final(counts)@.contains(x) <==> old(counts)@.contains(x) || x == v,
{
    let mut i: usize = 0;
    while i < counts.len() && counts[i] < v
        invariant
            i <= counts@.len(),
            counts@ == old(counts)@,
            forall|j: int| 0 <= j < i ==> counts@[j] < v,
        decreases counts@.len() - i,
    {
        i += 1;
    }
    if i < counts.len() {
        assert(counts@[i as int] != v);
    }
    counts.insert(i, v);
    assert forall|x: u64| #[trigger] counts@.contains(x) implies old(counts)@.contains(x) || x == v by {
        let j = choose|j: int| 0 <= j < counts@.len() && counts@[j] == x;
        if j < i {
            assert(old(counts)@[j] == x);
        } else if j > i {
            assert(old(counts)@[j - 1] == x);
        }
    }
    assert forall|x: u64| old(counts)@.contains(x) || x == v implies #[trigger] counts@.contains(x) by {
        if x == v {
            assert(counts@[i as int] == v);
        } else {
            let j = choose|j: int| 0 <= j < old(counts)@.len() && old(counts)@[j] == x;
            if j < i {
                assert(counts@[j] == x);
            } else {
                assert(counts@[j + 1] == x);
            }
        }
    }
}

/// Inverts a table: the counts that occur, in increasing order, and for
/// each of them the keys that have that count.
#[verifier::rlimit(50)]
pub fn reverse_dict(d: &FreqTable) -> (r: (Vec<u64>, HashMap<u64, Vec<String>>))
    requires
        d.wf(),
    ensures
        is_reverse_index(d@, r.0@, r.1@),
{
    let es = d.entries();
    let mut counts: Vec<u64> = Vec::new();
    let mut buckets: HashMap<u64, Vec<String>> = HashMap::new();
    let mut i: usize = 0;
    while i < es.len()
        invariant
            i <= es@.len(),
            forall|a: int| 0 <= a < es@.len() ==> d@.contains_key(#[trigger] es@[a].0@)
                && d@[es@[a].0@] == es@[a].1 as nat,
            forall|k: Seq<char>| #[trigger] d@.contains_key(k) ==> exists|a: int|
                0 <= a < es@.len() && #[trigger] es@[a].0@ == k,
            forall|a: int, b: int| 0 <= a < b < es@.len() ==> #[trigger] es@[a].0@ != #[trigger] es@[b].0@,
            increasing(counts@),
            forall|v: u64| #[trigger] counts@.contains(v) <==> buckets@.contains_key(v),
            forall|v: u64| #[trigger] buckets@.contains_key(v) ==> exists|a: int| 0 <= a < i && #[trigger] es@[a].1 == v,
            forall|v: u64, j: int| #![trigger buckets@[v]@[j]] buckets@.contains_key(v) && 0 <= j < buckets@[v]@.len()
                ==> exists|a: int| 0 <= a < i && #[trigger] es@[a].0@ == buckets@[v]@[j]@ && es@[a].1 == v,
            forall|v: u64, j1: int, j2: int| #[trigger] buckets@.contains_key(v) && 0 <= j1 < j2 < buckets@[v]@.len()
                ==> #[trigger] buckets@[v]@[j1]@ != #[trigger] buckets@[v]@[j2]@,
            forall|a: int| 0 <= a < i ==> buckets@.contains_key(#[trigger] es@[a].1)
                && exists|j: int| 0 <= j < buckets@[es@[a].1]@.len() && #[trigger] buckets@[es@[a].1]@[j]@ == es@[a].0@,
        decreases es@.len() - i,
    {
        let key = es[i].0.clone();
        let val = es[i].1;
        let ghost old_b = buckets@;
        let mut bucket = match buckets.remove(&val) {
            Some(b) => b,
            None => {
                insert_sorted(&mut counts, val);
                Vec::new()
            },
        };
        let ghost old_bucket = bucket@;
        bucket.push(key);
        buckets.insert(val, bucket);
        proof {
            assert(buckets@ =~= old_b.insert(val, bucket));
            assert forall|v: u64, j: int| #![trigger buckets@[v]@[j]] buckets@.contains_key(v) && 0 <= j < buckets@[v]@.len()
                implies exists|a: int| 0 <= a < i + 1 && #[trigger] es@[a].0@ == buckets@[v]@[j]@ && es@[a].1 == v by {
                if v == val && j == old_bucket.len() {
                    assert(es@[i as int].0@ == buckets@[v]@[j]@);
                } else if v == val {
                    assert(buckets@[v]@[j] == old_b[v]@[j]);
                }
            }
            assert forall|v: u64, j1: int, j2: int| #[trigger] buckets@.contains_key(v) && 0 <= j1 < j2 < buckets@[v]@.len()
                implies #[trigger] buckets@[v]@[j1]@ != #[trigger] buckets@[v]@[j2]@ by {
                if v == val && j2 == old_bucket.len() {
                    assert(old_b.contains_key(v));
                    assert(buckets@[v]@[j1] == old_b[v]@[j1]);
                    let a = choose|a: int| 0 <= a < i && #[trigger] es@[a].0@ == old_b[v]@[j1]@ && es@[a].1 == v;
                    assert(es@[a].0@ != es@[i as int].0@);
                }
            }
            assert forall|a: int| 0 <= a < i + 1 implies buckets@.contains_key(#[trigger] es@[a].1)
                && exists|j: int| 0 <= j < buckets@[es@[a].1]@.len() && #[trigger] buckets@[es@[a].1]@[j]@ == es@[a].0@ by {
                if a == i {
                    assert(buckets@[val]@[old_bucket.len() as int]@ == es@[a].0@);
                } else if es@[a].1 == val {
                    let j = choose|j: int| 0 <= j < old_b[es@[a].1]@.len() && #[trigger] old_b[es@[a].1]@[j]@ == es@[a].0@;
                    assert(buckets@[val]@[j] == old_b[val]@[j]);
                } else {
                    assert(buckets@[es@[a].1] == old_b[es@[a].1]);
                    let j = choose|j: int| 0 <= j < old_b[es@[a].1]@.len() && #[trigger] old_b[es@[a].1]@[j]@ == es@[a].0@;
                    assert(buckets@[es@[a].1]@[j]@ == es@[a].0@);
                }
            }
            assert forall|v: u64| #[trigger] buckets@.contains_key(v) implies exists|a: int| 0 <= a < i + 1 && #[trigger] es@[a].1 == v by {
                if v == val {
                    assert(es@[i as int].1 == v);
                }
            }
        }
        i += 1;
    }
    proof {
        assert forall|v: u64| #[trigger] buckets@.contains_key(v) implies is_count_of(d@, v) by {
            let a = choose|a: int| 0 <= a < i && #[trigger] es@[a].1 == v;
            assert(d@.contains_key(es@[a].0@));
        }
        assert forall|v: u64| is_count_of(d@, v) implies #[trigger] buckets@.contains_key(v) by {
            let k = choose|k: Seq<char>| #[trigger] d@.contains_key(k) && d@[k] == v as nat;
            let a = choose|a: int| 0 <= a < es@.len() && #[trigger] es@[a].0@ == k;
            assert(buckets@.contains_key(es@[a].1));
        }
        assert forall|k: Seq<char>| #[trigger] d@.contains_key(k) implies buckets@.contains_key(d@[k] as u64)
            && exists|j: int| 0 <= j < buckets@[d@[k] as u64]@.len() && #[trigger] buckets@[d@[k] as u64]@[j]@ == k by {
            let a = choose|a: int| 0 <= a < es@.len() && #[trigger] es@[a].0@ == k;
            assert(buckets@.contains_key(es@[a].1));
        }
        assert forall|v: u64, j: int| #[trigger] buckets@.contains_key(v) && 0 <= j < buckets@[v]@.len()
            implies d@.contains_key(#[trigger] buckets@[v]@[j]@) && d@[buckets@[v]@[j]@] == v as nat by {
            let a = choose|a: int| 0 <= a < i && #[trigger] es@[a].0@ == buckets@[v]@[j]@ && es@[a].1 == v;
        }
    }
    (counts, buckets)
}

/// Reading a reverse index back gives the table again: a key has count `v`
/// exactly when `v` is among the counts and the key is in the bucket of
/// `v`, where it stands once.
pub proof fn lemma_reverse_index_round_trip(
    m: Map<Seq<char>, nat>,
    counts: Seq<u64>,
    buckets: Map<u64, Vec<String>>,
    k: Seq<char>,
    v: u64,
)
    requires
        is_reverse_index(m, counts, buckets),
    ensures
        (m.contains_key(k) && m[k] == v as nat) <==> (counts.contains(v) && buckets.contains_key(v) && exists|i: int|
            0 <= i < buckets[v]@.len() && #[trigger] buckets[v]@[i]@ == k),
        buckets.contains_key(v) ==> forall|i: int, j: int|
            0 <= i < j < buckets[v]@.len() ==> #[trigger] buckets[v]@[i]@ != #[trigger] buckets[v]@[j]@,
{
    if m.contains_key(k) && m[k] == v as nat {
        assert(is_count_of(m, v));
        assert(m[k] as u64 == v);
    }
    if counts.contains(v) && buckets.contains_key(v) && exists|i: int| 0 <= i < buckets[v]@.len() && #[trigger] buckets[v]@[i]@ == k {
        let i = choose|i: int| 0 <= i < buckets[v]@.len() && #[trigger] buckets[v]@[i]@ == k;
        assert(m.contains_key(buckets[v]@[i]@));
    }
}

} // verus!
