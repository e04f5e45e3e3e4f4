use vstd::prelude::*;
use crate::order::{lemma_insert_sorted, lemma_lex_asymmetric, lemma_sorted_distinct, lex_lt, search_sorted, strictly_sorted};
use crate::text::{chars_of, string_of, string_views, views};

verus! {

/// Addition that stops at the largest count a table can hold.
pub open spec fn sat_add(a: nat, b: nat) -> nat {
    if a + b > u64::MAX {
        u64::MAX as nat
    } else {
        a + b
    }
}

/// The count of `k` in `m`, zero where absent.
pub open spec fn count_in(m: Map<Seq<char>, nat>, k: Seq<char>) -> nat {
    if m.contains_key(k) {
        m[k]
    } else {
        0
    }
}

/// The key-wise sum of two tables.
pub open spec fn merged(a: Map<Seq<char>, nat>, b: Map<Seq<char>, nat>) -> Map<Seq<char>, nat> {
    Map::new(
        |k: Seq<char>| a.contains_key(k) || b.contains_key(k),
        |k: Seq<char>| sat_add(count_in(a, k), count_in(b, k)),
    )
}

/// A table from string keys to counts, its keys kept in increasing order.
pub struct FreqTable {
    keys: Vec<Vec<char>>,
    counts: Vec<u64>,
    model: Ghost<Map<Seq<char>, nat>>,
}

impl View for FreqTable {
    type V = Map<Seq<char>, nat>;

    closed spec fn view(&self) -> Map<Seq<char>, nat> {
        self.model@
    }
}

impl FreqTable {
    pub closed spec fn wf(&self) -> bool {
        &&& self.keys@.len() == self.counts@.len()
        &&& strictly_sorted(views(self.keys@))
        &&& forall|i: int|
            0 <= i < self.keys@.len() ==> self.model@.contains_key(#[trigger] self.keys@[i]@)
                && self.model@[self.keys@[i]@] == self.counts@[i] as nat
        &&& forall|k: Seq<char>|
            #[trigger] self.model@.contains_key(k) ==> exists|i: int|
                0 <= i < self.keys@.len() && #[trigger] self.keys@[i]@ == k
    }

    proof fn lemma_distinct(&self)
        requires
            self.wf(),
        ensures
            forall|i: int, j: int|
                0 <= i < j < self.keys@.len() ==> #[trigger] self.keys@[i]@ != #[trigger] self.keys@[j]@,
    {
        lemma_sorted_distinct(views(self.keys@));
        assert forall|i: int, j: int| 0 <= i < j < self.keys@.len() implies #[trigger] self.keys@[i]@
            != #[trigger] self.keys@[j]@ by {
            assert(views(self.keys@)[i] != views(self.keys@)[j]);
        }
    }

    pub proof fn lemma_bounded(&self, k: Seq<char>)
        requires
            self.wf(),
            self@.contains_key(k),
        ensures
            self@[k] <= u64::MAX,
    {
        let i = choose|i: int| 0 <= i < self.keys@.len() && #[trigger] self.keys@[i]@ == k;
        assert(self.model@[self.keys@[i]@] == self.counts@[i] as nat);
    }

    pub fn new() -> (r: FreqTable)
        ensures
            r.wf(),
            r@ == Map::<Seq<char>, nat>::empty(),
    {
        let r = FreqTable { keys: Vec::new(), counts: Vec::new(), model: Ghost(Map::empty()) };
        assert(views(r.keys@) =~= Seq::<Seq<char>>::empty());
        r
    }

    fn find(&self, k: &Vec<char>) -> (r: (bool, usize))
        requires
            self.wf(),
        ensures
            r.1 <= self.keys@.len(),
            forall|j: int| 0 <= j < r.1 ==> lex_lt(#[trigger] self.keys@[j]@, k@),
            r.0 ==> r.1 < self.keys@.len() && self.keys@[r.1 as int]@ == k@,
            !r.0 ==> forall|j: int| r.1 <= j < self.keys@.len() ==> lex_lt(k@, #[trigger] self.keys@[j]@),
            !r.0 ==> !self@.contains_key(k@),
    {
        let r = search_sorted(&self.keys, k);
        if !r.0 {
            assert forall|j: int| 0 <= j < self.keys@.len() implies #[trigger] self.keys@[j]@ != k@ by {
                if j < r.1 {
                    lemma_lex_asymmetric(self.keys@[j]@, k@);
                } else {
                    lemma_lex_asymmetric(k@, self.keys@[j]@);
                }
            }
        }
        r
    }

    /// The count of `k`, if present.
    pub fn get(&self, k: &String) -> (r: Option<u64>)
        requires
            self.wf(),
        ensures
            match r {
                Some(c) => self@.contains_key(k@) && self@[k@] == c as nat,
                None => !self@.contains_key(k@),
            },
    {
        let kc = chars_of(k.as_str());
        let (found, i) = self.find(&kc);
        if found {
            Some(self.counts[i])
        } else {
            None
        }
    }

    fn add_chars(&mut self, k: Vec<char>, v: u64)
        requires
            old(self).wf(),
        ensures
            final(self).wf(),
            final(self)@ == old(self)@.insert(k@, sat_add(count_in(old(self)@, k@), v as nat)),
    {
        let (found, i) = self.find(&k);
        let ghost kv = k@;
        if found {
            let c = self.counts[i];
            let n: u64 = if c > u64::MAX - v { u64::MAX } else { c + v };
            self.counts.set(i, n);
            self.model = Ghost(self.model@.insert(kv, n as nat));
            proof {
                old(self).lemma_distinct();
            }
            assert forall|k2: Seq<char>| #[trigger] self.model@.contains_key(k2) implies exists|j: int|
                0 <= j < self.keys@.len() && #[trigger] self.keys@[j]@ == k2 by {
                if k2 == kv {
                    assert(self.keys@[i as int]@ == k2);
                } else {
                    let j = choose|j: int| 0 <= j < old(self).keys@.len() && #[trigger] old(self).keys@[j]@ == k2;
                    assert(self.keys@[j]@ == k2);
                }
            }
        } else {
            let ghost old_keys = self.keys@;
            let ghost old_counts = self.counts@;
            proof {
                lemma_insert_sorted(views(old_keys), i as int, kv);
            }
            self.keys.insert(i, k);
            self.counts.insert(i, v);
            self.model = Ghost(self.model@.insert(kv, v as nat));
            assert(views(self.keys@) =~= views(old_keys).insert(i as int, kv));
            assert forall|j: int| 0 <= j < self.keys@.len() implies self.model@.contains_key(#[trigger] self.keys@[j]@)
                && self.model@[self.keys@[j]@] == self.counts@[j] as nat by {
                if j < i {
                    assert(self.keys@[j] == old_keys[j]);
                    assert(self.counts@[j] == old_counts[j]);
                    assert(old_keys[j]@ != kv);
                } else if j > i {
                    assert(self.keys@[j] == old_keys[j - 1]);
                    assert(self.counts@[j] == old_counts[j - 1]);
                    assert(old_keys[j - 1]@ != kv);
                }
            }
            assert forall|k2: Seq<char>| #[trigger] self.model@.contains_key(k2) implies exists|j: int|
                0 <= j < self.keys@.len() && #[trigger] self.keys@[j]@ == k2 by {
                if k2 == kv {
                    assert(self.keys@[i as int]@ == k2);
                } else {
                    let j = choose|j: int| 0 <= j < old_keys.len() && #[trigger] old_keys[j]@ == k2;
                    if j < i {
                        assert(self.keys@[j]@ == k2);
                    } else {
                        assert(self.keys@[j + 1]@ == k2);
                    }
                }
            }
        }
    }

    /// Adds `v` to the count of `k` (stopping at the largest count).
    pub fn add(&mut self, k: String, v: u64)
        requires
            old(self).wf(),
        ensures
            final(self).wf(),
            final(self)@ == old(self)@.insert(k@, sat_add(count_in(old(self)@, k@), v as nat)),
    {
        let kc = chars_of(k.as_str());
        self.add_chars(kc, v);
    }

    /// Adds one to the count of `k` (stopping at the largest count).
    pub fn increment(&mut self, k: String)
        requires
            old(self).wf(),
        ensures
            final(self).wf(),
            final(self)@ == old(self)@.insert(k@, sat_add(count_in(old(self)@, k@), 1)),
    {
        self.add(k, 1);
    }

    closed spec fn prefix(&self, n: int) -> Map<Seq<char>, nat> {
        Map::new(
            |k: Seq<char>| exists|j: int| 0 <= j < n && #[trigger] self.keys@[j]@ == k,
            |k: Seq<char>| self.model@[k],
        )
    }

    /// Adds every count of `other` to this table.
    pub fn merge(&mut self, other: &FreqTable)
        requires
            old(self).wf(),
            other.wf(),
        ensures
            final(self).wf(),
            final(self)@ == merged(old(self)@, other@),
    {
        let ghost start = self@;
        let mut i: usize = 0;
        proof {
            other.lemma_distinct();
        }
        assert(merged(start, other.prefix(0)) =~= start) by {
            assert forall|k: Seq<char>| start.contains_key(k) implies start[k] <= u64::MAX by {
                old(self).lemma_bounded(k);
            }
        }
        while i < other.keys.len()
            invariant
                self.wf(),
                other.wf(),
                forall|a: int, b: int|
                    0 <= a < b < other.keys@.len() ==> #[trigger] other.keys@[a]@ != #[trigger] other.keys@[b]@,
                i <= other.keys@.len(),
                forall|k: Seq<char>| start.contains_key(k) ==> #[trigger] start[k] <= u64::MAX,
                self@ == merged(start, other.prefix(i as int)),
            decreases other.keys@.len() - i,
        {
            let ghost kv = other.keys@[i as int]@;
            let c = other.keys[i].clone();
            assert(c@ == kv);
            self.add_chars(c, other.counts[i]);
            assert(!other.prefix(i as int).contains_key(kv));
            assert(other.prefix(i + 1) =~= other.prefix(i as int).insert(kv, other.counts@[i as int] as nat)) by {
                assert forall|k: Seq<char>| #[trigger] other.prefix(i + 1).contains_key(k) implies
                    other.prefix(i as int).insert(kv, other.counts@[i as int] as nat).contains_key(k) by {
                    let j = choose|j: int| 0 <= j < i + 1 && #[trigger] other.keys@[j]@ == k;
                    if j < i {
                        assert(other.prefix(i as int).contains_key(k));
                    }
                }
                assert(other.prefix(i + 1).contains_key(kv));
            }
            assert(self@ =~= merged(start, other.prefix(i + 1)));
            i += 1;
        }
        assert(other.prefix(i as int) =~= other@);
    }

    /// The entries of the table, each key once, in increasing key order.
    pub fn entries(&self) -> (r: Vec<(String, u64)>)
        requires
            self.wf(),
        ensures
            forall|i: int| 0 <= i < r@.len() ==> self@.contains_key(#[trigger] r@[i].0@)
                && self@[r@[i].0@] == r@[i].1 as nat,
            forall|k: Seq<char>| #[trigger] self@.contains_key(k) ==> exists|i: int|
                0 <= i < r@.len() && #[trigger] r@[i].0@ == k,
            forall|i: int, j: int| 0 <= i < j < r@.len() ==> #[trigger] r@[i].0@ != #[trigger] r@[j].0@,
    {
        proof {
            self.lemma_distinct();
        }
        let mut r: Vec<(String, u64)> = Vec::new();
        let mut i: usize = 0;
        while i < self.keys.len()
            invariant
                self.wf(),
                i <= self.keys@.len(),
                r@.len() == i,
                forall|j: int| 0 <= j < i ==> (#[trigger] r@[j]).0@ == self.keys@[j]@ && r@[j].1 == self.counts@[j],
            decreases self.keys@.len() - i,
        {
            r.push((string_of(self.keys[i].as_slice()), self.counts[i]));
            i += 1;
        }
        assert forall|k: Seq<char>| #[trigger] self@.contains_key(k) implies exists|j: int|
            0 <= j < r@.len() && #[trigger] r@[j].0@ == k by {
            let j = choose|j: int| 0 <= j < self.keys@.len() && #[trigger] self.keys@[j]@ == k;
            assert(r@[j].0@ == k);
        }
        assert forall|a: int, b: int| 0 <= a < b < r@.len() implies #[trigger] r@[a].0@ != #[trigger] r@[b].0@ by {
            assert(self.keys@[a]@ != self.keys@[b]@);
        }
        r
    }
}

/// A set of tokens, kept in increasing order.
pub struct TokenSet {
    items: Vec<Vec<char>>,
}

impl View for TokenSet {
    type V = Set<Seq<char>>;

    closed spec fn view(&self) -> Set<Seq<char>> {
        views(self.items@).to_set()
    }
}

impl TokenSet {
    pub closed spec fn wf(&self) -> bool {
        strictly_sorted(views(self.items@))
    }

    pub fn new() -> (r: TokenSet)
        ensures
            r.wf(),
            r@ == Set::<Seq<char>>::empty(),
    {
        let r = TokenSet { items: Vec::new() };
        assert(r@ =~= Set::<Seq<char>>::empty());
        r
    }

    /// Adds `t` to the set.
    pub fn insert(&mut self, t: Vec<char>)
        requires
            old(self).wf(),
        ensures
            final(self).wf(),
            final(self)@ == old(self)@.insert(t@),
    {
        let ghost old_v = views(self.items@);
        let (found, i) = search_sorted(&self.items, &t);
        if found {
            assert(self@ =~= old(self)@.insert(t@)) by {
                assert(old_v[i as int] == t@);
            }
            return;
        }
        let ghost tv = t@;
        proof {
            lemma_insert_sorted(old_v, i as int, tv);
        }
        self.items.insert(i, t);
        let ghost new_v = views(self.items@);
        assert(new_v =~= old_v.insert(i as int, tv));
        assert(self@ =~= old(self)@.insert(tv)) by {
            assert(new_v[i as int] == tv);
            assert forall|x: Seq<char>| #[trigger] old_v.contains(x) implies new_v.contains(x) by {
                let j = choose|j: int| 0 <= j < old_v.len() && old_v[j] == x;
                if j < i {
                    assert(new_v[j] == x);
                } else {
                    assert(new_v[j + 1] == x);
                }
            }
        }
    }

    /// Adds every token of `other`.
    pub fn merge(&mut self, other: &TokenSet)
        requires
            old(self).wf(),
        ensures
            final(self).wf(),
            final(self)@ == old(self)@.union(other@),
    {
        let mut i: usize = 0;
        while i < other.items.len()
            invariant
                self.wf(),
                i <= other.items@.len(),
                self@ == old(self)@.union(views(other.items@).subrange(0, i as int).to_set()),
            decreases other.items@.len() - i,
        {
            let ghost before = self@;
            let c = other.items[i].clone();
            assert(c@ == other.items@[i as int]@);
            self.insert(c);
            let ghost pre = views(other.items@).subrange(0, i as int);
            let ghost post = views(other.items@).subrange(0, i + 1);
            assert(post =~= pre.push(c@));
            assert(post.to_set() =~= pre.to_set().insert(c@)) by {
                assert forall|x: Seq<char>| #[trigger] post.contains(x) implies pre.contains(x) || x == c@ by {
                    let j = choose|j: int| 0 <= j < post.len() && post[j] == x;
                    if j < i {
                        assert(pre[j] == x);
                    }
                }
                assert forall|x: Seq<char>| #[trigger] pre.contains(x) implies post.contains(x) by {
                    let j = choose|j: int| 0 <= j < pre.len() && pre[j] == x;
                    assert(post[j] == x);
                }
                assert(post[i as int] == c@);
            }
            assert(self@ =~= old(self)@.union(post.to_set()));
            i += 1;
        }
        assert(views(other.items@).subrange(0, i as int) =~= views(other.items@));
    }

    /// The tokens in increasing order.
    pub fn to_sorted_vec(&self) -> (r: Vec<String>)
        requires
            self.wf(),
        ensures
            strictly_sorted(string_views(r@)),
            string_views(r@).to_set() == self@,
    {
        let mut r: Vec<String> = Vec::new();
        let mut i: usize = 0;
        while i < self.items.len()
            invariant
                i <= self.items@.len(),
                string_views(r@) == views(self.items@).subrange(0, i as int),
            decreases self.items@.len() - i,
        {
            let ghost before = r@;
            let s = string_of(self.items[i].as_slice());
            r.push(s);
            assert(string_views(r@) =~= string_views(before).push(s@));
            assert(views(self.items@).subrange(0, i + 1) =~= views(self.items@).subrange(0, i as int).push(self.items@[i as int]@));
            i += 1;
        }
        assert(views(self.items@).subrange(0, i as int) =~= views(self.items@));
        r
    }
}

} // verus!
