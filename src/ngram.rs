use vstd::prelude::*;
use crate::extract::{line_token_chars, line_tokens};
use crate::pattern::{opt_view, sources, Pattern};
use crate::tables::{count_in, sat_add, FreqTable, TokenSet};
use crate::text::{chars_of, string_of, views};

verus! {

/// The bigram key `a^b`.
pub open spec fn join2(a: Seq<char>, b: Seq<char>) -> Seq<char> {
    a + seq!['^'] + b
}

/// The trigram key `a^b^c`.
pub open spec fn join3(a: Seq<char>, b: Seq<char>, c: Seq<char>) -> Seq<char> {
    a + seq!['^'] + b + seq!['^'] + c
}

/// The keys of all windows of two adjacent tokens of `s`, in order.
pub open spec fn bigram_keys(s: Seq<Seq<char>>) -> Seq<Seq<char>> {
    Seq::new(if s.len() >= 1 { (s.len() - 1) as nat } else { 0 }, |i: int| join2(s[i], s[i + 1]))
}

/// The keys of all windows of three adjacent tokens of `s`, in order.
pub open spec fn trigram_keys(s: Seq<Seq<char>>) -> Seq<Seq<char>> {
    Seq::new(if s.len() >= 2 { (s.len() - 2) as nat } else { 0 }, |i: int| join3(s[i], s[i + 1], s[i + 2]))
}

pub open spec fn opt_seq(o: Option<Seq<char>>) -> Seq<Seq<char>> {
    match o {
        Some(x) => seq![x],
        None => Seq::empty(),
    }
}

pub open spec fn nth_opt(l: Seq<Seq<char>>, n: int) -> Option<Seq<char>> {
    if 0 <= n < l.len() {
        Some(l[n])
    } else {
        None
    }
}

/// The bigram window of a line: the carried token, the line's tokens, and
/// the first token of the next line.
pub open spec fn bigram_window(prev1: Option<Seq<char>>, t: Seq<Seq<char>>, next: Seq<Seq<char>>) -> Seq<Seq<char>> {
    opt_seq(prev1) + t + opt_seq(nth_opt(next, 0))
}

/// The trigram window of a line: the bigram window with one more carried
/// token in front and the second token of the next line behind.
pub open spec fn trigram_window(
    prev1: Option<Seq<char>>,
    prev2: Option<Seq<char>>,
    t: Seq<Seq<char>>,
    next: Seq<Seq<char>>,
) -> Seq<Seq<char>> {
    opt_seq(prev2) + bigram_window(prev1, t, next) + opt_seq(nth_opt(next, 1))
}

/// `m` after one increment for each key of `ks`, in order.
pub open spec fn add_keys(m: Map<Seq<char>, nat>, ks: Seq<Seq<char>>) -> Map<Seq<char>, nat>
    decreases ks.len(),
{
    if ks.len() == 0 {
        m
    } else {
        let prev = add_keys(m, ks.drop_last());
        prev.insert(ks.last(), sat_add(count_in(prev, ks.last()), 1))
    }
}

/// The table that counts the keys of `ks`.
pub open spec fn tally(ks: Seq<Seq<char>>) -> Map<Seq<char>, nat> {
    add_keys(Map::empty(), ks)
}

/// Number of occurrences of `k` in `ks`.
pub open spec fn occurrences(ks: Seq<Seq<char>>, k: Seq<char>) -> nat
    decreases ks.len(),
{
    if ks.len() == 0 {
        0
    } else {
        occurrences(ks.drop_last(), k) + if ks.last() == k { 1nat } else { 0nat }
    }
}

/// The tokens of a lookahead line; none where there is no such line.
pub open spec fn lookahead_tokens(p: Seq<char>, rs: Seq<Seq<char>>, l: Option<Seq<char>>) -> Seq<Seq<char>> {
    match l {
        Some(x) => line_tokens(p, rs, x),
        None => Seq::empty(),
    }
}

/// The carry a line with tokens `t` hands to the next one.
pub open spec fn carry_after(t: Seq<Seq<char>>) -> (Option<Seq<char>>, Option<Seq<char>>) {
    if t.len() == 0 {
        (None, None)
    } else {
        (Some(t.last()), nth_opt(t, t.len() - 2))
    }
}

fn join_two(a: &Vec<char>, b: &Vec<char>) -> (r: String)
    ensures
        r@ == join2(a@, b@),
{
    let mut v = a.clone();
    v.push('^');
    let mut i: usize = 0;
    while i < b.len()
        invariant
            i <= b@.len(),
            v@ == a@ + seq!['^'] + b@.subrange(0, i as int),
        decreases b@.len() - i,
    {
        v.push(b[i]);
        assert(b@.subrange(0, i + 1) =~= b@.subrange(0, i as int).push(b@[i as int]));
        i += 1;
    }
    assert(b@.subrange(0, b@.len() as int) =~= b@);
    string_of(v.as_slice())
}

fn join_three(a: &Vec<char>, b: &Vec<char>, c: &Vec<char>) -> (r: String)
    ensures
        r@ == join3(a@, b@, c@),
{
    let ab = join_two(a, b);
    let abv = chars_of(ab.as_str());
    let r = join_two(&abv, c);
    assert(r@ =~= join3(a@, b@, c@));
    r
}

fn increment_windows2(t: &mut FreqTable, w: &Vec<Vec<char>>)
    requires
        old(t).wf(),
    ensures
        final(t).wf(),
        final(t)@ == add_keys(old(t)@, bigram_keys(views(w@))),
{
    let ghost ks = bigram_keys(views(w@));
    if w.len() < 2 {
        assert(ks.subrange(0, 0) =~= ks);
        return;
    }
    let mut i: usize = 0;
    while i < w.len() - 1
        invariant
            t.wf(),
            w@.len() >= 2,
            i + 1 <= w@.len(),
            ks == bigram_keys(views(w@)),
            t@ == add_keys(old(t)@, ks.subrange(0, i as int)),
        decreases w@.len() - i,
    {
        let key = join_two(&w[i], &w[i + 1]);
        assert(key@ == ks[i as int]);
        t.increment(key);
        assert(ks.subrange(0, i + 1).drop_last() =~= ks.subrange(0, i as int));
        i += 1;
    }
    assert(ks.subrange(0, i as int) =~= ks);
}

fn increment_windows3(t: &mut FreqTable, w: &Vec<Vec<char>>)
    requires
        old(t).wf(),
    ensures
        final(t).wf(),
        final(t)@ == add_keys(old(t)@, trigram_keys(views(w@))),
{
    let ghost ks = trigram_keys(views(w@));
    if w.len() < 3 {
        assert(ks.subrange(0, 0) =~= ks);
        return;
    }
    let mut i: usize = 0;
    while i < w.len() - 2
        invariant
            t.wf(),
            w@.len() >= 3,
            i + 2 <= w@.len(),
            ks == trigram_keys(views(w@)),
            t@ == add_keys(old(t)@, ks.subrange(0, i as int)),
        decreases w@.len() - i,
    {
        let key = join_three(&w[i], &w[i + 1], &w[i + 2]);
        assert(key@ == ks[i as int]);
        t.increment(key);
        assert(ks.subrange(0, i + 1).drop_last() =~= ks.subrange(0, i as int));
        i += 1;
    }
    assert(ks.subrange(0, i as int) =~= ks);
}

pub open spec fn opt_vec_view(o: Option<Vec<char>>) -> Option<Seq<char>> {
    match o {
        Some(v) => Some(v@),
        None => None,
    }
}

fn opt_chars(o: &Option<String>) -> (r: Option<Vec<char>>)
    ensures
        match r {
            Some(v) => opt_view(*o) == Some(v@),
            None => opt_view(*o) == None::<Seq<char>>,
        },
{
    match o {
        Some(s) => Some(chars_of(s.as_str())),
        None => None,
    }
}

fn add_all_tokens(set: &mut TokenSet, tokens: &Vec<Vec<char>>)
    requires
        old(set).wf(),
    ensures
        final(set).wf(),
        final(set)@ == old(set)@.union(views(tokens@).to_set()),
{
    let ghost t = views(tokens@);
    let mut k: usize = 0;
    while k < tokens.len()
        invariant
            set.wf(),
            k <= tokens@.len(),
            t == views(tokens@),
            set@ == old(set)@.union(t.subrange(0, k as int).to_set()),
        decreases tokens@.len() - k,
    {
        set.insert(tokens[k].clone());
        assert(t.subrange(0, k + 1).to_set() =~= t.subrange(0, k as int).to_set().insert(t[k as int])) by {
            let pre = t.subrange(0, k as int);
            let post = t.subrange(0, k + 1);
            assert forall|x: Seq<char>| #[trigger] post.contains(x) implies pre.contains(x) || x == t[k as int] by {
                let j = choose|j: int| 0 <= j < post.len() && post[j] == x;
                if j < k {
                    assert(pre[j] == x);
                }
            }
            assert forall|x: Seq<char>| #[trigger] pre.contains(x) implies post.contains(x) by {
                let j = choose|j: int| 0 <= j < pre.len() && pre[j] == x;
                assert(post[j] == x);
            }
            assert(post[k as int] == t[k as int]);
        }
        assert(set@ =~= old(set)@.union(t.subrange(0, k + 1).to_set()));
        k += 1;
    }
    assert(t.subrange(0, k as int) =~= t);
}

/// `front`, then `mid`, then the element of `back` at `idx` if there is one.
fn surround(front: Option<Vec<char>>, mid: &Vec<Vec<char>>, back: &Vec<Vec<char>>, idx: usize) -> (r: Vec<Vec<char>>)
    ensures
        views(r@) == opt_seq(opt_vec_view(front)) + views(mid@)
            + opt_seq(nth_opt(views(back@), idx as int)),
{
    let mut w: Vec<Vec<char>> = Vec::new();
    let ghost fv = opt_vec_view(front);
    match front {
        Some(x) => w.push(x),
        None => {},
    }
    let ghost head = views(w@);
    assert(head =~= opt_seq(fv));
    let mut j: usize = 0;
    while j < mid.len()
        invariant
            j <= mid@.len(),
            views(w@) == head + views(mid@).subrange(0, j as int),
        decreases mid@.len() - j,
    {
        let ghost before = w@;
        let c = mid[j].clone();
        assert(c@ == views(mid@)[j as int]);
        w.push(c);
        assert(views(w@) =~= views(before).push(c@));
        assert(views(mid@).subrange(0, j + 1) =~= views(mid@).subrange(0, j as int).push(views(mid@)[j as int]));
        j += 1;
    }
    assert(views(mid@).subrange(0, mid@.len() as int) =~= views(mid@));
    let ghost before = w@;
    if idx < back.len() {
        let c = back[idx].clone();
        assert(c@ == views(back@)[idx as int]);
        w.push(c);
        assert(views(w@) =~= views(before).push(c@));
    }
    assert(views(w@) =~= opt_seq(fv) + views(mid@) + opt_seq(nth_opt(views(back@), idx as int)));
    w
}

/// Accumulates one line given its tokens and the tokens of the next line:
/// adds the tokens to `all_token_list`, counts the bigrams of the window
/// (the carried token `prev1`, the tokens, the first token of `next`) in
/// `dbl` and the trigrams of the wider window (also `prev2` in front and the
/// second token of `next` behind) in `trpl`, and returns the carry for the
/// next line: the last and second-to-last tokens. A line without tokens
/// changes nothing and returns no carry.
pub fn accumulate_line(
    tokens: &Vec<Vec<char>>,
    next: &Vec<Vec<char>>,
    dbl: &mut FreqTable,
    trpl: &mut FreqTable,
    all_token_list: &mut TokenSet,
    prev1: Option<String>,
    prev2: Option<String>,
) -> (r: (Option<String>, Option<String>))
    requires
        old(dbl).wf(),
        old(trpl).wf(),
        old(all_token_list).wf(),
    ensures
        final(dbl).wf(),
        final(trpl).wf(),
        final(all_token_list).wf(),
        ({
            let t = views(tokens@);
            let nx = views(next@);
            &&& (opt_view(r.0), opt_view(r.1)) == carry_after(t)
            &&& final(all_token_list)@ == old(all_token_list)@.union(t.to_set())
            &&& t.len() == 0 ==> final(dbl)@ == old(dbl)@ && final(trpl)@ == old(trpl)@
            &&& t.len() > 0 ==> final(dbl)@ == add_keys(old(dbl)@, bigram_keys(bigram_window(opt_view(prev1), t, nx)))
            &&& t.len() > 0 ==> final(trpl)@ == add_keys(old(trpl)@,
                trigram_keys(trigram_window(opt_view(prev1), opt_view(prev2), t, nx)))
        }),
{
    let ghost t = views(tokens@);
    if tokens.len() == 0 {
        assert(t.to_set() =~= Set::<Seq<char>>::empty());
        assert(all_token_list@.union(t.to_set()) =~= all_token_list@);
        return (None, None);
    }
    add_all_tokens(all_token_list, tokens);

    let n = tokens.len();
    let last1 = string_of(tokens[n - 1].as_slice());
    let last2 = if n >= 2 {
        Some(string_of(tokens[n - 2].as_slice()))
    } else {
        None
    };

    let c1 = opt_chars(&prev1);
    let c2 = opt_chars(&prev2);
    let w2 = surround(c1, tokens, next, 0);
    assert(views(w2@) == bigram_window(opt_view(prev1), t, views(next@)));
    increment_windows2(dbl, &w2);
    let w3 = surround(c2, &w2, next, 1);
    assert(views(w3@) =~= trigram_window(opt_view(prev1), opt_view(prev2), t, views(next@)));
    increment_windows3(trpl, &w3);
    (Some(last1), last2)
}

/// Processes one line: adds its tokens to `all_token_list`, counts the
/// bigrams of its window (the carried token `prev1`, its tokens, the first
/// token of `lookahead_line`) in `dbl` and the trigrams of its wider window
/// (also `prev2` in front and the second lookahead token behind) in `trpl`,
/// and returns the carry for the next line: its last and second-to-last
/// tokens. A line without tokens changes nothing and returns no carry.
pub fn process_dictionary_builder_line(
    line: String,
    lookahead_line: Option<String>,
    regexp: &Pattern,
    regexps: &Vec<Pattern>,
    dbl: &mut FreqTable,
    trpl: &mut FreqTable,
    all_token_list: &mut TokenSet,
    prev1: Option<String>,
    prev2: Option<String>,
) -> (r: (Option<String>, Option<String>))
    requires
        old(dbl).wf(),
        old(trpl).wf(),
        old(all_token_list).wf(),
    ensures
        final(dbl).wf(),
        final(trpl).wf(),
        final(all_token_list).wf(),
        ({
            let p = regexp.source();
            let rs = sources(regexps@);
            let t = line_tokens(p, rs, line@);
            let next = lookahead_tokens(p, rs, opt_view(lookahead_line));
            &&& (opt_view(r.0), opt_view(r.1)) == carry_after(t)
            &&& final(all_token_list)@ == old(all_token_list)@.union(t.to_set())
            &&& t.len() == 0 ==> final(dbl)@ == old(dbl)@ && final(trpl)@ == old(trpl)@
            &&& t.len() > 0 ==> final(dbl)@ == add_keys(old(dbl)@, bigram_keys(bigram_window(opt_view(prev1), t, next)))
            &&& t.len() > 0 ==> final(trpl)@ == add_keys(old(trpl)@,
                trigram_keys(trigram_window(opt_view(prev1), opt_view(prev2), t, next)))
        }),
{
    let ghost p = regexp.source();
    let ghost rs = sources(regexps@);
    let next: Vec<Vec<char>> = match &lookahead_line {
        Some(ll) => line_token_chars(ll.as_str(), regexp, regexps),
        None => Vec::new(),
    };
    assert(views(next@) == lookahead_tokens(p, rs, opt_view(lookahead_line))) by {
        if lookahead_line.is_none() {
            assert(views(next@) =~= Seq::<Seq<char>>::empty());
        }
    }
    let tokens = line_token_chars(line.as_str(), regexp, regexps);
    accumulate_line(&tokens, &next, dbl, trpl, all_token_list, prev1, prev2)
}

} // verus!
