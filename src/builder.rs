use vstd::prelude::*;
use crate::extract::{content_group, line_token_chars, line_tokens, redact_all};
use crate::ngram::{
    accumulate_line, add_keys, bigram_keys, bigram_window, carry_after, occurrences, tally, trigram_keys,
    trigram_window,
};
use crate::order::strictly_sorted;
use crate::pattern::{is_valid_regex, named_capture, opt_view, sources, Pattern, PatternError};
use crate::schema::{censored_regexps, format_string, format_template, redactor_sources, regex_generator, LogFormat};
use crate::tables::{count_in, merged, FreqTable, TokenSet};
use crate::template::{anchored, template_body};
use crate::text::{is_word, lemma_split_ws_words, string_views, trimmed, views};

verus! {

/// The bigram keys, the trigram keys and the carry after the first `n`
/// lines of a chunk, each line seeing the next one as its lookahead.
pub open spec fn chunk_run(p: Seq<char>, rs: Seq<Seq<char>>, lines: Seq<Seq<char>>, n: nat) -> (
    Seq<Seq<char>>,
    Seq<Seq<char>>,
    Option<Seq<char>>,
    Option<Seq<char>>,
)
    decreases n,
{
    if n == 0 || n > lines.len() {
        (Seq::empty(), Seq::empty(), None, None)
    } else {
        let (b, t3, c1, c2) = chunk_run(p, rs, lines, (n - 1) as nat);
        let t = line_tokens(p, rs, lines[n - 1]);
        let next = if n < lines.len() { line_tokens(p, rs, lines[n as int]) } else { Seq::empty() };
        if t.len() == 0 {
            (b, t3, None, None)
        } else {
            (
                b + bigram_keys(bigram_window(c1, t, next)),
                t3 + trigram_keys(trigram_window(c1, c2, t, next)),
                carry_after(t).0,
                carry_after(t).1,
            )
        }
    }
}

/// The bigram and trigram keys of a whole chunk.
pub open spec fn chunk_keys(p: Seq<char>, rs: Seq<Seq<char>>, lines: Seq<Seq<char>>) -> (Seq<Seq<char>>, Seq<Seq<char>>) {
    let r = chunk_run(p, rs, lines, lines.len());
    (r.0, r.1)
}

/// Every token of every line.
pub open spec fn lines_vocab(p: Seq<char>, rs: Seq<Seq<char>>, lines: Seq<Seq<char>>) -> Set<Seq<char>> {
    Set::new(|x: Seq<char>| exists|i: int| 0 <= i < lines.len() && #[trigger] line_tokens(p, rs, lines[i]).contains(x))
}

/// The number of lines per chunk: `n / w` rounded up, and at least one.
pub open spec fn chunk_len(n: nat, w: nat) -> nat {
    if n == 0 || w == 0 {
        1
    } else if n % w == 0 {
        n / w
    } else {
        n / w + 1
    }
}

/// The keys of `lines` cut into consecutive chunks of `size` lines (the
/// last one shorter), each chunk starting with no carry and its last line
/// without lookahead.
pub open spec fn sharded_keys(p: Seq<char>, rs: Seq<Seq<char>>, lines: Seq<Seq<char>>, size: nat) -> (
    Seq<Seq<char>>,
    Seq<Seq<char>>,
)
    decreases lines.len(),
{
    if size == 0 || lines.len() <= size {
        chunk_keys(p, rs, lines)
    } else {
        let head = chunk_keys(p, rs, lines.subrange(0, size as int));
        let rest = sharded_keys(p, rs, lines.subrange(size as int, lines.len() as int), size);
        (head.0 + rest.0, head.1 + rest.1)
    }
}

pub open spec fn workers(num_threads: Option<u32>) -> nat {
    match num_threads {
        Some(w) => w as nat,
        None => 8,
    }
}

pub proof fn lemma_add_keys_concat(m: Map<Seq<char>, nat>, a: Seq<Seq<char>>, b: Seq<Seq<char>>)
    ensures
        add_keys(m, a + b) == add_keys(add_keys(m, a), b),
    decreases b.len(),
{
    if b.len() == 0 {
        assert(a + b =~= a);
    } else {
        assert((a + b).drop_last() =~= a + b.drop_last());
        lemma_add_keys_concat(m, a, b.drop_last());
    }
}

pub proof fn lemma_occurrences_concat(a: Seq<Seq<char>>, b: Seq<Seq<char>>, k: Seq<char>)
    ensures
        occurrences(a + b, k) == occurrences(a, k) + occurrences(b, k),
    decreases b.len(),
{
    if b.len() == 0 {
        assert(a + b =~= a);
    } else {
        assert((a + b).drop_last() =~= a + b.drop_last());
        lemma_occurrences_concat(a, b.drop_last(), k);
    }
}

/// A key is in the table that counts `ks` exactly when it occurs in `ks`,
/// and its count is its number of occurrences (stopping at the largest
/// count a table can hold).
pub proof fn lemma_tally_counts(ks: Seq<Seq<char>>, k: Seq<char>)
    ensures
        tally(ks).contains_key(k) <==> occurrences(ks, k) >= 1,
        tally(ks).contains_key(k) ==> tally(ks)[k] >= 1,
        count_in(tally(ks), k) == if occurrences(ks, k) > u64::MAX { u64::MAX as nat } else { occurrences(ks, k) },
    decreases ks.len(),
{
    if ks.len() > 0 {
        lemma_tally_counts(ks.drop_last(), k);
    }
}

pub proof fn lemma_merge_tallies(a: Seq<Seq<char>>, b: Seq<Seq<char>>)
    ensures
        merged(tally(a), tally(b)) == tally(a + b),
{
    assert forall|k: Seq<char>| true implies (#[trigger] merged(tally(a), tally(b)).contains_key(k) <==> tally(a + b).contains_key(k))
        && (merged(tally(a), tally(b)).contains_key(k) ==> merged(tally(a), tally(b))[k] == tally(a + b)[k]) by {
        lemma_tally_counts(a, k);
        lemma_tally_counts(b, k);
        lemma_tally_counts(a + b, k);
        lemma_occurrences_concat(a, b, k);
    }
    assert(merged(tally(a), tally(b)) =~= tally(a + b));
}

/// The bigram keys, the trigram keys and the carry after the first `n`
/// lines of a chunk, given the tokens of each line.
pub open spec fn token_run(ts: Seq<Seq<Seq<char>>>, n: nat) -> (
    Seq<Seq<char>>,
    Seq<Seq<char>>,
    Option<Seq<char>>,
    Option<Seq<char>>,
)
    decreases n,
{
    if n == 0 || n > ts.len() {
        (Seq::empty(), Seq::empty(), None, None)
    } else {
        let (b, t3, c1, c2) = token_run(ts, (n - 1) as nat);
        let t = ts[n - 1];
        let next = if n < ts.len() { ts[n as int] } else { Seq::empty() };
        if t.len() == 0 {
            (b, t3, None, None)
        } else {
            (
                b + bigram_keys(bigram_window(c1, t, next)),
                t3 + trigram_keys(trigram_window(c1, c2, t, next)),
                carry_after(t).0,
                carry_after(t).1,
            )
        }
    }
}

/// Every token of every line.
pub open spec fn tokens_vocab(ts: Seq<Seq<Seq<char>>>) -> Set<Seq<char>> {
    Set::new(|x: Seq<char>| exists|i: int| 0 <= i < ts.len() && #[trigger] ts[i].contains(x))
}

/// The tokens of each line.
pub open spec fn tokens_of(p: Seq<char>, rs: Seq<Seq<char>>, lines: Seq<Seq<char>>) -> Seq<Seq<Seq<char>>> {
    lines.map_values(|l: Seq<char>| line_tokens(p, rs, l))
}

pub open spec fn deep_views(ts: Seq<Vec<Vec<char>>>) -> Seq<Seq<Seq<char>>> {
    ts.map_values(|l: Vec<Vec<char>>| views(l@))
}

proof fn lemma_run_via_tokens(p: Seq<char>, rs: Seq<Seq<char>>, lines: Seq<Seq<char>>, n: nat)
    requires
        n <= lines.len(),
    ensures
        chunk_run(p, rs, lines, n) == token_run(tokens_of(p, rs, lines), n),
    decreases n,
{
    if n > 0 {
        lemma_run_via_tokens(p, rs, lines, (n - 1) as nat);
    }
}

/// Runs the accumulator over one chunk, given the tokens of each line, in
/// order: each line sees the next one as lookahead, and the carry starts
/// empty.
pub fn worker_tokens(ts: &Vec<Vec<Vec<char>>>) -> (r: (FreqTable, FreqTable, TokenSet))
    ensures
        r.0.wf(),
        r.1.wf(),
        r.2.wf(),
        r.0@ == tally(token_run(deep_views(ts@), ts@.len()).0),
        r.1@ == tally(token_run(deep_views(ts@), ts@.len()).1),
        r.2@ == tokens_vocab(deep_views(ts@)),
{
    let ghost d = deep_views(ts@);
    let mut dbl = FreqTable::new();
    let mut trpl = FreqTable::new();
    let mut vocab = TokenSet::new();
    let mut prev1: Option<String> = None;
    let mut prev2: Option<String> = None;
    let empty: Vec<Vec<char>> = Vec::new();
    let n = ts.len();
    let mut i: usize = 0;
    assert(tokens_vocab(d.subrange(0, 0)) =~= Set::<Seq<char>>::empty());
    while i < n
        invariant
            n == ts@.len() == d.len(),
            d == deep_views(ts@),
            empty@.len() == 0,
            i <= n,
            dbl.wf(),
            trpl.wf(),
            vocab.wf(),
            dbl@ == tally(token_run(d, i as nat).0),
            trpl@ == tally(token_run(d, i as nat).1),
            opt_view(prev1) == token_run(d, i as nat).2,
            opt_view(prev2) == token_run(d, i as nat).3,
            vocab@ == tokens_vocab(d.subrange(0, i as int)),
        decreases n - i,
    {
        let nx = if i + 1 < n {
            &ts[i + 1]
        } else {
            &empty
        };
        let ghost st = token_run(d, i as nat);
        let ghost t = d[i as int];
        let ghost next = if i + 1 < n { d[i + 1] } else { Seq::<Seq<char>>::empty() };
        assert(views(nx@) == next) by {
            if i + 1 >= n {
                assert(views(nx@) =~= Seq::<Seq<char>>::empty());
            }
        }
        let (a, b) = accumulate_line(&ts[i], nx, &mut dbl, &mut trpl, &mut vocab, prev1, prev2);
        prev1 = a;
        prev2 = b;
        proof {
            if t.len() > 0 {
                lemma_add_keys_concat(Map::empty(), st.0, bigram_keys(bigram_window(st.2, t, next)));
                lemma_add_keys_concat(Map::empty(), st.1, trigram_keys(trigram_window(st.2, st.3, t, next)));
            }
            let pre = d.subrange(0, i as int);
            let post = d.subrange(0, i + 1);
            assert forall|x: Seq<char>| #[trigger] tokens_vocab(post).contains(x) implies tokens_vocab(pre).contains(x)
                || t.contains(x) by {
                let j = choose|j: int| 0 <= j < post.len() && #[trigger] post[j].contains(x);
                if j < i {
                    assert(pre[j] == post[j]);
                }
            }
            assert forall|x: Seq<char>| #[trigger] tokens_vocab(pre).contains(x) implies tokens_vocab(post).contains(x) by {
                let j = choose|j: int| 0 <= j < pre.len() && #[trigger] pre[j].contains(x);
                assert(post[j] == pre[j]);
            }
            assert forall|x: Seq<char>| #[trigger] t.contains(x) implies tokens_vocab(post).contains(x) by {
                assert(post[i as int] == t);
            }
            assert(tokens_vocab(post) =~= tokens_vocab(pre).union(t.to_set()));
        }
        i += 1;
    }
    assert(d.subrange(0, n as int) =~= d);
    (dbl, trpl, vocab)
}

/// Runs the accumulator over one chunk of lines, in order, each line seeing
/// the next one as lookahead; the carry starts empty.
pub fn worker(blocks: &Vec<String>, regex: &Pattern, regexps: &Vec<Pattern>) -> (r: (FreqTable, FreqTable, TokenSet))
    ensures
        r.0.wf(),
        r.1.wf(),
        r.2.wf(),
        r.0@ == tally(chunk_keys(regex.source(), sources(regexps@), string_views(blocks@)).0),
        r.1@ == tally(chunk_keys(regex.source(), sources(regexps@), string_views(blocks@)).1),
        r.2@ == lines_vocab(regex.source(), sources(regexps@), string_views(blocks@)),
{
    let ghost p = regex.source();
    let ghost rs = sources(regexps@);
    let ghost lines = string_views(blocks@);
    let mut ts: Vec<Vec<Vec<char>>> = Vec::new();
    let mut i: usize = 0;
    while i < blocks.len()
        invariant
            i <= blocks@.len() == lines.len(),
            lines == string_views(blocks@),
            p == regex.source(),
            rs == sources(regexps@),
            deep_views(ts@) == tokens_of(p, rs, lines).subrange(0, i as int),
        decreases blocks@.len() - i,
    {
        let ghost before = ts@;
        let toks = line_token_chars(blocks[i].as_str(), regex, regexps);
        ts.push(toks);
        assert(deep_views(ts@) =~= deep_views(before).push(views(toks@)));
        assert(tokens_of(p, rs, lines).subrange(0, i + 1) =~= tokens_of(p, rs, lines).subrange(0, i as int).push(
            line_tokens(p, rs, lines[i as int]),
        ));
        i += 1;
    }
    let ghost d = tokens_of(p, rs, lines);
    assert(deep_views(ts@) =~= d);
    let r = worker_tokens(&ts);
    proof {
        lemma_run_via_tokens(p, rs, lines, lines.len());
        assert forall|x: Seq<char>| #[trigger] tokens_vocab(d).contains(x) implies lines_vocab(p, rs, lines).contains(x) by {
            let j = choose|j: int| 0 <= j < d.len() && #[trigger] d[j].contains(x);
            assert(line_tokens(p, rs, lines[j]).contains(x));
        }
        assert forall|x: Seq<char>| #[trigger] lines_vocab(p, rs, lines).contains(x) implies tokens_vocab(d).contains(x) by {
            let j = choose|j: int| 0 <= j < lines.len() && #[trigger] line_tokens(p, rs, lines[j]).contains(x);
            assert(d[j].contains(x));
        }
        assert(tokens_vocab(d) =~= lines_vocab(p, rs, lines));
    }
    r
}

pub proof fn lemma_vocab_split(p: Seq<char>, rs: Seq<Seq<char>>, lines: Seq<Seq<char>>, a: int, b: int)
    requires
        0 <= a <= b <= lines.len(),
    ensures
        lines_vocab(p, rs, lines.subrange(0, b)) == lines_vocab(p, rs, lines.subrange(0, a)).union(
            lines_vocab(p, rs, lines.subrange(a, b)),
        ),
{
    let x0 = lines.subrange(0, b);
    let x1 = lines.subrange(0, a);
    let x2 = lines.subrange(a, b);
    assert forall|x: Seq<char>| #[trigger] lines_vocab(p, rs, x0).contains(x) implies lines_vocab(p, rs, x1).contains(x)
        || lines_vocab(p, rs, x2).contains(x) by {
        let j = choose|j: int| 0 <= j < x0.len() && #[trigger] line_tokens(p, rs, x0[j]).contains(x);
        if j < a {
            assert(x1[j] == x0[j]);
        } else {
            assert(x2[j - a] == x0[j]);
        }
    }
    assert forall|x: Seq<char>| #[trigger] lines_vocab(p, rs, x1).contains(x) implies lines_vocab(p, rs, x0).contains(x) by {
        let j = choose|j: int| 0 <= j < x1.len() && #[trigger] line_tokens(p, rs, x1[j]).contains(x);
        assert(x0[j] == x1[j]);
    }
    assert forall|x: Seq<char>| #[trigger] lines_vocab(p, rs, x2).contains(x) implies lines_vocab(p, rs, x0).contains(x) by {
        let j = choose|j: int| 0 <= j < x2.len() && #[trigger] line_tokens(p, rs, x2[j]).contains(x);
        assert(x0[j + a] == x2[j]);
    }
    assert(lines_vocab(p, rs, x0) =~= lines_vocab(p, rs, x1).union(lines_vocab(p, rs, x2)));
}

fn copy_range(lines: &Vec<String>, start: usize, end: usize) -> (r: Vec<String>)
    requires
        start <= end <= lines@.len(),
    ensures
        string_views(r@) == string_views(lines@).subrange(start as int, end as int),
{
    let mut r: Vec<String> = Vec::new();
    let mut i: usize = start;
    while i < end
        invariant
            start <= i <= end <= lines@.len(),
            string_views(r@) == string_views(lines@).subrange(start as int, i as int),
        decreases end - i,
    {
        let ghost before = r@;
        let s = lines[i].clone();
        r.push(s);
        assert(string_views(r@) =~= string_views(before).push(s@));
        assert(string_views(lines@).subrange(start as int, i + 1) =~= string_views(lines@).subrange(start as int, i as int).push(
            lines@[i as int]@,
        ));
        i += 1;
    }
    r
}

/// The number of lines per chunk for `n` lines and `w` workers.
pub fn chunk_size(n: usize, w: usize) -> (r: usize)
    requires
        w >= 1,
    ensures
        r == chunk_len(n as nat, w as nat),
        r >= 1,
{
    if n == 0 {
        1
    } else if n % w == 0 {
        assert(n / w >= 1) by (nonlinear_arith)
            requires n > 0, w >= 1, n % w == 0;
        n / w
    } else {
        assert(w >= 2);
        assert(n / w < n) by (nonlinear_arith)
            requires n > 0, w >= 2;
        n / w + 1
    }
}

/// The bigram table, the trigram table and the sorted vocabulary of `lines`:
/// the lines are cut into chunks of `chunk_len(n, w)` lines for `w` workers
/// (8 by default), each chunk is accumulated on its own, and the partial
/// results are summed. Fails exactly when the regex compiled from `format`
/// is rejected.
pub fn dictionary_builder(lines: &Vec<String>, format: String, regexps: &Vec<Pattern>, num_threads: Option<u32>) -> (r:
    Result<(FreqTable, FreqTable, Vec<String>), PatternError>)
    requires
        num_threads != Some(0u32),
    ensures
        r is Ok <==> is_valid_regex(anchored(template_body(format@))),
        r matches Ok(res) ==> ({
            let p = anchored(template_body(format@));
            let rs = sources(regexps@);
            let ls = string_views(lines@);
            let keys = sharded_keys(p, rs, ls, chunk_len(ls.len(), workers(num_threads)));
            &&& res.0.wf() && res.1.wf()
            &&& res.0@ == tally(keys.0)
            &&& res.1@ == tally(keys.1)
            &&& num_threads == Some(1u32) ==> res.0@ == tally(chunk_keys(p, rs, ls).0)
                && res.1@ == tally(chunk_keys(p, rs, ls).1)
            &&& strictly_sorted(string_views(res.2@))
            &&& string_views(res.2@).to_set() == lines_vocab(p, rs, ls)
        }),
{
    let regex = match regex_generator(format) {
        Ok(re) => re,
        Err(e) => return Err(e),
    };
    let ghost p = regex.source();
    let ghost rs = sources(regexps@);
    let ghost ls = string_views(lines@);
    let w: usize = match num_threads {
        Some(x) => x as usize,
        None => 8,
    };
    let n = lines.len();
    let size = chunk_size(n, w);
    let ghost all = sharded_keys(p, rs, ls, size as nat);
    let mut dbl = FreqTable::new();
    let mut trpl = FreqTable::new();
    let mut vocab = TokenSet::new();
    let ghost mut done_b: Seq<Seq<char>> = Seq::empty();
    let ghost mut done_t: Seq<Seq<char>> = Seq::empty();
    let mut start: usize = 0;
    assert(ls.subrange(0, n as int) =~= ls);
    assert(ls.subrange(0, 0) =~= Seq::<Seq<char>>::empty());
    assert(lines_vocab(p, rs, ls.subrange(0, 0)) =~= Set::<Seq<char>>::empty());
    while start < n
        invariant
            n == lines@.len() == ls.len(),
            ls == string_views(lines@),
            p == regex.source(),
            rs == sources(regexps@),
            size >= 1,
            all == sharded_keys(p, rs, ls, size as nat),
            start <= n,
            dbl.wf(),
            trpl.wf(),
            vocab.wf(),
            dbl@ == tally(done_b),
            trpl@ == tally(done_t),
            done_b + sharded_keys(p, rs, ls.subrange(start as int, n as int), size as nat).0 == all.0,
            done_t + sharded_keys(p, rs, ls.subrange(start as int, n as int), size as nat).1 == all.1,
            vocab@ == lines_vocab(p, rs, ls.subrange(0, start as int)),
        decreases n - start,
    {
        let end = if n - start > size {
            start + size
        } else {
            n
        };
        let chunk = copy_range(lines, start, end);
        let (d, t, v) = worker(&chunk, &regex, regexps);
        let ghost rest = ls.subrange(start as int, n as int);
        let ghost ck = chunk_keys(p, rs, ls.subrange(start as int, end as int));
        proof {
            if end < n {
                assert(rest.subrange(0, size as int) =~= ls.subrange(start as int, end as int));
                assert(rest.subrange(size as int, rest.len() as int) =~= ls.subrange(end as int, n as int));
            } else {
                assert(ls.subrange(start as int, end as int) =~= rest);
                assert(ls.subrange(end as int, n as int) =~= Seq::<Seq<char>>::empty());
                assert(sharded_keys(p, rs, Seq::<Seq<char>>::empty(), size as nat).0 =~= Seq::<Seq<char>>::empty());
                assert(sharded_keys(p, rs, Seq::<Seq<char>>::empty(), size as nat).1 =~= Seq::<Seq<char>>::empty());
            }
            lemma_merge_tallies(done_b, ck.0);
            lemma_merge_tallies(done_t, ck.1);
            lemma_vocab_split(p, rs, ls, start as int, end as int);
        }
        dbl.merge(&d);
        trpl.merge(&t);
        vocab.merge(&v);
        proof {
            let rest2 = sharded_keys(p, rs, ls.subrange(end as int, n as int), size as nat);
            assert(done_b + ck.0 + rest2.0 =~= done_b + (ck.0 + rest2.0));
            assert(done_t + ck.1 + rest2.1 =~= done_t + (ck.1 + rest2.1));
            if end == n {
                assert(rest2.0 =~= Seq::<Seq<char>>::empty());
                assert(done_b + ck.0 =~= done_b + ck.0 + rest2.0);
                assert(done_t + ck.1 =~= done_t + ck.1 + rest2.1);
            }
            done_b = done_b + ck.0;
            done_t = done_t + ck.1;
        }
        start = end;
    }
    assert(ls.subrange(start as int, n as int) =~= Seq::<Seq<char>>::empty());
    assert(done_b =~= all.0);
    assert(done_t =~= all.1);
    let sorted = vocab.to_sorted_vec();
    Ok((dbl, trpl, sorted))
}

/// Every token of the vocabulary of a set of lines is non-empty and holds
/// no whitespace.
pub proof fn lemma_vocab_words(p: Seq<char>, rs: Seq<Seq<char>>, lines: Seq<Seq<char>>, x: Seq<char>)
    requires
        lines_vocab(p, rs, lines).contains(x),
    ensures
        is_word(x),
{
    let i = choose|i: int| 0 <= i < lines.len() && #[trigger] line_tokens(p, rs, lines[i]).contains(x);
    let line = lines[i];
    match named_capture(p, trimmed(line), content_group()) {
        None => {},
        Some(c) => {
            lemma_split_ws_words(redact_all(rs, seq![' '] + c));
        },
    }
}

/// The bigram table, the trigram table and the sorted vocabulary of the
/// lines of a log of the given format, with that format's redactions.
/// Fails exactly when one of the format's patterns is rejected.
pub fn parse_lines(lines: &Vec<String>, lf: &LogFormat, num_threads: Option<u32>) -> (r: Result<
    (FreqTable, FreqTable, Vec<String>),
    PatternError,
>)
    requires
        num_threads != Some(0u32),
    ensures
        r is Ok <==> is_valid_regex(anchored(template_body(format_template(*lf))))
            && forall|i: int| 0 <= i < redactor_sources(*lf).len() ==> is_valid_regex(#[trigger] redactor_sources(*lf)[i]),
        r matches Ok(res) ==> ({
            let p = anchored(template_body(format_template(*lf)));
            let rs = redactor_sources(*lf);
            let ls = string_views(lines@);
            let keys = sharded_keys(p, rs, ls, chunk_len(ls.len(), workers(num_threads)));
            &&& res.0.wf() && res.1.wf()
            &&& res.0@ == tally(keys.0)
            &&& res.1@ == tally(keys.1)
            &&& num_threads == Some(1u32) ==> res.0@ == tally(chunk_keys(p, rs, ls).0)
                && res.1@ == tally(chunk_keys(p, rs, ls).1)
            &&& strictly_sorted(string_views(res.2@))
            &&& string_views(res.2@).to_set() == lines_vocab(p, rs, ls)
        }),
{
    let regexps = match censored_regexps(lf) {
        Ok(v) => v,
        Err(e) => return Err(e),
    };
    dictionary_builder(lines, format_string(lf), &regexps, num_threads)
}

} // verus!
