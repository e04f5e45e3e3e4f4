use vstd::prelude::*;
use vstd::string::*;
use crate::pattern::{named_capture, replaced_all, sources, Pattern};
use crate::text::{
    chars_of, split_whitespace_chars, split_ws, string_of, string_views, trim_chars, trimmed,
    views,
};

verus! {

/// The sentinel that replaces every redacted substring.
pub open spec fn sentinel() -> Seq<char> {
    seq!['<', '*', '>']
}

/// The name of the capture group that holds a line's message.
pub open spec fn content_group() -> Seq<char> {
    seq!['C', 'o', 'n', 't', 'e', 'n', 't']
}

/// `s` after each pattern of `ps`, in order, has replaced its matches by the
/// sentinel.
pub open spec fn redact_all(ps: Seq<Seq<char>>, s: Seq<char>) -> Seq<char>
    decreases ps.len(),
{
    if ps.len() == 0 {
        s
    } else {
        replaced_all(ps.last(), redact_all(ps.drop_last(), s), sentinel())
    }
}

/// The tokens of a log line: the `Content` capture of the line pattern `p`
/// on the trimmed line, with a space put in front, redacted by `rs`, split on
/// whitespace; none when the line does not match.
pub open spec fn line_tokens(p: Seq<char>, rs: Seq<Seq<char>>, line: Seq<char>) -> Seq<Seq<char>> {
    match named_capture(p, trimmed(line), content_group()) {
        None => Seq::empty(),
        Some(c) => split_ws(redact_all(rs, seq![' '] + c)),
    }
}

/// Puts a space in front of `log_line` and replaces, pattern by pattern in
/// order, every match by `<*>`.
pub fn apply_domain_specific_re(log_line: String, domain_specific_re: &Vec<Pattern>) -> (r: String)
    ensures
        r@ == redact_all(sources(domain_specific_re@), seq![' '] + log_line@),
{
    let mut line = String::from_str(" ");
    line.append(log_line.as_str());
    proof {
        reveal_strlit(" ");
        reveal_strlit("<*>");
    }
    assert("<*>"@ =~= sentinel());
    let ghost start = line@;
    assert(start =~= seq![' '] + log_line@);
    let mut i: usize = 0;
    while i < domain_specific_re.len()
        invariant
            i <= domain_specific_re@.len(),
            line@ == redact_all(sources(domain_specific_re@).subrange(0, i as int), start),
        decreases domain_specific_re@.len() - i,
    {
        let ghost prev = line@;
        proof {
            reveal_strlit("<*>");
        }
        assert("<*>"@ =~= sentinel());
        line = domain_specific_re[i].replace_all(line.as_str(), "<*>");
        proof {
            let all = sources(domain_specific_re@);
            let sub = all.subrange(0, i + 1);
            assert(all[i as int] == domain_specific_re@[i as int].source());
            assert(line@ == replaced_all(all[i as int], prev, sentinel()));
            assert(sub.drop_last() =~= all.subrange(0, i as int));
            assert(sub.last() == all[i as int]);
            assert(redact_all(sub, start) == replaced_all(sub.last(), redact_all(sub.drop_last(), start), sentinel()));
        }
        i += 1;
    }
    assert(sources(domain_specific_re@).subrange(0, i as int) =~= sources(domain_specific_re@));
    line
}

/// The tokens of a log line, as character vectors.
pub fn line_token_chars(log_line: &str, re: &Pattern, domain_specific_re: &Vec<Pattern>) -> (r: Vec<Vec<char>>)
    ensures
        views(r@) == line_tokens(re.source(), sources(domain_specific_re@), log_line@),
{
    let cs = chars_of(log_line);
    let t = trim_chars(cs.as_slice());
    let trimmed_line = string_of(t.as_slice());
    proof {
        reveal_strlit("Content");
    }
    assert("Content"@ =~= content_group());
    match re.capture(trimmed_line.as_str(), "Content") {
        None => Vec::new(),
        Some(message) => {
            let line = apply_domain_specific_re(message, domain_specific_re);
            let lc = chars_of(line.as_str());
            split_whitespace_chars(lc.as_slice())
        },
    }
}

/// Splits a log line into its content tokens: the `Content` capture of `re`
/// on the trimmed line, redacted by `domain_specific_re`, split on
/// whitespace. A line that `re` does not match gives no tokens.
pub fn token_splitter(log_line: String, re: &Pattern, domain_specific_re: &Vec<Pattern>) -> (r: Vec<String>)
    ensures
        string_views(r@) == line_tokens(re.source(), sources(domain_specific_re@), log_line@),
{
    let toks = line_token_chars(log_line.as_str(), re, domain_specific_re);
    let mut out: Vec<String> = Vec::new();
    let mut i: usize = 0;
    while i < toks.len()
        invariant
            i <= toks@.len(),
            string_views(out@) == views(toks@).subrange(0, i as int),
        decreases toks@.len() - i,
    {
        let ghost before = out@;
        let s = string_of(toks[i].as_slice());
        assert(s@ == views(toks@)[i as int]);
        out.push(s);
        assert(out@ == before.push(s));
        assert(string_views(out@) =~= string_views(before).push(s@));
        assert(string_views(out@) =~= views(toks@).subrange(0, i + 1));
        i += 1;
    }
    assert(views(toks@).subrange(0, i as int) =~= views(toks@));
    out
}

} // verus!
