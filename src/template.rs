use vstd::prelude::*;
use crate::text::{chars_of, string_of};

verus! {

/// Each maximal run of spaces in `s` replaced by the flexible matcher `\s+`.
pub open spec fn collapse_spaces(s: Seq<char>) -> Seq<char>
    decreases s.len(),
{
    if s.len() == 0 {
        Seq::empty()
    } else if s.last() == ' ' {
        let rest = s.drop_last();
        if rest.len() > 0 && rest.last() == ' ' {
            collapse_spaces(rest)
        } else {
            collapse_spaces(rest) + seq!['\\', 's', '+']
        }
    } else {
        collapse_spaces(s.drop_last()).push(s.last())
    }
}

/// The lazy named capture group `(?P<name>.*?)`.
pub open spec fn capture_group(name: Seq<char>) -> Seq<char> {
    seq!['(', '?', 'P', '<'] + name + seq!['>', '.', '*', '?', ')']
}

/// State of a left-to-right scan of a template: the regex written so far,
/// whether a placeholder has been seen, the literal text since the last
/// placeholder, and the name read since an unmatched `<`, if any.
pub type ScanState = (Seq<char>, bool, Seq<char>, Option<Seq<char>>);

/// Closing the placeholder `<name>`: the literal text before it is written
/// only when it stands between two placeholders.
pub open spec fn close_placeholder(st: ScanState, name: Seq<char>) -> ScanState {
    let out = if st.1 {
        st.0 + collapse_spaces(st.2) + capture_group(name)
    } else {
        st.0 + capture_group(name)
    };
    (out, true, Seq::empty(), None)
}

/// One character of the scan. A placeholder is `<`, one or more characters
/// other than `<` and `>`, then `>`; anything else is literal text.
pub open spec fn scan_step(st: ScanState, c: char) -> ScanState {
    match st.3 {
        None => if c == '<' {
            (st.0, st.1, st.2, Some(Seq::empty()))
        } else {
            (st.0, st.1, st.2.push(c), None)
        },
        Some(name) => if c == '>' {
            if name.len() > 0 {
                close_placeholder(st, name)
            } else {
                (st.0, st.1, st.2 + seq!['<', '>'], None)
            }
        } else if c == '<' {
            (st.0, st.1, st.2.push('<') + name, Some(Seq::empty()))
        } else {
            (st.0, st.1, st.2, Some(name.push(c)))
        },
    }
}

pub open spec fn scan(t: Seq<char>) -> ScanState
    decreases t.len(),
{
    if t.len() == 0 {
        (Seq::empty(), false, Seq::empty(), None)
    } else {
        scan_step(scan(t.drop_last()), t.last())
    }
}

/// The regex body compiled from a format template: each placeholder `<Name>`
/// becomes `(?P<Name>.*?)`, the text between two placeholders is kept with
/// its space runs collapsed to `\s+`, and text before the first or after
/// the last placeholder is dropped.
pub open spec fn template_body(t: Seq<char>) -> Seq<char> {
    scan(t).0
}

/// The full-line anchored regex for a template.
pub open spec fn anchored(body: Seq<char>) -> Seq<char> {
    seq!['^'] + body + seq!['$']
}

fn push_all(out: &mut Vec<char>, s: &Vec<char>)
    ensures
        final(out)@ == old(out)@ + s@,
{
    let mut i: usize = 0;
    while i < s.len()
        invariant
            i <= s@.len(),
            out@ == old(out)@ + s@.subrange(0, i as int),
        decreases s@.len() - i,
    {
        out.push(s[i]);
        assert(s@.subrange(0, i + 1) =~= s@.subrange(0, i as int).push(s@[i as int]));
        i += 1;
    }
    assert(s@.subrange(0, s@.len() as int) =~= s@);
}

fn push_collapsed(out: &mut Vec<char>, s: &Vec<char>)
    ensures
        final(out)@ == old(out)@ + collapse_spaces(s@),
{
    let mut i: usize = 0;
    while i < s.len()
        invariant
            i <= s@.len(),
            out@ == old(out)@ + collapse_spaces(s@.subrange(0, i as int)),
        decreases s@.len() - i,
    {
        let ghost pre = s@.subrange(0, i as int);
        assert(s@.subrange(0, i + 1).drop_last() =~= pre);
        if s[i] == ' ' {
            if i == 0 || s[i - 1] != ' ' {
                out.push('\\');
                out.push('s');
                out.push('+');
                assert(out@ =~= old(out)@ + collapse_spaces(s@.subrange(0, i + 1)));
            }
        } else {
            out.push(s[i]);
            assert(out@ =~= old(out)@ + collapse_spaces(s@.subrange(0, i + 1)));
        }
        i += 1;
    }
    assert(s@.subrange(0, s@.len() as int) =~= s@);
}

fn push_group(out: &mut Vec<char>, name: &Vec<char>)
    ensures
        final(out)@ == old(out)@ + capture_group(name@),
{
    out.push('(');
    out.push('?');
    out.push('P');
    out.push('<');
    push_all(out, name);
    out.push('>');
    out.push('.');
    out.push('*');
    out.push('?');
    out.push(')');
    assert(out@ =~= old(out)@ + capture_group(name@));
}

/// Compiles a format template into an unanchored regex body (see
/// `template_body`).
pub fn regex_generator_helper(format: String) -> (r: String)
    ensures
        r@ == template_body(format@),
{
    let t = chars_of(format.as_str());
    let mut out: Vec<char> = Vec::new();
    let mut started = false;
    let mut pending: Vec<char> = Vec::new();
    let mut in_name = false;
    let mut name: Vec<char> = Vec::new();
    let mut i: usize = 0;
    while i < t.len()
        invariant
            i <= t@.len(),
            t@ == format@,
            scan(t@.subrange(0, i as int)) == (out@, started, pending@,
                if in_name { Some(name@) } else { None::<Seq<char>> }),
        decreases t@.len() - i,
    {
        let c = t[i];
        assert(t@.subrange(0, i + 1).drop_last() =~= t@.subrange(0, i as int));
        if !in_name {
            if c == '<' {
                in_name = true;
                name = Vec::new();
            } else {
                pending.push(c);
            }
        } else if c == '>' {
            if name.len() > 0 {
                if started {
                    push_collapsed(&mut out, &pending);
                }
                push_group(&mut out, &name);
                assert(out@ =~= close_placeholder(scan(t@.subrange(0, i as int)), name@).0);
                started = true;
                pending = Vec::new();
            } else {
                pending.push('<');
                pending.push('>');
                assert(pending@ =~= scan(t@.subrange(0, i + 1)).2);
            }
            in_name = false;
        } else if c == '<' {
            pending.push('<');
            push_all(&mut pending, &name);
            name = Vec::new();
        } else {
            name.push(c);
        }
        i += 1;
    }
    assert(t@.subrange(0, t@.len() as int) =~= t@);
    string_of(out.as_slice())
}

} // verus!
