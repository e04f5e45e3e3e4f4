use std::collections::HashMap;

use logngram::{
    accumulate_line, censored_regexps, chunk_size, dictionary_builder, format_string, parse_lines,
    process_dictionary_builder_line, worker_tokens,
    redactor_patterns, regex_generator, reverse_dict, token_splitter, worker, FreqTable, LogFormat, Pattern, TokenSet,
};

fn table(t: &FreqTable) -> HashMap<String, u64> {
    t.entries().into_iter().collect()
}

fn expect(pairs: &[(&str, u64)]) -> HashMap<String, u64> {
    pairs.iter().map(|(k, v)| (k.to_string(), *v)).collect()
}

fn linux(content: &str) -> String {
    format!("Jun 14 15:16:02 combo sshd(pam_unix)[19937]: {}", content)
}

fn hdfs_lines() -> Vec<String> {
    ["21876", "14584", "0", "7292", "29168"]
        .iter()
        .map(|n| linux(&format!("hdfs://hostname/2kSOSP.log:{}+7292", n)))
        .collect()
}

fn tok(n: &str) -> String {
    format!("hdfs://hostname/2kSOSP.log:{}+7292", n)
}

#[test]
fn linux_template_compiles_to_anchored_regex() {
    let re = regex_generator(format_string(&LogFormat::Linux)).unwrap();
    assert_eq!(
        re.as_str(),
        r"^(?P<Month>.*?)\s+(?P<Date>.*?)\s+(?P<Time>.*?)\s+(?P<Level>.*?)\s+(?P<Component>.*?)(\[(?P<PID>.*?)\])?:\s+(?P<Content>.*?)$"
    );
}

#[test]
fn format_strings_of_the_catalog() {
    assert_eq!(format_string(&LogFormat::HealthApp), r"<Time>\|<Component>\|<Pid>\|<Content>");
    assert_eq!(format_string(&LogFormat::Spark), "<Date> <Time> <Level> <Component>: <Content>");
    assert_eq!(format_string(&LogFormat::Android), "<Date> <Time>  <Pid>  <Tid> <Level> <Component>: <Content>");
    assert_eq!(redactor_patterns(&LogFormat::HPC), vec![r"=\d+".to_string()]);
    assert!(redactor_patterns(&LogFormat::HealthApp).is_empty());
}

#[test]
fn every_catalog_entry_compiles() {
    let all = [
        LogFormat::Linux,
        LogFormat::OpenStack,
        LogFormat::Spark,
        LogFormat::HDFS,
        LogFormat::HPC,
        LogFormat::Proxifier,
        LogFormat::Android,
        LogFormat::HealthApp,
    ];
    for lf in all.iter() {
        assert!(regex_generator(format_string(lf)).is_ok());
        let rs = censored_regexps(lf).unwrap();
        assert_eq!(rs.len(), redactor_patterns(lf).len());
    }
}

#[test]
fn template_space_runs_collapse_and_outer_text_drops() {
    let re = regex_generator(format_string(&LogFormat::Android)).unwrap();
    assert_eq!(
        re.as_str(),
        r"^(?P<Date>.*?)\s+(?P<Time>.*?)\s+(?P<Pid>.*?)\s+(?P<Tid>.*?)\s+(?P<Level>.*?)\s+(?P<Component>.*?):\s+(?P<Content>.*?)$"
    );
    let re = regex_generator("x <A> - <B> y".to_string()).unwrap();
    assert_eq!(re.as_str(), r"^(?P<A>.*?)\s+-\s+(?P<B>.*?)$");
    let re = regex_generator("<A><>b<B>".to_string()).unwrap();
    assert_eq!(re.as_str(), r"^(?P<A>.*?)<>b(?P<B>.*?)$");
}

#[test]
fn invalid_template_is_an_error() {
    let e = regex_generator("<A>(<B>".to_string()).err().unwrap();
    assert_eq!(e.pattern, "^(?P<A>.*?)((?P<B>.*?)$");
    assert!(Pattern::new("(").is_err());
}

#[test]
fn pattern_capture_and_replace() {
    let p = Pattern::new(r"^(?P<a>\w+)-(?P<b>\w+)$").unwrap();
    assert_eq!(p.capture("ab-cd", "b"), Some("cd".to_string()));
    assert_eq!(p.capture("ab cd", "b"), None);
    let q = Pattern::new(r"\d+").unwrap();
    assert_eq!(q.replace_all("a1b22c", "<*>"), "a<*>b<*>c");
}

#[test]
fn unmatched_line_gives_no_tokens() {
    let re = regex_generator(format_string(&LogFormat::Linux)).unwrap();
    let rs = censored_regexps(&LogFormat::Linux).unwrap();
    assert!(token_splitter("garbage".to_string(), &re, &rs).is_empty());
    assert_eq!(
        token_splitter(format!("  {}  ", linux("a\tb\u{3000}c  d")), &re, &rs),
        vec!["a", "b", "c", "d"]
    );
}

#[test]
fn hdfs_redaction_of_block_ids() {
    let re = regex_generator(format_string(&LogFormat::HDFS)).unwrap();
    let rs = censored_regexps(&LogFormat::HDFS).unwrap();
    let line = "081109 203615 148 INFO dfs.DataNode$PacketResponder: Received block blk_-1608999687919862906 of size 91178 from /10.250.10.6".to_string();
    assert_eq!(
        token_splitter(line, &re, &rs),
        vec!["Received", "block", "<*>", "of", "size", "91178", "from", "<*>"]
    );
}

#[test]
fn empty_line_changes_nothing() {
    let re = regex_generator(format_string(&LogFormat::Linux)).unwrap();
    let rs = censored_regexps(&LogFormat::Linux).unwrap();
    let mut d = FreqTable::new();
    let mut t = FreqTable::new();
    let mut v = TokenSet::new();
    let r = process_dictionary_builder_line("nope".to_string(), Some(linux("a b")), &re, &rs, &mut d, &mut t, &mut v, Some("x".to_string()), Some("y".to_string()));
    assert_eq!(r, (None, None));
    assert!(d.entries().is_empty());
    assert!(t.entries().is_empty());
    assert!(v.to_sorted_vec().is_empty());
}

#[test]
fn single_token_line_carry() {
    let re = regex_generator(format_string(&LogFormat::Linux)).unwrap();
    let rs = censored_regexps(&LogFormat::Linux).unwrap();
    let mut d = FreqTable::new();
    let mut t = FreqTable::new();
    let mut v = TokenSet::new();
    let r = process_dictionary_builder_line(linux("solo"), None, &re, &rs, &mut d, &mut t, &mut v, Some("p".to_string()), Some("q".to_string()));
    assert_eq!(r, (Some("solo".to_string()), None));
    assert_eq!(table(&d), expect(&[("p^solo", 1)]));
    assert_eq!(table(&t), expect(&[("q^p^solo", 1)]));
}

#[test]
fn repeated_pairs_are_counted() {
    let (d, t, v) = parse_lines(&vec![linux("x x x")], &LogFormat::Linux, Some(1)).unwrap();
    assert_eq!(table(&d), expect(&[("x^x", 2)]));
    assert_eq!(table(&t), expect(&[("x^x^x", 1)]));
    assert_eq!(v, vec!["x".to_string()]);
}

#[test]
fn vocabulary_is_sorted_and_distinct() {
    let lines = vec![linux("b a"), linux("a c"), linux("B b")];
    let (_, _, v) = parse_lines(&lines, &LogFormat::Linux, Some(2)).unwrap();
    assert_eq!(v, vec!["B", "a", "b", "c"]);
}

#[test]
fn chunk_sizes() {
    assert_eq!(chunk_size(10, 4), 3);
    assert_eq!(chunk_size(0, 8), 1);
    assert_eq!(chunk_size(5, 8), 1);
    assert_eq!(chunk_size(16, 8), 2);
    assert_eq!(chunk_size(17, 8), 3);
}

#[test]
fn chunk_boundaries_drop_straddling_ngrams() {
    let (d, t, v) = parse_lines(&hdfs_lines(), &LogFormat::Linux, Some(2)).unwrap();
    let mut want_d = HashMap::new();
    want_d.insert(format!("{}^{}", tok("21876"), tok("14584")), 2);
    want_d.insert(format!("{}^{}", tok("14584"), tok("0")), 2);
    want_d.insert(format!("{}^{}", tok("7292"), tok("29168")), 2);
    assert_eq!(table(&d), want_d);
    let mut want_t = HashMap::new();
    want_t.insert(format!("{}^{}^{}", tok("21876"), tok("14584"), tok("0")), 1);
    assert_eq!(table(&t), want_t);
    assert_eq!(v.len(), 5);
}

#[test]
fn default_worker_count_is_eight() {
    let (d, t, v) = parse_lines(&hdfs_lines(), &LogFormat::Linux, None).unwrap();
    assert!(d.entries().is_empty());
    assert!(t.entries().is_empty());
    assert_eq!(v.len(), 5);
}

#[test]
fn empty_carry_resets_after_unmatched_line() {
    let lines = vec![linux("x y"), "garbage".to_string(), linux("z w")];
    let (d, t, _) = parse_lines(&lines, &LogFormat::Linux, Some(1)).unwrap();
    assert_eq!(table(&d), expect(&[("x^y", 1), ("z^w", 1)]));
    assert!(t.entries().is_empty());
}

#[test]
fn worker_matches_single_chunk_builder() {
    let re = regex_generator(format_string(&LogFormat::Linux)).unwrap();
    let rs = censored_regexps(&LogFormat::Linux).unwrap();
    let lines = hdfs_lines();
    let (d, t, v) = worker(&lines, &re, &rs);
    let (d1, t1, v1) = dictionary_builder(&lines, format_string(&LogFormat::Linux), &rs, Some(1)).unwrap();
    assert_eq!(table(&d), table(&d1));
    assert_eq!(table(&t), table(&t1));
    assert_eq!(v.to_sorted_vec(), v1);
}

#[test]
fn reverse_dict_groups_keys_by_count() {
    let mut d = FreqTable::new();
    d.add("a".to_string(), 2);
    d.add("b".to_string(), 1);
    d.add("c".to_string(), 2);
    let (counts, buckets) = reverse_dict(&d);
    assert_eq!(counts, vec![1, 2]);
    assert_eq!(buckets.len(), 2);
    assert_eq!(buckets[&1], vec!["b".to_string()]);
    let mut two = buckets[&2].clone();
    two.sort();
    assert_eq!(two, vec!["a".to_string(), "c".to_string()]);
    let (counts, buckets) = reverse_dict(&FreqTable::new());
    assert!(counts.is_empty());
    assert!(buckets.is_empty());
}

#[test]
fn table_add_merge_and_saturation() {
    let mut a = FreqTable::new();
    a.increment("k".to_string());
    a.increment("k".to_string());
    a.add("m".to_string(), 5);
    assert_eq!(a.get(&"k".to_string()), Some(2));
    assert_eq!(a.get(&"zz".to_string()), None);
    let mut b = FreqTable::new();
    b.add("k".to_string(), 3);
    b.add("n".to_string(), 1);
    a.merge(&b);
    assert_eq!(table(&a), expect(&[("k", 5), ("m", 5), ("n", 1)]));
    let mut s = FreqTable::new();
    s.add("big".to_string(), u64::MAX);
    s.increment("big".to_string());
    assert_eq!(s.get(&"big".to_string()), Some(u64::MAX));
}

#[test]
fn token_set_merge_is_union() {
    let mut a = TokenSet::new();
    a.insert("b".chars().collect());
    a.insert("a".chars().collect());
    let mut b = TokenSet::new();
    b.insert("c".chars().collect());
    b.insert("a".chars().collect());
    a.merge(&b);
    assert_eq!(a.to_sorted_vec(), vec!["a", "b", "c"]);
}

fn chars(words: &[&str]) -> Vec<Vec<char>> {
    words.iter().map(|w| w.chars().collect()).collect()
}

#[test]
fn accumulate_line_on_given_tokens() {
    let mut d = FreqTable::new();
    let mut t = FreqTable::new();
    let mut v = TokenSet::new();
    let r = accumulate_line(&chars(&["a", "b", "c"]), &chars(&["d", "e", "f"]), &mut d, &mut t, &mut v, Some("z".to_string()), Some("y".to_string()));
    assert_eq!(r, (Some("c".to_string()), Some("b".to_string())));
    assert_eq!(table(&d), expect(&[("z^a", 1), ("a^b", 1), ("b^c", 1), ("c^d", 1)]));
    assert_eq!(table(&t), expect(&[("y^z^a", 1), ("z^a^b", 1), ("a^b^c", 1), ("b^c^d", 1), ("c^d^e", 1)]));
    assert_eq!(v.to_sorted_vec(), vec!["a", "b", "c"]);
}

#[test]
fn worker_tokens_carries_across_lines() {
    let ts = vec![chars(&["a", "b"]), chars(&[]), chars(&["c"]), chars(&["d", "e"])];
    let (d, t, v) = worker_tokens(&ts);
    assert_eq!(table(&d), expect(&[("a^b", 1), ("c^d", 2), ("d^e", 1)]));
    assert_eq!(table(&t), expect(&[("c^d^e", 2)]));
    assert_eq!(v.to_sorted_vec(), vec!["a", "b", "c", "d", "e"]);
}

#[test]
fn vocabulary_tokens_are_words() {
    let lines = vec![linux("\ta  b\u{a0}c "), linux("x\u{2003}y"), "  ".to_string()];
    let (_, _, v) = parse_lines(&lines, &LogFormat::HealthApp, Some(1)).unwrap();
    assert!(v.is_empty());
    let (_, _, v) = parse_lines(&lines, &LogFormat::Linux, Some(3)).unwrap();
    assert_eq!(v, vec!["a", "b", "c", "x", "y"]);
    for tok in &v {
        assert!(!tok.is_empty());
        assert!(!tok.chars().any(char::is_whitespace));
    }
}
