use std::collections::HashMap;

use logngram::{
    apply_domain_specific_re, censored_regexps, chunk_size, dictionary_builder, format_string, parse_lines,
    process_dictionary_builder_line, regex_generator, regex_generator_helper, reverse_dict, token_splitter, worker,
    FreqTable, LogFormat, Pattern, TokenSet,
};

fn as_map(t: &FreqTable) -> HashMap<String, u64> {
    t.entries().into_iter().collect()
}

fn oracle(pairs: &[(&str, u64)]) -> HashMap<String, u64> {
    pairs.iter().map(|(k, v)| (k.to_string(), *v)).collect()
}

fn linux_line(content: &str) -> String {
    format!("Jun 14 15:16:02 combo sshd(pam_unix)[19937]: {}", content)
}

#[test]
fn test_regex_generator_helper() {
    let linux_format = r"<Month> <Date> <Time> <Level> <Component>(\[<PID>\])?: <Content>".to_string();
    assert_eq!(regex_generator_helper(linux_format), r"(?P<Month>.*?)\s+(?P<Date>.*?)\s+(?P<Time>.*?)\s+(?P<Level>.*?)\s+(?P<Component>.*?)(\[(?P<PID>.*?)\])?:\s+(?P<Content>.*?)");

    let openstack_format = r"<Logrecord> <Date> <Time> <Pid> <Level> <Component> (\[<ADDR>\])? <Content>".to_string();
    assert_eq!(regex_generator_helper(openstack_format), r"(?P<Logrecord>.*?)\s+(?P<Date>.*?)\s+(?P<Time>.*?)\s+(?P<Pid>.*?)\s+(?P<Level>.*?)\s+(?P<Component>.*?)\s+(\[(?P<ADDR>.*?)\])?\s+(?P<Content>.*?)");
}

#[test]
fn test_apply_domain_specific_re() {
    let line = "q2.34.4.5 Jun 14 15:16:02 combo sshd(pam_unix)[19937]: check pass; Fri Jun 17 20:55:07 2005 user unknown".to_string();
    let censored_line = apply_domain_specific_re(line, &censored_regexps(&LogFormat::Linux).unwrap());
    assert_eq!(censored_line, " q<*> Jun 14 <*> combo sshd(pam_unix)[19937]: check pass; <*> user unknown");
}

#[test]
fn test_token_splitter() {
    let line = "Jun 14 15:16:02 combo sshd(pam_unix)[19937]: check pass; user unknown".to_string();
    let re = regex_generator(format_string(&LogFormat::Linux)).unwrap();
    let split_line = token_splitter(line, &re, &censored_regexps(&LogFormat::Linux).unwrap());
    assert_eq!(split_line, vec!["check", "pass;", "user", "unknown"]);
}

#[test]
fn test_dictionary_builder_process_line_lookahead_is_none() {
    let line = "Jun 14 15:16:02 combo sshd(pam_unix)[19937]: check pass; user unknown".to_string();
    let re = regex_generator(format_string(&LogFormat::Linux)).unwrap();
    let mut dbl = FreqTable::new();
    let mut trpl = FreqTable::new();
    let mut all_token_list = TokenSet::new();
    let (last1, last2) = process_dictionary_builder_line(line, None, &re, &censored_regexps(&LogFormat::Linux).unwrap(), &mut dbl, &mut trpl, &mut all_token_list, None, None);
    assert_eq!((last1, last2), (Some("unknown".to_string()), Some("user".to_string())));

    let dbl_oracle = oracle(&[("user^unknown", 1), ("pass;^user", 1), ("check^pass;", 1)]);
    assert_eq!(as_map(&dbl), dbl_oracle);

    let trpl_oracle = oracle(&[("pass;^user^unknown", 1), ("check^pass;^user", 1)]);
    assert_eq!(as_map(&trpl), trpl_oracle);
}

#[test]
fn test_dictionary_builder_process_line_lookahead_is_some() {
    let line = "Jun 14 15:16:02 combo sshd(pam_unix)[19937]: check pass; user unknown".to_string();
    let next_line = "Jun 14 15:16:02 combo sshd(pam_unix)[19937]: baz bad".to_string();
    let re = regex_generator(format_string(&LogFormat::Linux)).unwrap();
    let mut dbl = FreqTable::new();
    let mut trpl = FreqTable::new();
    let mut all_token_list = TokenSet::new();
    let (last1, last2) = process_dictionary_builder_line(line, Some(next_line), &re, &censored_regexps(&LogFormat::Linux).unwrap(), &mut dbl, &mut trpl, &mut all_token_list, Some("foo".to_string()), Some("bar".to_string()));
    assert_eq!((last1, last2), (Some("unknown".to_string()), Some("user".to_string())));

    let dbl_oracle = oracle(&[
        ("unknown^baz", 1),
        ("foo^check", 1),
        ("user^unknown", 1),
        ("pass;^user", 1),
        ("check^pass;", 1),
    ]);
    assert_eq!(as_map(&dbl), dbl_oracle);

    let trpl_oracle = oracle(&[
        ("pass;^user^unknown", 1),
        ("check^pass;^user", 1),
        ("unknown^baz^bad", 1),
        ("foo^check^pass;", 1),
        ("bar^foo^check", 1),
        ("user^unknown^baz", 1),
    ]);
    assert_eq!(as_map(&trpl), trpl_oracle);
}

fn paper_lines() -> Vec<String> {
    ["21876", "14584", "0", "7292", "29168"]
        .iter()
        .map(|n| linux_line(&format!("hdfs://hostname/2kSOSP.log:{}+7292", n)))
        .collect()
}

#[test]
fn test_parse_raw_linux() {
    let (double_dict, triple_dict, all_token_list) = parse_lines(&paper_lines(), &LogFormat::Linux, Some(1)).unwrap();
    let all_token_list_oracle = vec![
        "hdfs://hostname/2kSOSP.log:0+7292".to_string(),
        "hdfs://hostname/2kSOSP.log:14584+7292".to_string(),
        "hdfs://hostname/2kSOSP.log:21876+7292".to_string(),
        "hdfs://hostname/2kSOSP.log:29168+7292".to_string(),
        "hdfs://hostname/2kSOSP.log:7292+7292".to_string(),
    ];
    assert_eq!(all_token_list, all_token_list_oracle);
    let double_dict_oracle = oracle(&[
        ("hdfs://hostname/2kSOSP.log:14584+7292^hdfs://hostname/2kSOSP.log:0+7292", 2),
        ("hdfs://hostname/2kSOSP.log:21876+7292^hdfs://hostname/2kSOSP.log:14584+7292", 2),
        ("hdfs://hostname/2kSOSP.log:7292+7292^hdfs://hostname/2kSOSP.log:29168+7292", 2),
        ("hdfs://hostname/2kSOSP.log:0+7292^hdfs://hostname/2kSOSP.log:7292+7292", 2),
    ]);
    assert_eq!(as_map(&double_dict), double_dict_oracle);
    let triple_dict_oracle = oracle(&[
        ("hdfs://hostname/2kSOSP.log:0+7292^hdfs://hostname/2kSOSP.log:7292+7292^hdfs://hostname/2kSOSP.log:29168+7292", 1),
        ("hdfs://hostname/2kSOSP.log:14584+7292^hdfs://hostname/2kSOSP.log:0+7292^hdfs://hostname/2kSOSP.log:7292+7292", 1),
        ("hdfs://hostname/2kSOSP.log:21876+7292^hdfs://hostname/2kSOSP.log:14584+7292^hdfs://hostname/2kSOSP.log:0+7292", 1),
    ]);
    assert_eq!(as_map(&triple_dict), triple_dict_oracle);
}
