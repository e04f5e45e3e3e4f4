use vstd::prelude::*;
use vstd::string::*;
use crate::pattern::{is_valid_regex, sources, Pattern, PatternError};
use crate::template::{anchored, regex_generator_helper, template_body};

verus! {

/// The log sources whose line layout the library knows.
#[derive(Clone, Copy, Debug, PartialEq, Eq, Structural)]
pub enum LogFormat {
    Linux,
    OpenStack,
    Spark,
    HDFS,
    HPC,
    Proxifier,
    Android,
    HealthApp,
}

/// The format template of each log source.
pub open spec fn format_template(lf: LogFormat) -> Seq<char> {
    match lf {
        LogFormat::Linux => r"<Month> <Date> <Time> <Level> <Component>(\[<PID>\])?: <Content>"@,
        LogFormat::OpenStack => r"'<Logrecord> <Date> <Time> <Pid> <Level> <Component> \[<ADDR>\] <Content>'"@,
        LogFormat::Spark => r"<Date> <Time> <Level> <Component>: <Content>"@,
        LogFormat::HDFS => r"<Date> <Time> <Pid> <Level> <Component>: <Content>"@,
        LogFormat::HPC => r"<LogId> <Node> <Component> <State> <Time> <Flag> <Content>"@,
        LogFormat::Proxifier => r"[<Time>] <Program> - <Content>"@,
        LogFormat::Android => r"<Date> <Time>  <Pid>  <Tid> <Level> <Component>: <Content>"@,
        LogFormat::HealthApp => r"<Time>\|<Component>\|<Pid>\|<Content>"@,
    }
}

/// The redaction patterns of each log source, in the order they apply.
pub open spec fn redactor_sources(lf: LogFormat) -> Seq<Seq<char>> {
    match lf {
        LogFormat::Linux => seq![
            r"(\d+\.){3}\d+"@,
            r"\w{3} \w{3} \d{2} \d{2}:\d{2}:\d{2} \d{4}"@,
            r"\d{2}:\d{2}:\d{2}"@,
        ],
        LogFormat::OpenStack => seq![r"((\d+\.){3}\d+,?)+"@, r"/.+?\s"@],
        LogFormat::Spark => seq![
            r"(\d+\.){3}\d+"@,
            r"\b[KGTM]?B\b"@,
            r"([\w-]+\.){2,}[\w-]+"@,
        ],
        LogFormat::HDFS => seq![r"blk_(|-)[0-9]+"@, r"(/|)([0-9]+\.){3}[0-9]+(:[0-9]+|)(:|)"@],
        LogFormat::HPC => seq![r"=\d+"@],
        LogFormat::Proxifier => seq![
            r"<\d+\ssec"@,
            r"([\w-]+\.)+[\w-]+(:\d+)?"@,
            r"\d{2}:\d{2}(:\d{2})*"@,
            r"[KGTM]B"@,
        ],
        LogFormat::Android => seq![
            r"(/[\w-]+)+"@,
            r"([\w-]+\.){2,}[\w-]+"@,
            r"\b(\-?\+?\d+)\b|\b0[Xx][a-fA-F\d]+\b|\b[a-fA-F\d]{4,}\b"@,
        ],
        LogFormat::HealthApp => seq![],
    }
}

/// The format template of a log source.
pub fn format_string(lf: &LogFormat) -> (r: String)
    ensures
        r@ == format_template(*lf),
{
    match lf {
        LogFormat::Linux => r"<Month> <Date> <Time> <Level> <Component>(\[<PID>\])?: <Content>".to_string(),
        LogFormat::OpenStack => r"'<Logrecord> <Date> <Time> <Pid> <Level> <Component> \[<ADDR>\] <Content>'".to_string(),
        LogFormat::Spark => r"<Date> <Time> <Level> <Component>: <Content>".to_string(),
        LogFormat::HDFS => r"<Date> <Time> <Pid> <Level> <Component>: <Content>".to_string(),
        LogFormat::HPC => r"<LogId> <Node> <Component> <State> <Time> <Flag> <Content>".to_string(),
        LogFormat::Proxifier => r"[<Time>] <Program> - <Content>".to_string(),
        LogFormat::Android => r"<Date> <Time>  <Pid>  <Tid> <Level> <Component>: <Content>".to_string(),
        LogFormat::HealthApp => r"<Time>\|<Component>\|<Pid>\|<Content>".to_string(),
    }
}

/// The redaction patterns of a log source, as text.
pub fn redactor_patterns(lf: &LogFormat) -> (r: Vec<String>)
    ensures
        r@.map_values(|s: String| s@) == redactor_sources(*lf),
{
    let r = match lf {
        LogFormat::Linux => vec![
            r"(\d+\.){3}\d+".to_string(),
            r"\w{3} \w{3} \d{2} \d{2}:\d{2}:\d{2} \d{4}".to_string(),
            r"\d{2}:\d{2}:\d{2}".to_string(),
        ],
        LogFormat::OpenStack => vec![r"((\d+\.){3}\d+,?)+".to_string(), r"/.+?\s".to_string()],
        LogFormat::Spark => vec![
            r"(\d+\.){3}\d+".to_string(),
            r"\b[KGTM]?B\b".to_string(),
            r"([\w-]+\.){2,}[\w-]+".to_string(),
        ],
        LogFormat::HDFS => vec![
            r"blk_(|-)[0-9]+".to_string(),
            r"(/|)([0-9]+\.){3}[0-9]+(:[0-9]+|)(:|)".to_string(),
        ],
        LogFormat::HPC => vec![r"=\d+".to_string()],
        LogFormat::Proxifier => vec![
            r"<\d+\ssec".to_string(),
            r"([\w-]+\.)+[\w-]+(:\d+)?".to_string(),
            r"\d{2}:\d{2}(:\d{2})*".to_string(),
            r"[KGTM]B".to_string(),
        ],
        LogFormat::Android => vec![
            r"(/[\w-]+)+".to_string(),
            r"([\w-]+\.){2,}[\w-]+".to_string(),
            r"\b(\-?\+?\d+)\b|\b0[Xx][a-fA-F\d]+\b|\b[a-fA-F\d]{4,}\b".to_string(),
        ],
        LogFormat::HealthApp => vec![],
    };
    assert(r@.map_values(|s: String| s@) =~= redactor_sources(*lf));
    r
}

/// Compiles every pattern of `ps`, in order; fails on the first one that the
/// regex engine rejects.
pub fn compile_all(ps: &Vec<String>) -> (r: Result<Vec<Pattern>, PatternError>)
    ensures
        r is Ok <==> forall|i: int| 0 <= i < ps@.len() ==> is_valid_regex(#[trigger] ps@[i]@),
        r matches Ok(v) ==> sources(v@) == ps@.map_values(|s: String| s@),
        r matches Err(e) ==> exists|i: int| 0 <= i < ps@.len() && e.pattern@ == ps@[i]@
            && !is_valid_regex(ps@[i]@),
{
    let mut out: Vec<Pattern> = Vec::new();
    let mut i: usize = 0;
    while i < ps.len()
        invariant
            i <= ps@.len(),
            forall|j: int| 0 <= j < i ==> is_valid_regex(#[trigger] ps@[j]@),
            sources(out@) == ps@.subrange(0, i as int).map_values(|s: String| s@),
        decreases ps@.len() - i,
    {
        let ghost before = out@;
        match Pattern::new(ps[i].as_str()) {
            Ok(p) => {
                out.push(p);
                assert(out@ == before.push(p));
                assert(sources(out@) =~= sources(before).push(ps@[i as int]@));
                assert(ps@.subrange(0, i + 1) =~= ps@.subrange(0, i as int).push(ps@[i as int]));
                assert(sources(out@) =~= ps@.subrange(0, i + 1).map_values(|s: String| s@));
            },
            Err(e) => {
                return Err(e);
            },
        }
        i += 1;
    }
    assert(sources(out@) =~= ps@.map_values(|s: String| s@));
    Ok(out)
}

/// The compiled redaction patterns of a log source.
pub fn censored_regexps(lf: &LogFormat) -> (r: Result<Vec<Pattern>, PatternError>)
    ensures
        r is Ok <==> forall|i: int| 0 <= i < redactor_sources(*lf).len()
            ==> is_valid_regex(#[trigger] redactor_sources(*lf)[i]),
        r matches Ok(v) ==> sources(v@) == redactor_sources(*lf),
{
    let ps = redactor_patterns(lf);
    let r = compile_all(&ps);
    assert forall|i: int| 0 <= i < ps@.len() implies #[trigger] ps@[i]@ == redactor_sources(*lf)[i] by {
        assert(ps@.map_values(|s: String| s@)[i] == ps@[i]@);
    }
    r
}

/// The full-line anchored regex for a format template, with one lazy named
/// group per placeholder.
pub fn regex_generator(format: String) -> (r: Result<Pattern, PatternError>)
    ensures
        r is Ok <==> is_valid_regex(anchored(template_body(format@))),
        r matches Ok(p) ==> p.source() == anchored(template_body(format@)),
{
    let body = regex_generator_helper(format);
    let mut full = String::from_str("^");
    proof {
        reveal_strlit("^");
        reveal_strlit("$");
    }
    full.append(body.as_str());
    full.append("$");
    assert(full@ =~= anchored(template_body(format@)));
    Pattern::new(full.as_str())
}

} // verus!
