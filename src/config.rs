//! Run configuration: the subcommand chosen and its options, as plain
//! values (paths are kept as text).
use vstd::prelude::*;

use crate::count::{decimal, decimal_string, parse_i64, parse_i64_text};
use crate::text::{chars_of, concat, string_of, trim_text, trimmed};

verus! {

/// The comma-separated fields of a line, in order; a line without a comma
/// is one field.
pub open spec fn comma_fields(s: Seq<char>) -> Seq<Seq<char>>
    decreases s.len(),
{
    if s.len() == 0 {
        seq![Seq::empty()]
    } else {
        let p = comma_fields(s.drop_last());
        if s.last() == ',' {
            p.push(Seq::empty())
        } else {
            p.drop_last().push(p.last().push(s.last()))
        }
    }
}

proof fn lemma_comma_fields_len(s: Seq<char>)
    ensures
        comma_fields(s).len() >= 1,
    decreases s.len(),
{
    if s.len() > 0 {
        lemma_comma_fields_len(s.drop_last());
    }
}

/// The entry of a `provider,eid,template` line of the default details:
/// the key `provider_eid` and the template, each field trimmed; `None` when
/// the line has fewer than three fields or the event ID is not an integer.
pub open spec fn detail_entry(line: Seq<char>) -> Option<(Seq<char>, Seq<char>)> {
    let f = comma_fields(line);
    if f.len() < 3 {
        None
    } else {
        match parse_i64(trimmed(f[1])) {
            Some(eid) => Some((trimmed(f[0]) + "_"@ + decimal(eid), trimmed(f[2]))),
            None => None,
        }
    }
}

/// The entries of the default details lines, in order, up to the first
/// line that is not a valid entry.
pub open spec fn default_details(lines: Seq<Seq<char>>) -> Seq<(Seq<char>, Seq<char>)>
    decreases lines.len(),
{
    if lines.len() == 0 {
        Seq::empty()
    } else {
        match detail_entry(lines[0]) {
            Some(e) => seq![e] + default_details(lines.drop_first()),
            None => Seq::empty(),
        }
    }
}

/// The views of a list of text pairs.
pub open spec fn pair_views(v: Seq<(String, String)>) -> Seq<(Seq<char>, Seq<char>)> {
    v.map_values(|p: (String, String)| (p.0@, p.1@))
}

/// The comma-separated fields of `line`.
fn split_commas(line: &String) -> (r: Vec<String>)
    ensures
        r@.map_values(|f: String| f@) == comma_fields(line@),
{
    let s = chars_of(line.as_str());
    let mut fields: Vec<String> = Vec::new();
    let mut cur: Vec<char> = Vec::new();
    let mut i: usize = 0;
    assert(s@.subrange(0, 0) =~= Seq::<char>::empty());
    assert(fields@.map_values(|f: String| f@).push(cur@) =~= seq![Seq::<char>::empty()]);
    while i < s.len()
        invariant
            i <= s@.len(),
            s@ == line@,
            comma_fields(s@.subrange(0, i as int)) == fields@.map_values(|f: String| f@).push(cur@),
        decreases s@.len() - i,
    {
        let ghost before = fields@.map_values(|f: String| f@);
        let ghost c0 = cur@;
        proof {
            assert(s@.subrange(0, i + 1).drop_last() =~= s@.subrange(0, i as int));
        }
        if s[i] == ',' {
            let f = string_of(&cur);
            fields.push(f);
            cur = Vec::new();
            proof {
                assert(fields@.map_values(|f: String| f@) =~= before.push(c0));
                assert(fields@.map_values(|f: String| f@).push(cur@) =~= before.push(c0).push(
                    Seq::empty(),
                ));
            }
        } else {
            cur.push(s[i]);
            proof {
                assert(before.push(c0).drop_last() =~= before);
                assert(before.push(cur@) =~= before.push(c0).drop_last().push(
                    before.push(c0).last().push(s@[i as int]),
                ));
            }
        }
        i += 1;
    }
    let last = string_of(&cur);
    let ghost before = fields@.map_values(|f: String| f@);
    fields.push(last);
    proof {
        assert(s@.subrange(0, s@.len() as int) =~= s@);
        assert(fields@.map_values(|f: String| f@) =~= before.push(cur@));
    }
    fields
}

/// Reads the default details table from the lines of its file, each
/// `provider,eid,template`: the key is `provider_eid` with the event ID
/// as a decimal integer, and the template is the detail text used for a
/// record of that provider and event ID when its rule gives none. Reading
/// stops at the first line that is not such an entry.
pub fn load_default_details(lines: &Vec<String>) -> (r: Vec<(String, String)>)
    ensures
        pair_views(r@) == default_details(lines@.map_values(|l: String| l@)),
{
    let ghost all = lines@.map_values(|l: String| l@);
    let mut out: Vec<(String, String)> = Vec::new();
    let mut i: usize = 0;
    assert(all.subrange(0, all.len() as int) =~= all);
    assert(pair_views(out@) + default_details(all) =~= default_details(all));
    while i < lines.len()
        invariant
            i <= lines@.len(),
            all == lines@.map_values(|l: String| l@),
            default_details(all) == pair_views(out@) + default_details(all.subrange(i as int, all.len() as int)),
        decreases lines@.len() - i,
    {
        let ghost rest = all.subrange(i as int, all.len() as int);
        proof {
            assert(rest[0] == lines@[i as int]@);
            assert(rest.drop_first() =~= all.subrange(i + 1, all.len() as int));
        }
        let f = split_commas(&lines[i]);
        let ghost fv = f@.map_values(|x: String| x@);
        if f.len() < 3 {
            proof {
                assert(default_details(rest) =~= Seq::<(Seq<char>, Seq<char>)>::empty());
                assert(pair_views(out@) + Seq::<(Seq<char>, Seq<char>)>::empty() =~= pair_views(out@));
            }
            return out;
        }
        let provider = trim_text(f[0].as_str());
        let eid_text = trim_text(f[1].as_str());
        let detail = trim_text(f[2].as_str());
        proof {
            assert(fv[0] == f@[0]@ && fv[1] == f@[1]@ && fv[2] == f@[2]@);
        }
        let digits = chars_of(eid_text.as_str());
        match parse_i64_text(&digits) {
            None => {
                proof {
                    assert(default_details(rest) =~= Seq::<(Seq<char>, Seq<char>)>::empty());
                    assert(pair_views(out@) + Seq::<(Seq<char>, Seq<char>)>::empty() =~= pair_views(out@));
                }
                return out;
            },
            Some(eid) => {
                let key = concat(provider.as_str(), "_");
                let key = concat(key.as_str(), decimal_string(eid).as_str());
                let ghost before = pair_views(out@);
                out.push((key, detail));
                proof {
                    assert(pair_views(out@) =~= before.push((key@, detail@)));
                    assert(detail_entry(rest[0]) == Some((key@, detail@)));
                    assert(before.push((key@, detail@)) + default_details(rest.drop_first()) =~= before + (
                        seq![(key@, detail@)] + default_details(rest.drop_first())));
                }
            },
        }
        i += 1;
    }
    proof {
        assert(all.subrange(i as int, all.len() as int) =~= Seq::<Seq<char>>::empty());
        assert(pair_views(out@) + Seq::<(Seq<char>, Seq<char>)>::empty() =~= pair_views(out@));
    }
    out
}

#[derive(Clone, Debug)]
pub struct DetectCommonOption {
    pub json_input: bool,
    pub evtx_file_ext: Option<Vec<String>>,
    pub thread_number: Option<usize>,
    pub quiet_errors: bool,
    pub config: String,
    pub verbose: bool,
}

#[derive(Clone, Debug)]
pub struct DefaultProfileOption {
    pub common_options: CommonOptions,
    pub profile: Option<String>,
}

#[derive(Clone, Debug)]
pub struct UpdateOption {
    pub common_options: CommonOptions,
    pub rules: String,
}

#[derive(Clone, Debug)]
pub struct LevelTuningOption {
    pub common_options: CommonOptions,
    pub level_tuning: String,
}

#[derive(Clone, Debug)]
pub struct MetricsOption {
    pub input_args: InputOption,
    pub output: Option<String>,
    pub common_options: CommonOptions,
    pub detect_common_options: DetectCommonOption,
    pub european_time: bool,
    pub us_military_time: bool,
    pub us_time: bool,
    pub utc: bool,
}

#[derive(Clone, Debug)]
pub struct PivotKeywordOption {
    pub input_args: InputOption,
    pub output: Option<String>,
    pub common_options: CommonOptions,
    pub enable_deprecated_rules: bool,
    pub enable_unsupported_rules: bool,
    pub exclude_status: Option<Vec<String>>,
    pub min_level: String,
    pub exact_level: Option<String>,
    pub enable_noisy_rules: bool,
    pub end_timeline: Option<String>,
    pub start_timeline: Option<String>,
    pub eid_filter: bool,
    pub detect_common_options: DetectCommonOption,
}

#[derive(Clone, Debug)]
pub struct LogonSummaryOption {
    pub input_args: InputOption,
    pub output: Option<String>,
    pub common_options: CommonOptions,
    pub detect_common_options: DetectCommonOption,
    pub european_time: bool,
    pub us_military_time: bool,
    pub us_time: bool,
    pub utc: bool,
}

#[derive(Clone, Debug)]
pub struct OutputOption {
    pub input_args: InputOption,
    pub profile: Option<String>,
    pub common_options: CommonOptions,
    pub enable_deprecated_rules: bool,
    pub enable_unsupported_rules: bool,
    pub exclude_status: Option<Vec<String>>,
    pub min_level: String,
    pub exact_level: Option<String>,
    pub enable_noisy_rules: bool,
    pub end_timeline: Option<String>,
    pub start_timeline: Option<String>,
    pub eid_filter: bool,
    pub detect_common_options: DetectCommonOption,
    pub european_time: bool,
    pub us_military_time: bool,
    pub us_time: bool,
    pub utc: bool,
    pub visualize_timeline: bool,
    pub rules: String,
    pub html_report: Option<String>,
    pub no_summary: bool,
}

#[derive(Clone, Debug)]
pub struct CommonOptions {
    pub no_color: bool,
    pub quiet: bool,
}

#[derive(Clone, Debug)]
pub struct InputOption {
    pub directory: Option<String>,
    pub filepath: Option<String>,
    pub live_analysis: bool,
}

#[derive(Clone, Debug)]
pub struct CsvOutputOption {
    pub output_options: OutputOption,
    pub multiline: bool,
    pub geo_ip: Option<String>,
    pub output: Option<String>,
}

#[derive(Clone, Debug)]
pub struct JSONOutputOption {
    pub output_options: OutputOption,
    pub output: Option<String>,
    pub jsonl_timeline: bool,
    pub geo_ip: Option<String>,
}

#[derive(Clone, Debug)]
pub struct ElasticSettingOption {
    pub strict: bool,
    pub index: String,
    pub host: String,
    pub port: u16,
    pub proto: String,
    pub insecure: bool,
    pub username: String,
    pub password: String,
}

#[derive(Clone, Debug)]
pub struct AlertElasticOption {
    pub input_args: InputOption,
    pub profile: Option<String>,
    pub common_options: CommonOptions,
    pub output: Option<String>,
    pub detect_common_options: DetectCommonOption,
    pub elastic_options: ElasticSettingOption,
}

/// The subcommand of a run, with its options.
#[derive(Clone, Debug)]
pub enum Action {
    AlertElastic(AlertElasticOption),
    CsvTimeline(CsvOutputOption),
    JsonTimeline(JSONOutputOption),
    LogonSummary(LogonSummaryOption),
    Metrics(MetricsOption),
    PivotKeywordsList(PivotKeywordOption),
    UpdateRules(UpdateOption),
    LevelTuning(LevelTuningOption),
    SetDefaultProfile(DefaultProfileOption),
    ListContributors(CommonOptions),
    ListProfiles(CommonOptions),
}

#[derive(Clone, Debug)]
pub struct Config {
    pub action: Option<Action>,
    pub debug: bool,
}

/// The number of a subcommand: `csv-timeline` is 0, then in order
/// `json-timeline`, `logon-summary`, `metrics`, `pivot-keywords-list`,
/// `update-rules`, `level-tuning`, `set-default-profile`,
/// `list-contributors`, `list-profiles`, `alert-elastic` (10); no
/// subcommand is 100.
pub open spec fn action_number(action: Option<&Action>) -> usize {
    match action {
        None => 100,
        Some(a) => match a {
            Action::CsvTimeline(_) => 0,
            Action::JsonTimeline(_) => 1,
            Action::LogonSummary(_) => 2,
            Action::Metrics(_) => 3,
            Action::PivotKeywordsList(_) => 4,
            Action::UpdateRules(_) => 5,
            Action::LevelTuning(_) => 6,
            Action::SetDefaultProfile(_) => 7,
            Action::ListContributors(_) => 8,
            Action::ListProfiles(_) => 9,
            Action::AlertElastic(_) => 10,
        },
    }
}

/// The command-line name of a subcommand; empty for none.
pub open spec fn action_name(action: Option<&Action>) -> Seq<char> {
    match action {
        None => ""@,
        Some(a) => match a {
            Action::CsvTimeline(_) => "csv-timeline"@,
            Action::JsonTimeline(_) => "json-timeline"@,
            Action::LogonSummary(_) => "logon-summary"@,
            Action::Metrics(_) => "metrics"@,
            Action::PivotKeywordsList(_) => "pivot-keywords-list"@,
            Action::UpdateRules(_) => "update-rules"@,
            Action::LevelTuning(_) => "level-tuning"@,
            Action::SetDefaultProfile(_) => "set-default-profile"@,
            Action::ListContributors(_) => "list-contributors"@,
            Action::ListProfiles(_) => "list-profiles"@,
            Action::AlertElastic(_) => "alert-elastic"@,
        },
    }
}

impl Action {
    pub fn to_usize(action: Option<&Action>) -> (r: usize)
        ensures
            r == action_number(action),
    {
        if let Some(a) = action {
            match a {
                Action::CsvTimeline(_) => 0,
                Action::JsonTimeline(_) => 1,
                Action::LogonSummary(_) => 2,
                Action::Metrics(_) => 3,
                Action::PivotKeywordsList(_) => 4,
                Action::UpdateRules(_) => 5,
                Action::LevelTuning(_) => 6,
                Action::SetDefaultProfile(_) => 7,
                Action::ListContributors(_) => 8,
                Action::ListProfiles(_) => 9,
                Action::AlertElastic(_) => 10,
            }
        } else {
            100
        }
    }

    pub fn get_action_name(action: Option<&Action>) -> (r: &str)
        ensures
            r@ == action_name(action),
    {
        if let Some(a) = action {
            match a {
                Action::CsvTimeline(_) => "csv-timeline",
                Action::JsonTimeline(_) => "json-timeline",
                Action::LogonSummary(_) => "logon-summary",
                Action::Metrics(_) => "metrics",
                Action::PivotKeywordsList(_) => "pivot-keywords-list",
                Action::UpdateRules(_) => "update-rules",
                Action::LevelTuning(_) => "level-tuning",
                Action::SetDefaultProfile(_) => "set-default-profile",
                Action::ListContributors(_) => "list-contributors",
                Action::ListProfiles(_) => "list-profiles",
                Action::AlertElastic(_) => "alert-elastic",
            }
        } else {
            ""
        }
    }
}

/// The thread count asked for by the subcommands that scan events.
pub open spec fn thread_number_of(config: &Config) -> Option<usize> {
    match config.action {
        Some(Action::CsvTimeline(opt)) => opt.output_options.detect_common_options.thread_number,
        Some(Action::JsonTimeline(opt)) => opt.output_options.detect_common_options.thread_number,
        Some(Action::LogonSummary(opt)) => opt.detect_common_options.thread_number,
        Some(Action::Metrics(opt)) => opt.detect_common_options.thread_number,
        Some(Action::PivotKeywordsList(opt)) => opt.detect_common_options.thread_number,
        _ => None,
    }
}

/// The thread count asked for, if the subcommand scans events.
pub fn check_thread_number(config: &Config) -> (r: Option<usize>)
    ensures
        r == thread_number_of(config),
{
    match &config.action {
        Some(Action::CsvTimeline(opt)) => opt.output_options.detect_common_options.thread_number,
        Some(Action::JsonTimeline(opt)) => opt.output_options.detect_common_options.thread_number,
        Some(Action::LogonSummary(opt)) => opt.detect_common_options.thread_number,
        Some(Action::Metrics(opt)) => opt.detect_common_options.thread_number,
        Some(Action::PivotKeywordsList(opt)) => opt.detect_common_options.thread_number,
        _ => None,
    }
}

/// What is known of an event kind: its title.
#[derive(Clone, Debug)]
pub struct EventInfo {
    pub evttitle: String,
}

impl EventInfo {
    /// An event kind with the title `Unknown`.
    pub fn new() -> (r: EventInfo)
        ensures
            r.evttitle@ == "Unknown"@,
    {
        let evttitle = "Unknown".to_string();
        EventInfo { evttitle }
    }
}

/// Updating the rule repository; the work itself is done by the driver.
#[derive(Clone, Debug)]
pub struct UpdateRules {}

} // verus!
