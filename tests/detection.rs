use hayabusa::rule::{Detection, EventRecord, FieldAliases, SelectionNode};
use hayabusa::selection::{compile_field, value_matches, MatchKind};

type Sel<'a> = (&'a str, &'a [(&'a str, &'a [&'a str])]);

fn aliases() -> FieldAliases {
    let pairs = [
        ("Channel", "Event.System.Channel"),
        ("EventID", "Event.System.EventID"),
        ("param1", "Event.EventData.param1"),
        ("param2", "Event.EventData.param2"),
        ("ImagePath", "Event.EventData.ImagePath"),
    ];
    FieldAliases {
        pairs: pairs.iter().map(|(a, p)| (a.to_string(), p.to_string())).collect(),
    }
}

fn record(fields: &[(&str, &str)]) -> EventRecord {
    EventRecord { fields: fields.iter().map(|(k, v)| (k.to_string(), v.to_string())).collect() }
}

fn simple_record() -> EventRecord {
    record(&[
        ("Event.System.EventID", "7040"),
        ("Event.System.Channel", "System"),
        ("Event.EventData.param1", "Windows Event Log"),
        ("Event.EventData.param2", "auto start"),
    ])
}

fn detection(sels: &[Sel], condition: Option<&str>) -> Result<Detection, Vec<String>> {
    let mut nodes = Vec::new();
    for (name, entries) in sels {
        let entries: Vec<(String, Vec<String>)> = entries
            .iter()
            .map(|(k, vs)| (k.to_string(), vs.iter().map(|v| v.to_string()).collect()))
            .collect();
        nodes.push(SelectionNode::compile(name.to_string(), entries).expect("selection compiles"));
    }
    Detection::new(nodes, condition)
}

fn check_select(sels: &[Sel], condition: Option<&str>, rec: &EventRecord, expect: bool) {
    let d = detection(sels, condition).expect("rule compiles");
    assert_eq!(d.select(&aliases(), rec), expect);
}

const THREE_HIT: [Sel; 3] = [
    ("selection1", &[("Channel", &["System"])]),
    ("selection2", &[("EventID", &["7040"])]),
    ("selection3", &[("param1", &["Windows Event Log"])]),
];

fn check_three(values: (&str, &str, &str), condition: &str, expect: bool) {
    let ch = [values.0];
    let eid = [values.1];
    let p1 = [values.2];
    let e1 = [("Channel", &ch[..])];
    let e2 = [("EventID", &eid[..])];
    let e3 = [("param1", &p1[..])];
    let sels: [Sel; 3] = [("selection1", &e1), ("selection2", &e2), ("selection3", &e3)];
    check_select(&sels, Some(condition), &simple_record(), expect);
}

#[test]
fn test_no_condition() {
    let sels: [Sel; 1] = [(
        "selection",
        &[("Channel", &["System"]), ("EventID", &["7040"]), ("param1", &["Windows Event Log"])],
    )];
    check_select(&sels, None, &simple_record(), true);
}

#[test]
fn test_no_condition_notdetect() {
    let sels: [Sel; 1] = [(
        "selection",
        &[("Channel", &["System"]), ("EventID", &["7041"]), ("param1", &["Windows Event Log"])],
    )];
    check_select(&sels, None, &simple_record(), false);
}

#[test]
fn test_condition_and_detect() {
    check_select(&THREE_HIT, Some("selection1 and selection2 and selection3"), &simple_record(), true);
}

#[test]
fn test_condition_and_notdetect() {
    check_three(("Systemn", "7040", "Windows Event Log"), "selection1 and selection2 and selection3", false);
}

#[test]
fn test_condition_and_notdetect2() {
    check_three(("System", "7041", "Windows Event Log"), "selection1 and selection2 and selection3", false);
}

#[test]
fn test_condition_and_detect3() {
    check_three(("System", "7040", "Windows Event Logn"), "selection1 and selection2 and selection3", false);
}

#[test]
fn test_condition_and_notdetect4() {
    check_three(("Systemn", "7040", "Windows Event Logn"), "selection1 and selection2 and selection3", false);
}

#[test]
fn test_condition_and_notdetect5() {
    check_three(("Systemn", "7041", "Windows Event Logn"), "selection1 and selection2 and selection3", false);
}

#[test]
fn test_condition_or_detect() {
    check_three(("System", "7040", "Windows Event Log"), "selection1 or selection2 or selection3", true);
}

#[test]
fn test_condition_or_detect2() {
    check_three(("Systemn", "7040", "Windows Event Log"), "selection1 or selection2 or selection3", true);
}

#[test]
fn test_condition_or_detect3() {
    check_three(("System", "7041", "Windows Event Log"), "selection1 or selection2 or selection3", true);
}

#[test]
fn test_condition_or_detect4() {
    check_three(("System", "7040", "Windows Event Logn"), "selection1 or selection2 or selection3", true);
}

#[test]
fn test_condition_or_detect5() {
    check_three(("Systemn", "7041", "Windows Event Log"), "selection1 or selection2 or selection3", true);
}

#[test]
fn test_condition_or_detect6() {
    check_three(("System", "7041", "Windows Event Logn"), "selection1 or selection2 or selection3", true);
}

#[test]
fn test_condition_or_detect7() {
    check_three(("Systemn", "7040", "Windows Event Logn"), "selection1 or selection2 or selection3", true);
}

#[test]
fn test_condition_or_notdetect() {
    check_three(("Systemn", "7041", "Windows Event Logn"), "selection1 or selection2 or selection3", false);
}

#[test]
fn test_condition_not_detect() {
    let sels: [Sel; 1] = [("selection1", &[("Channel", &["Systemn"])])];
    check_select(&sels, Some("not selection1"), &simple_record(), true);
}

#[test]
fn test_condition_not_notdetect() {
    let sels: [Sel; 1] = [("selection1", &[("Channel", &["System"])])];
    check_select(&sels, Some("not selection1"), &simple_record(), false);
}

const LOGN: (&str, &str, &str) = ("System", "7040", "Windows Event Logn");

#[test]
fn test_condition_parenthesis_detect() {
    check_three(LOGN, "selection2 and (selection2 or selection3)", true);
}

#[test]
fn test_condition_parenthesis_not_detect() {
    check_three(LOGN, "selection2 and (selection2 and selection3)", false);
}

#[test]
fn test_condition_many_parenthesis_detect() {
    check_three(LOGN, "selection2 and (((selection2 or selection3)))", true);
}

#[test]
fn test_condition_manyparenthesis_not_detect() {
    check_three(LOGN, "selection2 and ((((selection2 and selection3))))", false);
}

#[test]
fn test_condition_notparenthesis_detect() {
    check_three(LOGN, "(selection2 and selection1) and not ((selection2 and selection3))", true);
}

#[test]
fn test_condition_notparenthesis_notdetect() {
    check_three(LOGN, "(selection2 and selection1) and not (not(selection2 and selection3))", false);
}

#[test]
fn test_condition_manyparenthesis_detect2() {
    check_three(LOGN, "(selection2 and selection1) and (selection2 or selection3)", true);
}

#[test]
fn test_condition_manyparenthesis_notdetect2() {
    check_three(LOGN, "(selection2 and selection1) and (selection2 and selection3)", false);
}

fn check_four(p1: &str, p2: &str, condition: &str, expect: bool) {
    let v1 = [p1];
    let v2 = [p2];
    let e3 = [("param1", &v1[..])];
    let e4 = [("param2", &v2[..])];
    let sels: [Sel; 4] = [
        ("selection1", &[("Channel", &["System"])]),
        ("selection2", &[("EventID", &["7040"])]),
        ("selection3", &e3),
        ("selection4", &e4),
    ];
    check_select(&sels, Some(condition), &simple_record(), expect);
}

#[test]
fn test_condition_manyparenthesis_detect3() {
    check_four("Windows Event Log", "auto start", "(selection1 and (selection2 and ( selection3 and selection4 )))", true);
}

#[test]
fn test_condition_manyparenthesis_notdetect3() {
    check_four("Windows Event Logn", "auto start", "(selection1 and (selection2 and ( selection3 and selection4 )))", false);
}

#[test]
fn test_condition_manyparenthesis_detect4() {
    check_four("Windows Event Logn", "auto start", "(selection1 and (selection2 and ( selection3 or selection4 )))", true);
}

#[test]
fn test_condition_manyparenthesis_notdetect4() {
    check_four("Windows Event Logn", "auto startn", "(selection1 and (selection2 and ( selection3 or selection4 )))", false);
}

#[test]
fn test_condition_1_of_select_detect() {
    check_three(("System", "7040", "Windows Event Log"), "1 of selection*", true);
}

#[test]
fn test_condition_1_of_select_not_detect() {
    check_three(("NODETECT", "9999", "NODETECT"), "1 of selection*", false);
}

#[test]
fn test_condition_all_of_select_detect() {
    check_three(("System", "7040", "Windows Event Log"), "all of selection*", true);
}

#[test]
fn test_condition_all_of_select_not_detect() {
    check_three(("NOTDETECT", "7040", "Windows Event Log"), "all of selection*", false);
}

#[test]
fn test_condition_complex_of_selection() {
    let sels: [Sel; 6] = [
        ("selection", &[("Channel", &["System"]), ("EventID", &["7045"])]),
        ("suspicious1", &[("ImagePath|contains", &["A", "B"])]),
        ("suspicious2a", &[("ImagePath|contains", &["C"])]),
        ("suspicious2b", &[("ImagePath|contains", &["D", "E"])]),
        ("filter_thor_remote", &[("ImagePath|startswith", &["F"])]),
        ("filter_defender_def_updates", &[("ImagePath|startswith", &["G"])]),
    ];
    let rec = record(&[
        ("Event.System.EventID", "7045"),
        ("Event.System.Channel", "System"),
        ("Event.EventData.ImagePath", "A B C D E F G"),
    ]);
    let cases = [
        ("selection and all of suspicious2* and not 1 of filter_*", true),
        ("selection and ( suspicious1 or all of suspicious2* ) and not 1 of filter_*", true),
        ("selection and ( suspicious1 or all of suspicious2* ) and 1 of filter_*", false),
        ("selection and not ( suspicious1 or all of suspicious2* ) and not 1 of filter_*", false),
        ("selection and not ( suspicious1 or all of suspicious2* ) and 1 of filter_*", false),
        ("selection and ( suspicious1 and not all of suspicious2* ) and 1 of filter_*", false),
    ];
    for (c, expect) in cases {
        check_select(&sels, Some(c), &rec, expect);
    }
}

#[test]
fn scenario_simple_match_on_record() {
    let sels: [Sel; 1] = [("selection", &[("Channel", &["System"]), ("EventID", &["7040"])])];
    check_select(&sels, Some("selection"), &simple_record(), true);
}

#[test]
fn scenario_negation_on_record() {
    let sels: [Sel; 1] = [("selection", &[("Channel", &["System"])])];
    let other = record(&[("Event.System.Channel", "Other")]);
    check_select(&sels, Some("not selection"), &other, true);
    check_select(&sels, Some("not selection"), &simple_record(), false);
}

#[test]
fn missing_field_does_not_match() {
    let sels: [Sel; 1] = [("selection", &[("Computer", &["host"])])];
    check_select(&sels, None, &simple_record(), false);
    check_select(&sels, Some("not selection"), &simple_record(), true);
}

#[test]
fn multiple_selections_without_condition_are_rejected() {
    let sels: [Sel; 2] = [
        ("selection", &[("Channel", &["System"])]),
        ("selection2", &[("param1", &["Windows Event Log"])]),
    ];
    let r = detection(&sels, None);
    assert_eq!(r.err(), Some(vec!["There is no condition node under detection.".to_string()]));
}

#[test]
fn empty_selection_is_rejected() {
    assert!(SelectionNode::compile("selection".to_string(), vec![]).is_err());
    assert!(Detection::new(vec![], Some("selection")).is_err());
}

fn matcher(key: &str, patterns: &[&str]) -> hayabusa::selection::FieldMatcher {
    compile_field(key, patterns.iter().map(|p| p.to_string()).collect()).expect("field compiles")
}

#[test]
fn modifiers_compile() {
    let m = matcher("CommandLine|contains|all", &["a", "b"]);
    assert_eq!(m.field, "CommandLine");
    assert_eq!(m.kind, MatchKind::Contains);
    assert!(m.all);
    assert!(!m.cased);
    assert!(compile_field("CommandLine|bogus", vec!["x".to_string()]).is_err());
    assert!(compile_field("CommandLine|base64offset", vec!["x".to_string()]).is_err());
    assert!(compile_field("CommandLine|re", vec!["(".to_string()]).is_err());
}

#[test]
fn matching_ignores_case_unless_cased() {
    let v = "C:\\Windows\\System32\\CMD.exe".to_string();
    assert!(value_matches(&matcher("Image|endswith", &["\\cmd.exe"]), &v));
    assert!(!value_matches(&matcher("Image|endswith|cased", &["\\cmd.exe"]), &v));
    assert!(value_matches(&matcher("Image|startswith", &["c:\\windows"]), &v));
    assert!(value_matches(&matcher("Image", &["c:\\windows\\system32\\cmd.exe"]), &v));
    assert!(!value_matches(&matcher("Image", &["cmd.exe"]), &v));
}

#[test]
fn wildcards_and_all() {
    let v = "powershell -enc AAAA".to_string();
    assert!(value_matches(&matcher("CommandLine", &["*-enc*"]), &v));
    assert!(value_matches(&matcher("CommandLine", &["power?hell*"]), &v));
    assert!(!value_matches(&matcher("CommandLine", &["*-nop*"]), &v));
    assert!(value_matches(&matcher("CommandLine|contains|all", &["-enc", "power"]), &v));
    assert!(!value_matches(&matcher("CommandLine|contains|all", &["-enc", "-nop"]), &v));
    assert!(value_matches(&matcher("CommandLine|contains", &["-enc", "-nop"]), &v));
}

#[test]
fn numeric_and_regex_modifiers() {
    let v = "4624".to_string();
    assert!(value_matches(&matcher("EventID|gt", &["4000"]), &v));
    assert!(!value_matches(&matcher("EventID|lt", &["4000"]), &v));
    assert!(value_matches(&matcher("EventID|ge", &["4624"]), &v));
    assert!(value_matches(&matcher("EventID|le", &["4624"]), &v));
    assert!(!value_matches(&matcher("EventID|gt", &["abc"]), &v));
    assert!(value_matches(&matcher("EventID|re", &["46[0-9]+"]), &v));
    assert!(!value_matches(&matcher("EventID|re", &["46"]), &v));
    let w = "Mimikatz".to_string();
    assert!(value_matches(&matcher("Tool|re", &["mimi.*"]), &w));
    assert!(!value_matches(&matcher("Tool|re|cased", &["mimi.*"]), &w));
}

#[test]
fn alias_file_lines() {
    let lines: Vec<String> = [
        "alias,event_key",
        "EventID,Event.System.EventID",
        "Channel,Event.System.Channel",
        "broken line",
        "a,b,c",
        ",Event.System.Computer",
        "EventID,Event.EventData.EventID",
    ]
    .iter()
    .map(|s| s.to_string())
    .collect();
    let table = hayabusa::rule::load_eventkey_alias(&lines);
    let rec = record(&[("Event.EventData.EventID", "1"), ("Event.System.Channel", "Sec")]);
    assert_eq!(table.get(&"EventID".to_string(), &rec), Some("1".to_string()));
    assert_eq!(table.get(&"Channel".to_string(), &rec), Some("Sec".to_string()));
    assert_eq!(table.pairs.len(), 3);
}

#[test]
fn selection_compile_reports_a_bad_entry() {
    let ok = hayabusa::rule::SelectionNode::compile(
        "s".to_string(),
        vec![
            ("Channel".to_string(), vec!["System".to_string()]),
            ("Image|endswith".to_string(), vec!["a.exe".to_string()]),
        ],
    )
    .unwrap();
    assert_eq!(ok.matchers.len(), 2);
    assert_eq!(ok.matchers[1].field, "Image");
    let bad = hayabusa::rule::SelectionNode::compile(
        "s".to_string(),
        vec![
            ("Channel".to_string(), vec!["System".to_string()]),
            ("Image|nosuchmodifier".to_string(), vec!["a.exe".to_string()]),
        ],
    );
    assert!(bad.is_err());
}
