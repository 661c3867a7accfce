use chrono::{DateTime, TimeZone, Utc};
use hayabusa::aggregation::parse_aggregation;
use hayabusa::condition::aggregation_part;
use hayabusa::count::{get_sec_timeframe, AggResult, TimeFrameInfo};
use hayabusa::engine::RuleNode;
use hayabusa::rule::{Detection, EventRecord, FieldAliases, SelectionNode};

fn aliases() -> FieldAliases {
    FieldAliases {
        pairs: vec![
            ("Channel".to_string(), "Event.System.Channel".to_string()),
            ("EventID".to_string(), "Event.System.EventID".to_string()),
            ("param1".to_string(), "Event.EventData.param1".to_string()),
        ],
    }
}

fn ts(y: i32, mo: u32, d: u32, h: u32, mi: u32, s: u32) -> i64 {
    Utc.with_ymd_and_hms(y, mo, d, h, mi, s).unwrap().timestamp()
}

/// A service-control record at 1977-01-01T00:00:00Z.
fn simple() -> (EventRecord, Option<i64>) {
    (
        EventRecord {
            fields: vec![
                ("Event.System.EventID".to_string(), "7040".to_string()),
                ("Event.System.Channel".to_string(), "System".to_string()),
                ("Event.EventData.param1".to_string(), "Windows Event Log".to_string()),
                ("Event.EventData.param2".to_string(), "auto start".to_string()),
            ],
        },
        Some(ts(1977, 1, 1, 0, 0, 0)),
    )
}

fn other(eid: &str, channel: &str, param1: &str, time: i64) -> (EventRecord, Option<i64>) {
    (
        EventRecord {
            fields: vec![
                ("Event.System.EventID".to_string(), eid.to_string()),
                ("Event.System.Channel".to_string(), channel.to_string()),
                ("Event.EventData.param1".to_string(), param1.to_string()),
            ],
        },
        Some(time),
    )
}

fn rule(sels: &[(&str, &[(&str, &str)])], condition: &str, timeframe: Option<&str>) -> RuleNode {
    let nodes = sels
        .iter()
        .map(|(name, entries)| {
            SelectionNode::compile(
                name.to_string(),
                entries.iter().map(|(k, v)| (k.to_string(), vec![v.to_string()])).collect(),
            )
            .unwrap()
        })
        .collect();
    let detection = Detection::new(nodes, Some(condition)).unwrap();
    let agg = aggregation_part(condition).map(|p| parse_aggregation(&p).unwrap());
    let tf = timeframe.and_then(|t| get_sec_timeframe(&Some(TimeFrameInfo::parse_tframe(t.to_string()))));
    RuleNode::new(
        "testpath".to_string(),
        String::new(),
        String::new(),
        "high".to_string(),
        String::new(),
        detection,
        agg,
        tf,
    )
}

/// Feeds the records, each of which must satisfy the rule, and compares
/// the slot sizes and the aggregation results.
fn check_count(
    mut r: RuleNode,
    records: Vec<(EventRecord, Option<i64>)>,
    expected_counts: &[(&str, usize)],
    expected: &[(i64, &str, &[&str], i64)],
) {
    for (rec, t) in &records {
        assert!(r.select(&aliases(), rec, *t));
    }
    for (key, n) in expected_counts {
        let slot = r.countdata.slots.iter().find(|s| s.key == *key).expect("slot exists");
        assert_eq!(slot.records.len(), *n);
    }
    let results: Vec<AggResult> = r.judge_satisfy_aggcondition();
    assert_eq!(results.len(), expected.len());
    for (data, key, values, start) in expected {
        let found = results.iter().find(|x| x.start_timedate == *start && x.key == *key).expect("result");
        assert_eq!(found.data, *data);
        assert_eq!(found.field_values.len(), values.len());
        for v in values.iter() {
            assert!(found.field_values.contains(&v.to_string()));
        }
    }
}

const SEL3: [(&str, &[(&str, &str)]); 3] = [
    ("selection1", &[("Channel", "System")]),
    ("selection2", &[("EventID", "7040")]),
    ("selection3", &[("param1", "Windows Event Log")]),
];

#[test]
fn test_count_no_field_and_by() {
    let r = rule(&SEL3, "selection1 and selection2 and selection3 | count() >= 1", None);
    let second = (simple().0, Some(ts(1996, 2, 27, 1, 5, 1)));
    check_count(r, vec![simple(), second], &[("_", 2)], &[(2, "_", &[], ts(1977, 1, 1, 0, 0, 0))]);
}

#[test]
fn test_count_no_field_and_by_with_timeframe() {
    let r = rule(&SEL3, "selection1 and selection2 and selection3 | count() >= 1", Some("15m"));
    let second = (simple().0, Some(ts(1996, 2, 27, 1, 5, 1)));
    check_count(
        r,
        vec![simple(), second],
        &[("_", 2)],
        &[(1, "_", &[], ts(1977, 1, 1, 0, 0, 0)), (1, "_", &[], ts(1996, 2, 27, 1, 5, 1))],
    );
}

#[test]
fn test_count_exist_field() {
    let r = rule(&SEL3, "selection1 and selection2 and selection3 | count(Channel) >= 1", None);
    check_count(r, vec![simple()], &[("_", 1)], &[(1, "_", &["System"], ts(1977, 1, 1, 0, 0, 0))]);
}

#[test]
fn test_count_exist_field_and_by() {
    let r = rule(
        &[("selection1", &[("param1", "Windows Event Log")])],
        "selection1 | count(EventID) by Channel >= 1",
        None,
    );
    let rec = other("9999", "Test", "Windows Event Log", ts(1996, 2, 27, 1, 5, 1));
    check_count(
        r,
        vec![simple(), rec],
        &[("System", 1), ("Test", 1)],
        &[(1, "System", &["7040"], ts(1977, 1, 1, 0, 0, 0)), (1, "Test", &["9999"], ts(1996, 2, 27, 1, 5, 1))],
    );
}

#[test]
fn test_count_exist_field_and_by_with_othervalue_in_timeframe() {
    let r = rule(
        &[("selection1", &[("Channel", "System")])],
        "selection1 | count(EventID) by param1 >= 1",
        Some("1h"),
    );
    let rec = other("9999", "System", "Test", ts(1977, 1, 1, 0, 5, 0));
    check_count(
        r,
        vec![simple(), rec],
        &[("Windows Event Log", 1), ("Test", 1)],
        &[
            (1, "Windows Event Log", &["7040"], ts(1977, 1, 1, 0, 0, 0)),
            (1, "Test", &["9999"], ts(1977, 1, 1, 0, 5, 0)),
        ],
    );
}

#[test]
fn test_count_not_satisfy_in_timeframe() {
    let r = rule(&[("selection1", &[("Channel", "System")])], "selection1 | count(EventID) >= 2", Some("1h"));
    let rec = other("7040", "System", "x", ts(1977, 1, 1, 1, 5, 0));
    check_count(r, vec![simple(), rec], &[("_", 2)], &[]);
}

#[test]
fn test_count_exist_field_and_by_with_timeframe() {
    let r = rule(
        &[("selection1", &[("param1", "Windows Event Log")])],
        "selection1 | count(EventID) by Channel >= 2",
        Some("30m"),
    );
    let rec = other("9999", "System", "Windows Event Log", ts(1977, 1, 1, 0, 5, 0));
    check_count(r, vec![simple(), rec], &[("System", 2)], &[(2, "System", &["7040", "9999"], ts(1977, 1, 1, 0, 0, 0))]);
}

#[test]
fn test_count_exist_field_and_by_with_timeframe_other_field_value() {
    let r = rule(
        &[("selection1", &[("param1", "Windows Event Log")])],
        "selection1 | count(EventID) by Channel >= 1",
        Some("1h"),
    );
    let rec = other("9999", "System", "Windows Event Log", ts(1977, 1, 1, 0, 30, 0));
    check_count(r, vec![simple(), rec], &[("System", 2)], &[(2, "System", &["7040", "9999"], ts(1977, 1, 1, 0, 0, 0))]);
}

#[test]
fn aggregating_rule_skips_records_without_time() {
    let mut r = rule(&SEL3, "selection1 and selection2 and selection3 | count() >= 1", None);
    assert!(r.select(&aliases(), &simple().0, None));
    assert!(r.countdata.slots.is_empty());
    assert!(r.judge_satisfy_aggcondition().is_empty());
}

#[test]
fn rfc3339_times_become_epoch_seconds() {
    let t: DateTime<Utc> = "1977-01-09T00:30:00Z".parse().unwrap();
    assert_eq!(t.timestamp(), 221_617_800);
}
