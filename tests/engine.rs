use hayabusa::aggregation::parse_aggregation;
use hayabusa::alert::AlertStore;
use hayabusa::engine::{
    detect_batch, flush_rules, is_target_record, render_details, EventInput, RuleNode,
};
use hayabusa::filter::{load_target_ids, TargetEventIds, TargetEventTime};
use hayabusa::rule::{Detection, EventRecord, FieldAliases, SelectionNode};

fn aliases() -> FieldAliases {
    FieldAliases {
        pairs: vec![
            ("Channel".to_string(), "Event.System.Channel".to_string()),
            ("EventID".to_string(), "Event.System.EventID".to_string()),
            ("Computer".to_string(), "Event.System.Computer".to_string()),
        ],
    }
}

fn input(channel: &str, eid: &str, time: Option<i64>) -> EventInput {
    EventInput {
        record: EventRecord {
            fields: vec![
                ("Event.System.Channel".to_string(), channel.to_string()),
                ("Event.System.EventID".to_string(), eid.to_string()),
                ("Event.System.Computer".to_string(), "host1".to_string()),
            ],
        },
        time,
        source_file: "test.evtx".to_string(),
    }
}

fn rule(condition: &str, details: &str) -> RuleNode {
    let sel = SelectionNode::compile(
        "selection".to_string(),
        vec![
            ("Channel".to_string(), vec!["System".to_string()]),
            ("EventID".to_string(), vec!["7040".to_string()]),
        ],
    )
    .unwrap();
    let body = condition.split('|').next().unwrap();
    let detection = Detection::new(vec![sel], Some(body)).unwrap();
    let agg = condition.split_once('|').map(|(_, a)| parse_aggregation(a).unwrap());
    RuleNode::new(
        "rules/test.yml".to_string(),
        "id-1".to_string(),
        "Test rule".to_string(),
        "high".to_string(),
        details.to_string(),
        detection,
        agg,
        None,
    )
}

#[test]
fn scenario_simple_match_gives_one_alert() {
    let mut rules = vec![rule("selection", "Channel: %Channel% on %Computer%, user %User%")];
    let batch = vec![input("System", "7040", Some(50)), input("Other", "7040", Some(60))];
    let mut store = AlertStore::new();
    detect_batch(&mut rules, &batch, &aliases(), &mut store);
    flush_rules(&rules, &mut store);
    assert_eq!(store.rows().len(), 1);
    let row = &store.rows()[0];
    assert_eq!(row.timestamp, 50);
    assert_eq!(row.event_id, "7040");
    assert_eq!(row.rule_id, "id-1");
    assert_eq!(row.details, "Channel: System on host1, user n/a");
    assert!(!row.is_aggregate);
}

#[test]
fn scenario_count_gives_one_aggregate_alert() {
    let mut rules = vec![rule("selection | count() >= 2", "")];
    let batch = vec![input("System", "7040", Some(900)), input("System", "7040", Some(300))];
    let mut store = AlertStore::new();
    detect_batch(&mut rules, &batch, &aliases(), &mut store);
    assert_eq!(store.rows().len(), 0);
    flush_rules(&rules, &mut store);
    assert_eq!(store.rows().len(), 1);
    assert_eq!(store.rows()[0].timestamp, 300);
    assert!(store.rows()[0].is_aggregate);
}

#[test]
fn records_without_time_still_match_plain_rules() {
    let mut rules = vec![rule("selection", "x"), rule("selection | count() >= 1", "")];
    let batch = vec![input("System", "7040", None)];
    let mut store = AlertStore::new();
    detect_batch(&mut rules, &batch, &aliases(), &mut store);
    flush_rules(&rules, &mut store);
    assert_eq!(store.rows().len(), 1);
    assert!(!store.rows()[0].is_aggregate);
}

#[test]
fn rendering_keeps_an_unclosed_percent() {
    let rec = input("System", "7040", None).record;
    assert_eq!(render_details("100% of %EventID", &aliases(), &rec), "100n/aEventID");
    assert_eq!(render_details("id=%EventID%", &aliases(), &rec), "id=7040");
    assert_eq!(render_details("50%", &aliases(), &rec), "50%");
}

#[test]
fn alerts_of_several_rules_come_out_in_time_order() {
    let mut rules = vec![rule("selection", "a"), rule("not selection", "b")];
    let batch = vec![
        input("System", "7040", Some(30)),
        input("Other", "1", Some(10)),
        input("System", "7040", Some(20)),
    ];
    let mut store = AlertStore::new();
    detect_batch(&mut rules, &batch, &aliases(), &mut store);
    let times: Vec<i64> = store.rows().iter().map(|r| r.timestamp).collect();
    assert_eq!(times, vec![10, 20, 30]);
}

#[test]
fn pre_filter_drops_records_without_channel_or_out_of_range() {
    let ch = "Channel".to_string();
    let eid = "EventID".to_string();
    let all_ids = TargetEventIds::new();
    let range = TargetEventTime::set(true, Some(100), Some(200));
    let ok = input("System", "7040", Some(150));
    assert!(is_target_record(&ok, &aliases(), &ch, &eid, false, &all_ids, &range, false));
    let late = input("System", "7040", Some(201));
    assert!(!is_target_record(&late, &aliases(), &ch, &eid, false, &all_ids, &range, false));
    assert!(is_target_record(&late, &aliases(), &ch, &eid, false, &all_ids, &range, true));
    let no_channel = EventInput {
        record: EventRecord { fields: vec![("Event.System.EventID".to_string(), "1".to_string())] },
        time: Some(150),
        source_file: "x".to_string(),
    };
    assert!(!is_target_record(&no_channel, &aliases(), &ch, &eid, false, &all_ids, &range, false));
    let ids = load_target_ids(&vec!["4624".to_string()]);
    assert!(!is_target_record(&ok, &aliases(), &ch, &eid, true, &ids, &range, false));
    assert!(is_target_record(&ok, &aliases(), &ch, &eid, false, &ids, &range, false));
    let listed = input("System", "4624", Some(150));
    assert!(is_target_record(&listed, &aliases(), &ch, &eid, true, &ids, &range, false));
}
