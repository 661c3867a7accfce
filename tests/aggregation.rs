use hayabusa::aggregation::parse_aggregation;
use hayabusa::alert::{AlertRow, AlertStore};
use hayabusa::condition::aggregation_part;
use hayabusa::count::{count, create_count_key, AggregationConditionToken, AggregationParseInfo, CountData};
use hayabusa::rule::{EventRecord, FieldAliases};

#[test]
fn parse_count_without_field() {
    let a = parse_aggregation(" count() >= 2").expect("parses");
    assert!(a._field_name.is_none());
    assert!(a._by_field_name.is_none());
    assert!(matches!(a._cmp_op, AggregationConditionToken::GE));
    assert_eq!(a._cmp_num, 2);
}

#[test]
fn parse_count_with_field_and_key() {
    let a = parse_aggregation("count(EventID) by Channel >= 3").expect("parses");
    assert_eq!(a._field_name.as_deref(), Some("EventID"));
    assert_eq!(a._by_field_name.as_deref(), Some("Channel"));
    assert!(matches!(a._cmp_op, AggregationConditionToken::GE));
    assert_eq!(a._cmp_num, 3);
    let b = parse_aggregation(" count( User )  by Computer<5 ").expect("parses");
    assert_eq!(b._field_name.as_deref(), Some("User"));
    assert_eq!(b._by_field_name.as_deref(), Some("Computer"));
    assert!(matches!(b._cmp_op, AggregationConditionToken::LT));
    assert_eq!(b._cmp_num, 5);
    assert!(matches!(parse_aggregation("count() == 0").unwrap()._cmp_op, AggregationConditionToken::EQ));
    assert!(matches!(parse_aggregation("count() <= 1").unwrap()._cmp_op, AggregationConditionToken::LE));
    assert!(matches!(parse_aggregation("count() > 1").unwrap()._cmp_op, AggregationConditionToken::GT));
}

#[test]
fn parse_rejects_bad_aggregations() {
    assert!(parse_aggregation("sum(x) > 1").is_err());
    assert!(parse_aggregation("count( > 1").is_err());
    assert!(parse_aggregation("count() >").is_err());
    assert!(parse_aggregation("count() >= -1").is_err());
    assert!(parse_aggregation("count() >= 1 extra").is_err());
    assert!(parse_aggregation("count() by >= 1").is_err());
    assert!(parse_aggregation("count() >= 99999999999999999999").is_err());
}

#[test]
fn aggregation_part_of_condition() {
    assert_eq!(aggregation_part("selection | count() >= 2"), Some(" count() >= 2".to_string()));
    assert_eq!(aggregation_part("selection"), None);
}

fn row(t: i64, eid: &str, rule: &str) -> AlertRow {
    AlertRow {
        timestamp: t,
        event_id: eid.to_string(),
        channel: "Security".to_string(),
        computer: "host".to_string(),
        rule_id: rule.to_string(),
        rule_title: "title".to_string(),
        rule_level: "high".to_string(),
        details: String::new(),
        source_file: "a.evtx".to_string(),
        is_aggregate: false,
    }
}

#[test]
fn alert_store_orders_by_time() {
    let mut store = AlertStore::new();
    store.insert(row(30, "1", "r1"));
    store.insert(row(10, "2", "r1"));
    store.insert(row(20, "3", "r2"));
    store.insert(row(10, "4", "r3"));
    let times: Vec<i64> = store.rows().iter().map(|r| r.timestamp).collect();
    assert_eq!(times, vec![10, 10, 20, 30]);
    // equal times keep the order they were added in
    assert_eq!(store.rows()[0].event_id, "2");
    assert_eq!(store.rows()[1].event_id, "4");
}

#[test]
fn alert_store_drops_duplicates_when_asked() {
    let mut store = AlertStore::new();
    assert!(store.insert_unique(row(10, "1", "r1")));
    assert!(!store.insert_unique(row(10, "1", "r1")));
    assert!(store.insert_unique(row(10, "1", "r2")));
    assert!(store.insert_unique(row(11, "1", "r1")));
    assert_eq!(store.rows().len(), 3);
}

#[test]
fn count_records_observations_by_key() {
    let aliases = FieldAliases {
        pairs: vec![
            ("Channel".to_string(), "Event.System.Channel".to_string()),
            ("EventID".to_string(), "Event.System.EventID".to_string()),
        ],
    };
    let rec = EventRecord {
        fields: vec![
            ("Event.System.Channel".to_string(), "System".to_string()),
            ("Event.System.EventID".to_string(), "7040".to_string()),
        ],
    };
    let agg = AggregationParseInfo {
        _field_name: Some("EventID".to_string()),
        _by_field_name: Some("Channel".to_string()),
        _cmp_op: AggregationConditionToken::GE,
        _cmp_num: 1,
    };
    assert_eq!(create_count_key(&agg, &aliases, &rec), "System");
    let no_by = AggregationParseInfo {
        _field_name: None,
        _by_field_name: Some("Computer".to_string()),
        _cmp_op: AggregationConditionToken::GE,
        _cmp_num: 1,
    };
    assert_eq!(create_count_key(&no_by, &aliases, &rec), "_");
    let mut data = CountData::new();
    count(&mut data, &agg, &aliases, &rec, Some(100));
    count(&mut data, &agg, &aliases, &rec, None);
    count(&mut data, &no_by, &aliases, &rec, Some(200));
    assert_eq!(data.slots.len(), 2);
    assert_eq!(data.slots[0].key, "System");
    assert_eq!(data.slots[0].records.len(), 1);
    assert_eq!(data.slots[0].records[0].field_record_value, "7040");
    assert_eq!(data.slots[1].key, "_");
    assert_eq!(data.slots[1].records[0].field_record_value, "");
}
