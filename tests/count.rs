use hayabusa::count::{
    aggregation_condition_select, get_sec_timeframe, get_str_agg_eq, judge_timeframe,
    select_aggcon, AggRecordTimeInfo, AggResult, AggregationConditionToken, AggregationParseInfo,
    CountData, TimeFrameInfo,
};

/// 1977-01-09T00:00:00Z in seconds since the epoch.
const DAY: i64 = 221_616_000;

fn at(hour: i64, minute: i64) -> i64 {
    DAY + hour * 3600 + minute * 60
}

fn obs(value: &str, time: i64) -> AggRecordTimeInfo {
    AggRecordTimeInfo { field_record_value: value.to_string(), record_time: time }
}

fn agg(field: Option<&str>, op: AggregationConditionToken, num: i64) -> AggregationParseInfo {
    AggregationParseInfo {
        _field_name: field.map(|f| f.to_string()),
        _by_field_name: None,
        _cmp_op: op,
        _cmp_num: num,
    }
}

fn sorted_values(r: &AggResult) -> Vec<String> {
    let mut v = r.field_values.clone();
    v.sort();
    v
}

#[test]
fn select_aggcon_compares() {
    let ge = agg(None, AggregationConditionToken::GE, 3);
    assert!(select_aggcon(3, &ge));
    assert!(!select_aggcon(2, &ge));
    assert!(select_aggcon(3, &agg(None, AggregationConditionToken::EQ, 3)));
    assert!(!select_aggcon(4, &agg(None, AggregationConditionToken::EQ, 3)));
    assert!(select_aggcon(4, &agg(None, AggregationConditionToken::GT, 3)));
    assert!(!select_aggcon(3, &agg(None, AggregationConditionToken::GT, 3)));
    assert!(select_aggcon(3, &agg(None, AggregationConditionToken::LE, 3)));
    assert!(select_aggcon(2, &agg(None, AggregationConditionToken::LT, 3)));
    assert!(!select_aggcon(3, &agg(None, AggregationConditionToken::LT, 3)));
    assert!(!select_aggcon(3, &agg(None, AggregationConditionToken::BY, 3)));
}

#[test]
fn str_agg_eq_texts() {
    assert_eq!(get_str_agg_eq(&agg(None, AggregationConditionToken::GE, 3)), ">= 3");
    assert_eq!(get_str_agg_eq(&agg(None, AggregationConditionToken::EQ, 10)), "== 10");
    assert_eq!(get_str_agg_eq(&agg(None, AggregationConditionToken::LE, 0)), "<= 0");
    assert_eq!(get_str_agg_eq(&agg(None, AggregationConditionToken::GT, 120)), "> 120");
    assert_eq!(get_str_agg_eq(&agg(None, AggregationConditionToken::LT, -7)), "< -7");
    assert_eq!(get_str_agg_eq(&agg(None, AggregationConditionToken::BY, 1)), "");
}

#[test]
fn timeframe_units() {
    let tf = |s: &str| get_sec_timeframe(&Some(TimeFrameInfo::parse_tframe(s.to_string())));
    assert_eq!(tf("2h"), Some(7200));
    assert_eq!(tf("30m"), Some(1800));
    assert_eq!(tf("15s"), Some(15));
    assert_eq!(tf("3d"), Some(259200));
    assert_eq!(tf("45"), None);
    assert_eq!(tf("-5s"), None);
    assert_eq!(tf("0m"), None);
    assert_eq!(tf("h2"), None);
    assert_eq!(tf("2hh"), None);
    assert_eq!(tf("s5"), None);
    assert_eq!(tf("+5s"), None);
    assert_eq!(tf("1h30m"), None);
    assert_eq!(tf("xh"), None);
    assert_eq!(tf("99999999999999999d"), None);
    assert_eq!(get_sec_timeframe(&None), None);
    let info = TimeFrameInfo::parse_tframe("2h".to_string());
    assert_eq!(info.timetype, "h");
    assert_eq!(info.timenum, Some(2));
}

#[test]
fn scenario_count_without_timeframe() {
    // condition: selection | count() >= 2, two matching records
    let a = agg(None, AggregationConditionToken::GE, 2);
    let data = vec![obs("", at(5, 0)), obs("", at(1, 0))];
    let r = judge_timeframe(&a, None, &data, &"_".to_string());
    assert_eq!(r.len(), 1);
    assert_eq!(r[0].start_timedate, at(1, 0));
    assert_eq!(r[0].data, 2);
    assert_eq!(r[0].condition_op_num, ">= 2");
}

#[test]
fn count_without_timeframe_emits_at_most_one() {
    let a = agg(None, AggregationConditionToken::GE, 2);
    let data: Vec<AggRecordTimeInfo> = (0..7).map(|i| obs("", at(i, 0))).collect();
    let r = judge_timeframe(&a, None, &data, &"_".to_string());
    assert_eq!(r.len(), 1);
    let r = judge_timeframe(&a, None, &data[..1].to_vec(), &"_".to_string());
    assert_eq!(r.len(), 0);
}

#[test]
fn test_count_timeframe() {
    // count(EventID) >= 3 with timeframe 2h
    let a = agg(Some("EventID"), AggregationConditionToken::GE, 3);
    let data = vec![obs("1", at(0, 30)), obs("1", at(1, 30)), obs("2", at(2, 30)), obs("3", at(3, 30))];
    let r = judge_timeframe(&a, Some(7200), &data, &"_".to_string());
    assert_eq!(r.len(), 1);
    assert_eq!(r[0].data, 3);
    assert_eq!(r[0].key, "_");
    assert_eq!(r[0].start_timedate, at(1, 30));
    assert_eq!(sorted_values(&r[0]), vec!["1", "2", "3"]);
    assert_eq!(r[0].condition_op_num, ">= 3");
}

#[test]
fn test_count_timeframe2() {
    let a = agg(Some("EventID"), AggregationConditionToken::GE, 3);
    let data = vec![
        obs("1", at(0, 30)),
        obs("1", at(1, 30)),
        obs("2", at(2, 30)),
        obs("2", at(3, 30)),
        obs("3", at(4, 30)),
        obs("4", at(5, 30)),
        obs("1", at(19, 0)),
        obs("1", at(20, 0)),
        obs("3", at(21, 0)),
        obs("4", at(22, 0)),
    ];
    let r = judge_timeframe(&a, Some(7200), &data, &"_".to_string());
    assert_eq!(r.len(), 2);
    assert_eq!(r[0].start_timedate, at(3, 30));
    assert_eq!(r[0].data, 3);
    assert_eq!(sorted_values(&r[0]), vec!["2", "3", "4"]);
    assert_eq!(r[1].start_timedate, at(20, 0));
    assert_eq!(r[1].data, 3);
    assert_eq!(sorted_values(&r[1]), vec!["1", "3", "4"]);
}

#[test]
fn scenario_count_by_key_with_timeframe() {
    // count(EventID) by Channel >= 3, timeframe 2h, all on channel S
    let a = AggregationParseInfo {
        _field_name: Some("EventID".to_string()),
        _by_field_name: Some("Channel".to_string()),
        _cmp_op: AggregationConditionToken::GE,
        _cmp_num: 3,
    };
    let mut cd = CountData::new();
    for (v, t) in [("1", at(0, 30)), ("1", at(1, 30)), ("2", at(2, 30)), ("3", at(3, 30))] {
        cd.countup("S".to_string(), v.to_string(), t);
    }
    let r = aggregation_condition_select(&cd, &a, Some(7200));
    assert_eq!(r.len(), 1);
    assert_eq!(r[0].key, "S");
    assert_eq!(r[0].start_timedate, at(1, 30));
    assert_eq!(sorted_values(&r[0]), vec!["1", "2", "3"]);
}

#[test]
fn scenario_disjoint_windows_without_field() {
    // count() >= 3 with timeframe 2h: each reported window is consumed
    // whole before the sweep starts again after it
    let a = agg(None, AggregationConditionToken::GE, 3);
    let times = [
        at(0, 30),
        at(1, 30),
        at(2, 30),
        at(3, 30),
        at(4, 30),
        at(5, 30),
        at(19, 0),
        at(20, 0),
        at(21, 0),
        at(22, 0),
    ];
    let data: Vec<AggRecordTimeInfo> = times.iter().map(|t| obs("", *t)).collect();
    let r = judge_timeframe(&a, Some(7200), &data, &"_".to_string());
    let starts: Vec<i64> = r.iter().map(|x| x.start_timedate).collect();
    assert_eq!(starts, vec![at(0, 30), at(3, 30), at(19, 0)]);
    assert!(r.iter().all(|x| x.data == 3));
}

#[test]
fn slots_keep_their_keys() {
    let a = agg(Some("EventID"), AggregationConditionToken::GE, 1);
    let mut cd = CountData::new();
    cd.countup("System".to_string(), "7040".to_string(), at(0, 0));
    cd.countup("Test".to_string(), "9999".to_string(), at(0, 5));
    cd.countup("System".to_string(), "7040".to_string(), at(0, 10));
    assert_eq!(cd.slots.len(), 2);
    assert_eq!(cd.slots[0].records.len(), 2);
    let r = aggregation_condition_select(&cd, &a, None);
    assert_eq!(r.len(), 2);
    assert_eq!(r[0].key, "System");
    assert_eq!(r[0].field_values, vec!["7040".to_string()]);
    assert_eq!(r[1].key, "Test");
    assert_eq!(r[1].field_values, vec!["9999".to_string()]);
}

#[test]
fn zero_threshold_ge_reports_every_window() {
    let a = agg(None, AggregationConditionToken::GE, 0);
    let data = vec![obs("", at(0, 0)), obs("", at(0, 30)), obs("", at(5, 0)), obs("", at(9, 0))];
    let r = judge_timeframe(&a, Some(3600), &data, &"_".to_string());
    let starts: Vec<i64> = r.iter().map(|x| x.start_timedate).collect();
    assert_eq!(starts, vec![at(0, 0), at(5, 0), at(9, 0)]);
    assert_eq!(judge_timeframe(&a, None, &data, &"_".to_string()).len(), 1);
}

#[test]
fn zero_threshold_gt_needs_one_observation() {
    let a = agg(None, AggregationConditionToken::GT, 0);
    let data = vec![obs("", at(0, 0))];
    assert_eq!(judge_timeframe(&a, Some(60), &data, &"_".to_string()).len(), 1);
    assert_eq!(judge_timeframe(&a, None, &data, &"_".to_string()).len(), 1);
    assert_eq!(judge_timeframe(&a, Some(60), &vec![], &"_".to_string()).len(), 0);
}

#[test]
fn zero_timeframe_groups_equal_times_only() {
    let a = agg(None, AggregationConditionToken::GE, 2);
    let data = vec![obs("", at(1, 0)), obs("", at(1, 0)), obs("", at(1, 1)), obs("", at(2, 0))];
    let r = judge_timeframe(&a, Some(0), &data, &"_".to_string());
    assert_eq!(r.len(), 1);
    assert_eq!(r[0].start_timedate, at(1, 0));
    assert_eq!(r[0].data, 2);
}

#[test]
fn empty_field_value_counts_but_is_not_listed() {
    let a = agg(Some("User"), AggregationConditionToken::GE, 2);
    let data = vec![obs("alice", at(0, 0)), obs("", at(0, 1))];
    let r = judge_timeframe(&a, Some(600), &data, &"k".to_string());
    assert_eq!(r.len(), 1);
    assert_eq!(r[0].data, 2);
    assert_eq!(r[0].field_values, vec!["alice".to_string()]);
}

#[test]
fn rerun_gives_same_results() {
    let a = agg(Some("EventID"), AggregationConditionToken::GE, 2);
    let data = vec![obs("1", at(0, 0)), obs("2", at(0, 10)), obs("3", at(4, 0)), obs("4", at(4, 5))];
    let r1 = judge_timeframe(&a, Some(3600), &data, &"_".to_string());
    let r2 = judge_timeframe(&a, Some(3600), &data, &"_".to_string());
    assert_eq!(r1.len(), r2.len());
    for (x, y) in r1.iter().zip(r2.iter()) {
        assert_eq!(x.start_timedate, y.start_timedate);
        assert_eq!(x.field_values, y.field_values);
        assert_eq!(x.data, y.data);
    }
}

#[test]
fn slots_come_out_in_key_order() {
    let a = agg(Some("EventID"), AggregationConditionToken::GE, 1);
    let mut cd = CountData::new();
    cd.countup("b".to_string(), "2".to_string(), at(0, 0));
    cd.countup("a".to_string(), "1".to_string(), at(0, 5));
    cd.countup("ab".to_string(), "3".to_string(), at(0, 6));
    cd.countup("b".to_string(), "4".to_string(), at(0, 7));
    let keys: Vec<&str> = cd.slots.iter().map(|s| s.key.as_str()).collect();
    assert_eq!(keys, vec!["a", "ab", "b"]);
    assert_eq!(cd.slots[2].records.len(), 2);
    let r = aggregation_condition_select(&cd, &a, None);
    assert_eq!(r.len(), 3);
    assert_eq!(r[0].key, "a");
    assert_eq!(r[1].key, "ab");
    assert_eq!(r[2].key, "b");
}
