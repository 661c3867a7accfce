use chrono::{DateTime, Utc};
use hayabusa::filter::{get_target_extensions, load_target_ids, TargetEventIds, TargetEventTime};

fn secs(s: &str) -> Option<i64> {
    Some(s.parse::<DateTime<Utc>>().unwrap().timestamp())
}

#[test]
fn target_event_time_filter() {
    let start_time = secs("2018-02-20T12:00:09Z");
    let end_time = secs("2020-03-30T12:00:09Z");
    let time_filter = TargetEventTime::set(true, start_time, end_time);

    let out_of_range1 = secs("1999-01-01T12:00:09Z");
    let within_range = secs("2019-02-27T01:05:01Z");
    let out_of_range2 = secs("2021-02-27T01:05:01Z");

    assert!(!time_filter.is_target(&out_of_range1));
    assert!(time_filter.is_target(&within_range));
    assert!(!time_filter.is_target(&out_of_range2));
}

#[test]
fn target_event_time_filter_containes_on_time() {
    let start_time = secs("2018-02-20T12:00:09Z");
    let end_time = secs("2020-03-30T12:00:09Z");
    let time_filter = TargetEventTime::set(true, start_time, end_time);

    assert!(time_filter.is_target(&start_time));
    assert!(time_filter.is_target(&end_time));
    assert!(time_filter.is_target(&None));
    assert!(time_filter.is_parse_success());
}

#[test]
fn test_get_target_extensions() {
    let data = vec!["evtx_data".to_string(), "evtx_stars".to_string()];
    let arg = Some(&data);
    let ret = get_target_extensions(arg, false);
    let expect = ["evtx", "evtx_data", "evtx_stars"];
    assert_eq!(ret.len(), expect.len());
    for contents in expect.iter() {
        assert!(ret.contains(&contents.to_string()));
    }
}

#[test]
fn no_target_extensions() {
    let ret = get_target_extensions(None, false);
    assert_eq!(ret, vec!["evtx".to_string()]);
    let ret = get_target_extensions(Some(&vec!["json".to_string(), "json".to_string()]), true);
    assert_eq!(ret, vec!["json".to_string()]);
}

#[test]
fn target_ids() {
    let all = TargetEventIds::new();
    assert!(all.is_target(&"4624".to_string()));
    let ids = load_target_ids(&vec!["4624".to_string(), String::new(), "4625".to_string()]);
    assert!(ids.is_target(&"4625".to_string()));
    assert!(!ids.is_target(&"1".to_string()));
}
