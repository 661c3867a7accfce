use hayabusa::pivot::{insert_pivot_keyword, load_pivot_keywords};
use hayabusa::rule::{EventRecord, FieldAliases};

#[test]
fn pivot_keywords_are_grouped_by_key() {
    let lines: Vec<String> = [
        "Users.SubjectUserName",
        "Users.TargetUserName",
        "Ip Addresses.IpAddress",
        "Users.SubjectUserName",
        "no separator here",
        "Hosts.Computer.extra",
    ]
    .iter()
    .map(|s| s.to_string())
    .collect();
    let table = load_pivot_keywords(&lines);
    assert_eq!(table.len(), 3);
    assert_eq!(table[0].0, "Users");
    assert_eq!(table[0].1, vec!["SubjectUserName".to_string(), "TargetUserName".to_string()]);
    assert_eq!(table[1].0, "Ip Addresses");
    assert_eq!(table[1].1, vec!["IpAddress".to_string()]);
    assert_eq!(table[2].0, "Hosts");
    assert_eq!(table[2].1, vec!["Computer".to_string()]);
}

#[test]
fn pivot_keywords_of_no_lines() {
    assert!(load_pivot_keywords(&vec![]).is_empty());
}

fn pivot_fixture(level: &str, ip: &str) -> Vec<(String, Vec<String>)> {
    let table = load_pivot_keywords(&vec!["Ip Addresses.IpAddress".to_string()]);
    let aliases = FieldAliases {
        pairs: vec![("IpAddress".to_string(), "Event.EventData.IpAddress".to_string())],
    };
    let record = EventRecord {
        fields: vec![
            ("Event.System.Level".to_string(), level.to_string()),
            ("Event.EventData.IpAddress".to_string(), ip.to_string()),
        ],
    };
    let mut keywords = Vec::new();
    insert_pivot_keyword(&record, &aliases, &table, &mut keywords);
    keywords
}

fn has_keyword(keywords: &[(String, Vec<String>)], key: &str, value: &str) -> bool {
    keywords.iter().any(|(k, vs)| k == key && vs.iter().any(|v| v == value))
}

#[test]
fn insert_pivot_keyword_local_ip4() {
    assert!(!has_keyword(&pivot_fixture("high", "127.0.0.1"), "Ip Addresses", "127.0.0.1"));
}

#[test]
fn insert_pivot_keyword_ip4() {
    assert!(has_keyword(&pivot_fixture("high", "10.0.0.1"), "Ip Addresses", "10.0.0.1"));
}

#[test]
fn insert_pivot_keyword_ip_empty() {
    assert!(!has_keyword(&pivot_fixture("high", "-"), "Ip Addresses", "-"));
}

#[test]
fn insert_pivot_keyword_local_ip6() {
    assert!(!has_keyword(&pivot_fixture("high", "::1"), "Ip Addresses", "::1"));
}

#[test]
fn insert_pivot_keyword_level_infomational() {
    assert!(!has_keyword(&pivot_fixture("infomational", "10.0.0.2"), "Ip Addresses", "10.0.0.2"));
}

#[test]
fn insert_pivot_keyword_level_low() {
    assert!(has_keyword(&pivot_fixture("low", "10.0.0.1"), "Ip Addresses", "10.0.0.1"));
}

#[test]
fn insert_pivot_keyword_level_none() {
    assert!(!has_keyword(&pivot_fixture("-", "10.0.0.3"), "Ip Addresses", "10.0.0.3"));
}
