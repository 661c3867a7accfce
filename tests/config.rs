use hayabusa::config::{Action, CommonOptions, Config, EventInfo, UpdateOption, check_thread_number};

#[test]
fn action_numbers_and_names() {
    let update = Action::UpdateRules(UpdateOption {
        common_options: CommonOptions { no_color: false, quiet: false },
        rules: "./rules".to_string(),
    });
    assert_eq!(Action::to_usize(Some(&update)), 5);
    assert_eq!(Action::get_action_name(Some(&update)), "update-rules");
    let list = Action::ListProfiles(CommonOptions { no_color: true, quiet: true });
    assert_eq!(Action::to_usize(Some(&list)), 9);
    assert_eq!(Action::get_action_name(Some(&list)), "list-profiles");
    assert_eq!(Action::to_usize(None), 100);
    assert_eq!(Action::get_action_name(None), "");
    let config = Config { action: Some(update), debug: false };
    assert_eq!(check_thread_number(&config), None);
}

#[test]
fn event_info_defaults_to_unknown() {
    assert_eq!(EventInfo::new().evttitle, "Unknown");
}

#[test]
fn default_details_are_keyed_by_provider_and_event_id() {
    let lines = vec![
        " Microsoft-Windows-Sysmon , 1 , Cmd: %CommandLine% ".to_string(),
        "Security,4624,User: %TargetUserName%".to_string(),
        "Security,notanumber,X".to_string(),
        "System,7040,never read".to_string(),
    ];
    let t = hayabusa::config::load_default_details(&lines);
    assert_eq!(
        t,
        vec![
            ("Microsoft-Windows-Sysmon_1".to_string(), "Cmd: %CommandLine%".to_string()),
            ("Security_4624".to_string(), "User: %TargetUserName%".to_string()),
        ]
    );
    let short = vec!["Security,4624".to_string()];
    assert!(hayabusa::config::load_default_details(&short).is_empty());
}

#[test]
fn event_time_text_takes_the_first_path_present() {
    let rec = |pairs: &[(&str, &str)]| hayabusa::rule::EventRecord {
        fields: pairs.iter().map(|(k, v)| (k.to_string(), v.to_string())).collect(),
    };
    let both = rec(&[
        ("Event.EventData.@timestamp", "2020-01-01T00:00:00Z"),
        ("Event.System.TimeCreated_attributes.SystemTime", "2021-01-01T00:00:00Z"),
    ]);
    assert_eq!(hayabusa::rule::event_time_text(&both), Some("2021-01-01T00:00:00Z".to_string()));
    let generated = rec(&[("Event.EventData.TimeGenerated", "2019-05-05T00:00:00Z")]);
    assert_eq!(
        hayabusa::rule::event_time_text(&generated),
        Some("2019-05-05T00:00:00Z".to_string())
    );
    assert_eq!(hayabusa::rule::event_time_text(&rec(&[("Event.System.EventID", "1")])), None);
}

#[test]
fn json_records_take_system_fields_from_event_data() {
    let rec = hayabusa::rule::EventRecord {
        fields: vec![
            ("Event.EventData.Channel".to_string(), "Security".to_string()),
            ("Event.EventData.EventID".to_string(), "4624".to_string()),
            ("Event.EventData.Hostname".to_string(), "host1".to_string()),
            ("Event.EventData.RecordNumber".to_string(), "77".to_string()),
            ("Event.EventData.Computer".to_string(), "ignored".to_string()),
            ("Event.System.Channel".to_string(), "old".to_string()),
            ("Event.Other".to_string(), "kept".to_string()),
        ],
    };
    let n = hayabusa::rule::normalize_json_record(&rec);
    let get = |p: &str| n.get_by_path(&p.to_string());
    assert_eq!(get("Event.System.Channel"), Some("Security".to_string()));
    assert_eq!(get("Event.System.EventID"), Some("4624".to_string()));
    assert_eq!(get("Event.System.Computer"), Some("host1".to_string()));
    assert_eq!(get("Event.System.EventRecordID"), Some("77".to_string()));
    assert_eq!(get("Event.System.Provider_attributes.Name"), None);
    assert_eq!(get("Event.UserData.EventID"), Some("4624".to_string()));
    assert_eq!(get("Event.Other"), Some("kept".to_string()));
    assert_eq!(get("Event.EventData.Channel"), Some("Security".to_string()));
}
