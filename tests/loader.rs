use hayabusa::loader::{level_rank, LoadDecision, LoadFilter};

fn filter(min_level: u64, enable_noisy: bool) -> LoadFilter {
    LoadFilter {
        excluded_ids: vec!["ex-1".to_string()],
        noisy_ids: vec!["noisy-1".to_string()],
        enable_noisy,
        exclude_status: vec!["deprecated".to_string()],
        min_level,
    }
}

#[test]
fn level_ranks_ignore_case() {
    assert_eq!(level_rank("informational"), Some(1));
    assert_eq!(level_rank("LOW"), Some(2));
    assert_eq!(level_rank("Medium"), Some(3));
    assert_eq!(level_rank("HIGH"), Some(4));
    assert_eq!(level_rank("critical"), Some(5));
    assert_eq!(level_rank("severe"), None);
}

#[test]
fn loader_decisions() {
    let f = filter(3, false);
    assert_eq!(f.judge("ex-1", "stable", "high"), LoadDecision::Excluded);
    assert_eq!(f.judge("noisy-1", "stable", "high"), LoadDecision::Noisy);
    assert_eq!(filter(3, true).judge("noisy-1", "stable", "high"), LoadDecision::Load);
    assert_eq!(f.judge("r", "deprecated", "high"), LoadDecision::StatusExcluded);
    assert_eq!(f.judge("r", "test", "low"), LoadDecision::BelowLevel);
    assert_eq!(f.judge("r", "test", "MEDIUM"), LoadDecision::Load);
    assert_eq!(f.judge("r", "test", "bogus"), LoadDecision::UnknownLevel);
}

#[test]
fn tally_counts_each_key() {
    let mut t = hayabusa::loader::Tally::new();
    let a = "Sigma".to_string();
    let b = "Other".to_string();
    t.add(&a);
    t.add(&b);
    t.add(&a);
    assert_eq!(t.get(&a), 2);
    assert_eq!(t.get(&b), 1);
    assert_eq!(t.get(&"deprecated".to_string()), 0);
    assert_eq!(t.entries.len(), 2);
}
