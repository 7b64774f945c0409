use label_tracker::landing::{landing_candidates, record_landing, ChannelPatterns};
use label_tracker::string_set::StringSet;
use label_tracker::time::DateTime;
use label_tracker::types::{EntityMap, PullAction, PullRequest};

fn merged_pull(id: &str, base_ref: &str, commit: &str) -> PullRequest {
    PullRequest {
        id: id.to_string(),
        title: "t".to_string(),
        is_open: false,
        is_merged: true,
        body: "b".to_string(),
        last_update: DateTime { secs: 10 },
        url: "u".to_string(),
        base_ref: base_ref.to_string(),
        merge_commit: Some(commit.to_string()),
        landed_in: StringSet::new(),
    }
}

#[test]
fn pattern_config_parses_and_substitutes() {
    let patterns = ChannelPatterns::parse("release-(.*):nixos-$1 nixpkgs-$1").unwrap();
    let channels = patterns.find_channels("release-23.11");
    assert_eq!(channels.len(), 2);
    assert!(channels.contains("nixos-23.11"));
    assert!(channels.contains("nixpkgs-23.11"));
    // A base branch no pattern selects maps to no channels.
    let none = patterns.find_channels("feature/foo");
    assert!(none.is_empty());
}

#[test]
fn pattern_config_rejects_bad_pieces() {
    assert!(ChannelPatterns::parse("no-colon-here").is_err());
    assert!(ChannelPatterns::parse("broken(:chan").is_err());
    assert!(ChannelPatterns::parse("master:nixos-unstable, broken(:x").is_err());
}

#[test]
fn exact_and_wildcard_matchers() {
    let mut patterns = ChannelPatterns::new();
    patterns.push_exact("master".to_string(), vec!["nixos-unstable".to_string()]);
    patterns.push_wildcard("channel*".to_string(), vec!["stable".to_string()]);
    let m = patterns.find_channels("master");
    assert_eq!(m.len(), 1);
    assert!(m.contains("nixos-unstable"));
    let c = patterns.find_channels("channel1");
    assert_eq!(c.len(), 1);
    assert!(c.contains("stable"));
    assert!(patterns.find_channels("masterful").is_empty());
    assert!(patterns.find_channels("chan").is_empty());
}

#[test]
fn multi_channel_landing_in_two_runs() {
    // PR #1 targets release-23.11, which maps to two channels.  Ancestry
    // first reports only nixos-23.11: one Landed event, one recorded channel.
    // A later run where ancestry also reports nixpkgs-23.11 adds exactly one
    // more event and leaves the first channel untouched.
    let patterns = ChannelPatterns::parse("release-(.*):nixos-$1 nixpkgs-$1").unwrap();
    let mut prs: EntityMap<PullRequest> = EntityMap::new();
    prs.insert(merged_pull("1", "release-23.11", "deadbeef"));

    let checks = landing_candidates(&prs, &patterns);
    assert_eq!(checks.len(), 1);
    assert_eq!(checks[0].id, "1".to_string());
    assert_eq!(checks[0].merge_commit, "deadbeef".to_string());
    assert_eq!(checks[0].to_check.len(), 2);

    let ev = record_landing(
        &mut prs,
        &"1".to_string(),
        vec!["nixos-23.11".to_string()],
        DateTime { secs: 1000 },
    );
    let ev = ev.expect("one Landed event");
    assert_eq!(ev.0, DateTime { secs: 1000 });
    assert_eq!(ev.1, "1".to_string());
    match &ev.2 {
        PullAction::Landed(chans) => assert_eq!(chans, &vec!["nixos-23.11".to_string()]),
        other => panic!("unexpected action {other:?}"),
    }
    {
        let pr = prs.get("1").unwrap();
        assert_eq!(pr.landed_in.len(), 1);
        assert!(pr.landed_in.contains("nixos-23.11"));
    }

    // Second run: candidates shrink to the channel still unresolved.
    let checks = landing_candidates(&prs, &patterns);
    assert_eq!(checks.len(), 1);
    assert_eq!(checks[0].to_check, vec!["nixpkgs-23.11".to_string()]);

    let ev = record_landing(
        &mut prs,
        &"1".to_string(),
        vec!["nixos-23.11".to_string(), "nixpkgs-23.11".to_string()],
        DateTime { secs: 2000 },
    );
    let ev = ev.expect("exactly one more Landed event");
    match &ev.2 {
        PullAction::Landed(chans) => assert_eq!(chans, &vec!["nixpkgs-23.11".to_string()]),
        other => panic!("unexpected action {other:?}"),
    }
    let pr = prs.get("1").unwrap();
    assert_eq!(pr.landed_in.len(), 2);
    assert!(pr.landed_in.contains("nixos-23.11"));
    assert!(pr.landed_in.contains("nixpkgs-23.11"));
}

#[test]
fn detection_rerun_adds_nothing() {
    let patterns = ChannelPatterns::parse("master:nixos-unstable").unwrap();
    let mut prs: EntityMap<PullRequest> = EntityMap::new();
    prs.insert(merged_pull("2", "master", "cafe"));

    let ev = record_landing(
        &mut prs,
        &"2".to_string(),
        vec!["nixos-unstable".to_string()],
        DateTime { secs: 1 },
    );
    assert!(ev.is_some());

    // Unchanged ancestry answers: nothing to check, nothing recorded.
    let checks = landing_candidates(&prs, &patterns);
    assert!(checks.is_empty());
    let ev = record_landing(
        &mut prs,
        &"2".to_string(),
        vec!["nixos-unstable".to_string()],
        DateTime { secs: 2 },
    );
    assert!(ev.is_none());
    assert_eq!(prs.get("2").unwrap().landed_in.len(), 1);
}

#[test]
fn unmerged_or_unmatched_pulls_are_skipped() {
    let patterns = ChannelPatterns::parse("master:nixos-unstable").unwrap();
    let mut prs: EntityMap<PullRequest> = EntityMap::new();
    let mut open_pr = merged_pull("3", "master", "c3");
    open_pr.is_merged = false;
    open_pr.merge_commit = None;
    prs.insert(open_pr);
    prs.insert(merged_pull("4", "staging", "c4"));
    let checks = landing_candidates(&prs, &patterns);
    assert!(checks.is_empty());
}

#[test]
fn recording_for_unknown_id_changes_nothing() {
    let mut prs: EntityMap<PullRequest> = EntityMap::new();
    let ev = record_landing(
        &mut prs,
        &"ghost".to_string(),
        vec!["nixos-unstable".to_string()],
        DateTime { secs: 1 },
    );
    assert!(ev.is_none());
    assert_eq!(prs.len(), 0);
}
