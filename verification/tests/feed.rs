use label_tracker::feed::{emit_issues, emit_prs};
use label_tracker::history::{finish_pull_sync, sync_issues};
use label_tracker::reconcile::reconcile_pulls;
use label_tracker::string_set::StringSet;
use label_tracker::time::DateTime;
use label_tracker::types::{IssueAction, PullAction, PullRequest, State};

const HOUR: i64 = 3600;

fn state() -> State {
    State::new("owner".to_string(), "repo".to_string(), "label".to_string())
}

fn issue(id: &str, is_open: bool, secs: i64) -> label_tracker::types::Issue {
    label_tracker::types::Issue {
        id: id.to_string(),
        title: format!("T-{id}"),
        is_open,
        body: format!("B-{id}"),
        last_update: DateTime { secs },
        url: format!("https://example.test/{id}"),
    }
}

#[test]
fn window_keeps_only_recent_events_and_keys_are_stable() {
    // History holds events two hours and thirty hours old; a 24-hour window
    // shows only the recent one, and reading twice gives identical keys.
    let now = DateTime { secs: 100 * HOUR };
    let mut st = state();
    sync_issues(&mut st, vec![issue("OLD", false, now.secs - 30 * HOUR)]);
    sync_issues(&mut st, vec![issue("NEW", true, now.secs - 2 * HOUR)]);

    let cutoff = now.hours_before(24);
    let items = emit_issues(&st, cutoff).unwrap();
    assert_eq!(items.len(), 1);
    assert_eq!(items[0].key_id, "NEW".to_string());
    assert_eq!(items[0].at, DateTime { secs: now.secs - 2 * HOUR });
    assert_eq!(items[0].key_suffix, "".to_string());
    assert_eq!(items[0].headline, "[NEW] T-NEW".to_string());
    assert_eq!(items[0].link, "https://example.test/NEW".to_string());

    let again = emit_issues(&st, cutoff).unwrap();
    assert_eq!(again.len(), items.len());
    for (a, b) in items.iter().zip(again.iter()) {
        assert_eq!(a.at, b.at);
        assert_eq!(a.key_id, b.key_id);
        assert_eq!(a.key_suffix, b.key_suffix);
        assert_eq!(a.headline, b.headline);
    }
}

#[test]
fn window_is_most_recent_first() {
    let mut st = state();
    sync_issues(
        &mut st,
        vec![issue("A", true, 100), issue("B", true, 200), issue("C", true, 300)],
    );
    let items = emit_issues(&st, DateTime { secs: 0 }).unwrap();
    let ids: Vec<&str> = items.iter().map(|i| i.key_id.as_str()).collect();
    assert_eq!(ids, vec!["C", "B", "A"]);
}

#[test]
fn dangling_event_is_fatal_corruption() {
    let mut st = state();
    sync_issues(&mut st, vec![issue("I", true, 10)]);
    // Corrupt the log by hand: an event for an entity that is not stored.
    st.issue_history.push((DateTime { secs: 20 }, "GONE".to_string(), IssueAction::Closed));
    let err = emit_issues(&st, DateTime { secs: 0 }).unwrap_err();
    assert_eq!(err.id, "GONE".to_string());
}

#[test]
fn landed_entry_names_channels_in_headline_and_key() {
    let mut st = state();
    reconcile_pulls(
        &mut st.pull_requests,
        vec![PullRequest {
            id: "P9".to_string(),
            title: "Title9".to_string(),
            is_open: false,
            is_merged: true,
            body: "Body9".to_string(),
            last_update: DateTime { secs: 50 },
            url: "https://example.test/P9".to_string(),
            base_ref: "release-23.11".to_string(),
            merge_commit: Some("c9".to_string()),
            landed_in: StringSet::new(),
        }],
    );
    let events = vec![
        (
            DateTime { secs: 60 },
            "P9".to_string(),
            PullAction::Landed(vec!["nixos-23.11".to_string(), "nixpkgs-23.11".to_string()]),
        ),
    ];
    finish_pull_sync(&mut st, events);
    let items = emit_prs(&st, DateTime { secs: 0 }).unwrap();
    assert_eq!(items.len(), 1);
    assert_eq!(items[0].headline, "[LANDED](nixos-23.11 nixpkgs-23.11) Title9".to_string());
    assert_eq!(items[0].key_suffix, "/landed/nixos-23.11/nixpkgs-23.11".to_string());
    assert_eq!(items[0].key_id, "P9".to_string());
}

#[test]
fn pull_entry_shows_base_ref_for_plain_actions() {
    let mut st = state();
    let events = reconcile_pulls(
        &mut st.pull_requests,
        vec![PullRequest {
            id: "P1".to_string(),
            title: "Title1".to_string(),
            is_open: true,
            is_merged: false,
            body: "Body1".to_string(),
            last_update: DateTime { secs: 5 },
            url: "https://example.test/P1".to_string(),
            base_ref: "master".to_string(),
            merge_commit: None,
            landed_in: StringSet::new(),
        }],
    );
    finish_pull_sync(&mut st, events);
    let items = emit_prs(&st, DateTime { secs: 0 }).unwrap();
    assert_eq!(items.len(), 1);
    assert_eq!(items[0].headline, "[NEW](master) Title1".to_string());
    assert_eq!(items[0].key_suffix, "".to_string());
    assert_eq!(st.pull_requests_updated, Some(DateTime { secs: 5 }));
}
