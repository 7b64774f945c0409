use label_tracker::history::sync_issues;
use label_tracker::reconcile::{reconcile_issues, reconcile_pulls};
use label_tracker::string_set::StringSet;
use label_tracker::time::DateTime;
use label_tracker::types::{EntityMap, Issue, IssueAction, PullAction, PullRequest, State};

fn at(secs: i64) -> DateTime {
    DateTime { secs }
}

fn issue(id: &str, is_open: bool, secs: i64) -> Issue {
    Issue {
        id: id.to_string(),
        title: format!("title of {id}"),
        is_open,
        body: format!("body of {id}"),
        last_update: at(secs),
        url: format!("https://example.test/{id}"),
    }
}

fn pull(id: &str, is_open: bool, is_merged: bool, secs: i64) -> PullRequest {
    PullRequest {
        id: id.to_string(),
        title: format!("title of {id}"),
        is_open,
        is_merged,
        body: format!("body of {id}"),
        last_update: at(secs),
        url: format!("https://example.test/{id}"),
        base_ref: "master".to_string(),
        merge_commit: if is_merged { Some(format!("commit-{id}")) } else { None },
        landed_in: StringSet::new(),
    }
}

#[test]
fn status_transition_emits_closed_at_upstream_time() {
    // Stored open issue reconciled against a closed snapshot yields one
    // Closed event stamped with the upstream time, and the stored snapshot
    // flips to closed.
    let mut issues: EntityMap<Issue> = EntityMap::new();
    let events = reconcile_issues(&mut issues, vec![issue("I1", true, 50)]);
    assert_eq!(events.len(), 1);
    assert_eq!(events[0].2, IssueAction::New);

    let events = reconcile_issues(&mut issues, vec![issue("I1", false, 100)]);
    assert_eq!(events.len(), 1);
    assert_eq!(events[0].0, at(100));
    assert_eq!(events[0].1, "I1".to_string());
    assert_eq!(events[0].2, IssueAction::Closed);
    assert!(!issues.get("I1").unwrap().is_open);
}

#[test]
fn first_sight_closed_is_one_event() {
    // An issue first seen already closed yields exactly one NewClosed event,
    // never New followed by Closed.
    let mut issues: EntityMap<Issue> = EntityMap::new();
    let events = reconcile_issues(&mut issues, vec![issue("I2", false, 77)]);
    assert_eq!(events.len(), 1);
    assert_eq!(events[0].2, IssueAction::NewClosed);
}

#[test]
fn reconcile_issues_twice_is_idempotent() {
    let mut issues: EntityMap<Issue> = EntityMap::new();
    let fetched = vec![issue("A", true, 10), issue("B", false, 20)];
    let again = vec![issue("A", true, 10), issue("B", false, 20)];
    let first = reconcile_issues(&mut issues, fetched);
    assert_eq!(first.len(), 2);
    let second = reconcile_issues(&mut issues, again);
    assert!(second.is_empty());
}

#[test]
fn reconcile_pulls_twice_is_idempotent() {
    let mut prs: EntityMap<PullRequest> = EntityMap::new();
    let first = reconcile_pulls(&mut prs, vec![pull("P1", false, true, 30)]);
    assert_eq!(first.len(), 1);
    assert!(matches!(first[0].2, PullAction::NewMerged));
    let second = reconcile_pulls(&mut prs, vec![pull("P1", false, true, 30)]);
    assert!(second.is_empty());
}

#[test]
fn pull_merge_preserves_landed_in() {
    let mut prs: EntityMap<PullRequest> = EntityMap::new();
    reconcile_pulls(&mut prs, vec![pull("P1", true, false, 5)]);
    // Record a landing locally, then fetch an update: the set survives.
    {
        let idx = prs.index_of("P1").unwrap();
        let mut pr = prs.remove_at(idx);
        pr.landed_in.insert("nixos-unstable".to_string());
        prs.insert(pr);
    }
    let events = reconcile_pulls(&mut prs, vec![pull("P1", false, true, 9)]);
    assert_eq!(events.len(), 1);
    assert!(matches!(events[0].2, PullAction::Merged));
    let stored = prs.get("P1").unwrap();
    assert!(stored.is_merged);
    assert!(stored.landed_in.contains("nixos-unstable"));
}

#[test]
fn reopened_issue_emits_new() {
    let mut issues: EntityMap<Issue> = EntityMap::new();
    reconcile_issues(&mut issues, vec![issue("I3", false, 1)]);
    let events = reconcile_issues(&mut issues, vec![issue("I3", true, 2)]);
    assert_eq!(events.len(), 1);
    assert_eq!(events[0].2, IssueAction::New);
}

#[test]
fn sync_issues_sorts_appends_and_advances_watermark() {
    let mut state = State::new("o".to_string(), "r".to_string(), "l".to_string());
    let fetched = vec![issue("B", true, 200), issue("A", true, 100)];
    sync_issues(&mut state, fetched);
    assert_eq!(state.issue_history.len(), 2);
    // Sorted ascending by (timestamp, id).
    assert_eq!(state.issue_history[0].1, "A".to_string());
    assert_eq!(state.issue_history[1].1, "B".to_string());
    assert_eq!(state.issues_updated, Some(at(200)));

    // An empty fetch neither regresses the watermark nor touches history.
    sync_issues(&mut state, vec![]);
    assert_eq!(state.issues_updated, Some(at(200)));
    assert_eq!(state.issue_history.len(), 2);

    // Older events never pull the watermark backwards.
    sync_issues(&mut state, vec![issue("C", false, 150)]);
    assert_eq!(state.issues_updated, Some(at(200)));
}

#[test]
fn sync_issues_tiebreak_orders_by_id_then_action() {
    let mut state = State::new("o".to_string(), "r".to_string(), "l".to_string());
    sync_issues(
        &mut state,
        vec![issue("Z", true, 10), issue("M", false, 10), issue("A", true, 10)],
    );
    let ids: Vec<&str> = state.issue_history.iter().map(|e| e.1.as_str()).collect();
    assert_eq!(ids, vec!["A", "M", "Z"]);
}
