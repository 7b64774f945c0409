use label_tracker::fetch::{
    messages_all_timeout, FetchError, IssueNode, IssuesPage, IssuesQuery, IssuesResponse,
    PageInfo, Paginator, PullNode, PullsPage, PullsQuery, PullsResponse, QueryVariables,
};
use label_tracker::time::DateTime;

fn vars() -> QueryVariables {
    QueryVariables {
        owner: "owner".to_string(),
        name: "repo".to_string(),
        label: "label".to_string(),
        after: None,
        since: None,
        batch: 100,
    }
}

fn issue_node(id: &str, closed: bool, secs: i64) -> IssueNode {
    IssueNode {
        id: id.to_string(),
        title: "t".to_string(),
        closed,
        body_html: "b".to_string(),
        updated_at: DateTime { secs },
        url: "u".to_string(),
    }
}

fn pull_node(id: &str, secs: i64) -> PullNode {
    PullNode {
        id: id.to_string(),
        title: "t".to_string(),
        closed: false,
        merged: false,
        body_html: "b".to_string(),
        updated_at: DateTime { secs },
        url: "u".to_string(),
        base_ref_name: "master".to_string(),
        merge_commit: None,
    }
}

#[test]
fn batch_grows_after_fast_responses_and_is_capped() {
    // A synthetic transport answering in 2 seconds with no errors: after two
    // consecutive successes below the ceiling the batch strictly increases,
    // and it never exceeds the ceiling.
    let mut p = Paginator::new();
    assert_eq!(p.batch, 100);
    // Collapse first so the batch is below the ceiling.
    let verdict = p.on_errors(&vec!["timeout while executing query".to_string()]);
    assert!(verdict.is_none());
    assert_eq!(p.batch, 1);

    // Growth is a tenth plus one each time: 1 -> 2 -> 3.
    p.on_success(2000);
    assert_eq!(p.batch, 2);
    p.on_success(2000);
    assert_eq!(p.batch, 3);
    // From 50, a tenth plus one is 56.
    let mut fifty = Paginator { batch: 50, max_batch: 100 };
    fifty.on_success(2000);
    assert_eq!(fifty.batch, 56);

    // Growth from just below the ceiling is capped exactly at it.
    let mut q = Paginator { batch: 95, max_batch: 100 };
    q.on_success(2000);
    assert_eq!(q.batch, 100);
    q.on_success(2000);
    assert_eq!(q.batch, 100);
}

#[test]
fn slow_success_keeps_batch() {
    let mut p = Paginator { batch: 50, max_batch: 100 };
    p.on_success(9500);
    assert_eq!(p.batch, 50);
}

#[test]
fn timeout_only_errors_collapse_batch_to_one() {
    // A timeout-only error list at the full batch: the next request must use
    // a batch of one against the same cursor (the variables are untouched).
    let mut p = Paginator::new();
    assert_eq!(p.batch, 100);
    let v = IssuesQuery.change_after(vars(), Some("cursor-7".to_string()));
    let verdict = p.on_errors(&vec!["query timeout hit".to_string()]);
    assert!(verdict.is_none());
    assert_eq!(p.batch, 1);
    // Re-arming the request only sets the batch; the cursor stays.
    let v = IssuesQuery.set_batch(p.batch, v);
    assert_eq!(v.after, Some("cursor-7".to_string()));
    assert_eq!(v.batch, 1);
}

#[test]
fn timeout_at_batch_one_fails_for_good() {
    let mut p = Paginator { batch: 1, max_batch: 100 };
    let verdict = p.on_errors(&vec!["timeout".to_string()]);
    assert_eq!(verdict, Some(FetchError::Timeout));
}

#[test]
fn mixed_errors_fail_as_protocol() {
    let mut p = Paginator::new();
    let verdict = p.on_errors(&vec![
        "timeout".to_string(),
        "something else entirely".to_string(),
    ]);
    assert_eq!(verdict, Some(FetchError::Protocol));
    assert!(!messages_all_timeout(&vec!["no t-word here".to_string()]));
    assert!(messages_all_timeout(&vec![
        "timeout a".to_string(),
        "b timeout".to_string(),
    ]));
}

#[test]
fn issues_page_drops_nulls_and_reports_cursor() {
    let page = IssuesResponse {
        repository: Some(IssuesPage {
            edges: Some(vec![
                Some(issue_node("I1", false, 5)),
                None,
                Some(issue_node("I2", true, 6)),
            ]),
            page_info: PageInfo {
                has_next_page: true,
                end_cursor: Some("c2".to_string()),
            },
        }),
    };
    let (items, cursor) = IssuesQuery.process(page).unwrap();
    assert_eq!(items.len(), 2);
    assert_eq!(items[0].id, "I1".to_string());
    assert!(items[0].is_open);
    assert_eq!(items[1].id, "I2".to_string());
    assert!(!items[1].is_open);
    assert_eq!(cursor, Some("c2".to_string()));
}

#[test]
fn issues_page_without_repository_is_missing_data() {
    let r = IssuesQuery.process(IssuesResponse { repository: None });
    assert_eq!(r.unwrap_err(), FetchError::MissingData);
}

#[test]
fn issues_last_page_ends_pagination() {
    let page = IssuesResponse {
        repository: Some(IssuesPage {
            edges: Some(vec![Some(issue_node("I1", false, 5))]),
            page_info: PageInfo {
                has_next_page: false,
                end_cursor: Some("dangling".to_string()),
            },
        }),
    };
    let (_, cursor) = IssuesQuery.process(page).unwrap();
    assert_eq!(cursor, None);
}

#[test]
fn pulls_stop_paginating_below_since() {
    // The page has more upstream, but its last item is older than the
    // watermark bound, so pagination stops.
    let q = PullsQuery { since: Some(DateTime { secs: 100 }) };
    let page = PullsResponse {
        repository: Some(PullsPage {
            edges: Some(vec![Some(pull_node("P1", 150)), Some(pull_node("P2", 50))]),
            page_info: PageInfo {
                has_next_page: true,
                end_cursor: Some("c".to_string()),
            },
        }),
    };
    let (items, cursor) = q.process(page).unwrap();
    assert_eq!(items.len(), 2);
    assert_eq!(cursor, None);

    // Without the bound the same page continues.
    let q = PullsQuery { since: None };
    let page = PullsResponse {
        repository: Some(PullsPage {
            edges: Some(vec![Some(pull_node("P1", 150)), Some(pull_node("P2", 50))]),
            page_info: PageInfo {
                has_next_page: true,
                end_cursor: Some("c".to_string()),
            },
        }),
    };
    let (_, cursor) = q.process(page).unwrap();
    assert_eq!(cursor, Some("c".to_string()));
}
