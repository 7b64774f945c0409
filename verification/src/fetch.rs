//! The chunked-query engine behind fetching: adaptive batch sizing,
//! timeout-triggered throttling, and per-query-kind response processing.
//!
//! The transport itself lives outside the library; it hands back, for each
//! page, either the upstream error messages or the decoded response data,
//! together with the elapsed request time.  Everything decided about such an
//! outcome is decided here: how the batch size reacts, whether the same
//! cursor is retried, which items a page contributes (nulls inside nullable
//! edge lists are dropped, not failed), and where the next cursor points.

use vstd::prelude::*;

use crate::text::{contains_seq, str_contains};
use crate::time::DateTime;
use crate::types::{Issue, PullRequest};
use crate::string_set::StringSet;

verus! {

/// Why a fetch run failed.  Only a timeout with the batch size already
/// collapsed ends a fetch as `Timeout`; any other upstream error list is a
/// protocol error; a response without a repository payload carries no usable
/// page.  Failures of the transport itself never reach this code: the caller
/// performing the requests reports them directly, equally fatally.
#[derive(Clone, Copy, PartialEq, Eq, Structural, Debug)]
pub enum FetchError {
    Protocol,
    Timeout,
    MissingData,
}

/// The batch ceiling and the time budget (in milliseconds) under which the
/// batch may grow again.
pub const MAX_BATCH: i64 = 100;

pub const FAST_RESPONSE_MILLIS: u64 = 8000;

/// Every message in the upstream error list mentions a timeout.
pub open spec fn all_timeouts(msgs: Seq<String>) -> bool {
    forall|i: int| 0 <= i < msgs.len() ==> contains_seq(#[trigger] msgs[i]@, "timeout"@)
}

/// Decides [`all_timeouts`].
pub fn messages_all_timeout(msgs: &Vec<String>) -> (r: bool)
    ensures
        r == all_timeouts(msgs@),
{
    let mut i: usize = 0;
    while i < msgs.len()
        invariant
            0 <= i <= msgs@.len(),
            forall|k: int| 0 <= k < i ==> contains_seq(#[trigger] msgs@[k]@, "timeout"@),
        decreases msgs@.len() - i,
    {
        if !str_contains(msgs[i].as_str(), "timeout") {
            return false;
        }
        i = i + 1;
    }
    true
}

/// The batch size after a success: if the batch is below the ceiling and the
/// response came well under the time budget, grow it by a tenth plus one,
/// capped at the ceiling; otherwise keep it.
pub open spec fn grown_batch(batch: i64, max_batch: i64, elapsed_ms: u64) -> int {
    if batch != max_batch && elapsed_ms < FAST_RESPONSE_MILLIS {
        if batch + batch / 10 + 1 <= max_batch {
            batch + batch / 10 + 1
        } else {
            max_batch as int
        }
    } else {
        batch as int
    }
}

/// The batch size and verdict after an upstream error list: only-timeout
/// messages with a batch above one collapse the batch to one and retry the
/// same cursor; anything else fails the fetch.
pub open spec fn throttle_decision(batch: i64, msgs: Seq<String>) -> (i64, Option<FetchError>) {
    if all_timeouts(msgs) && batch > 1 {
        (1, None)
    } else if all_timeouts(msgs) {
        (batch, Some(FetchError::Timeout))
    } else {
        (batch, Some(FetchError::Protocol))
    }
}

/// The pagination throttle: the page size the next request must use.
pub struct Paginator {
    pub batch: i64,
    pub max_batch: i64,
}

impl Paginator {
    /// The sizes stay in range; all operations preserve this.
    pub open spec fn wf(&self) -> bool {
        1 <= self.batch <= self.max_batch <= MAX_BATCH
    }

    /// A fresh fetch starts at the full batch ceiling.
    pub fn new() -> (r: Paginator)
        ensures
            r.wf(),
            r.batch == MAX_BATCH,
            r.max_batch == MAX_BATCH,
    {
        Paginator { batch: MAX_BATCH, max_batch: MAX_BATCH }
    }

    /// Reacts to a response that carried no upstream errors: the batch may
    /// grow again.
    pub fn on_success(&mut self, elapsed_ms: u64)
        requires
            old(self).wf(),
        ensures
            final(self).wf(),
            final(self).batch == grown_batch(old(self).batch, old(self).max_batch, elapsed_ms),
            final(self).max_batch == old(self).max_batch,
    {
        if self.batch != self.max_batch && elapsed_ms < FAST_RESPONSE_MILLIS {
            let grown = self.batch + self.batch / 10 + 1;
            self.batch = if grown <= self.max_batch {
                grown
            } else {
                self.max_batch
            };
        }
    }

    /// Reacts to an upstream error list: retry the same cursor with a batch
    /// of one, exactly when every message is a timeout and the batch can
    /// still shrink; otherwise the fetch fails.
    pub fn on_errors(&mut self, messages: &Vec<String>) -> (r: Option<FetchError>)
        requires
            old(self).wf(),
        ensures
            final(self).wf(),
            final(self).max_batch == old(self).max_batch,
            (final(self).batch, r) == throttle_decision(old(self).batch, messages@),
            r is None ==> final(self).batch == 1,
    {
        let timeouts = messages_all_timeout(messages);
        if timeouts && self.batch > 1 {
            self.batch = 1;
            None
        } else if timeouts {
            Some(FetchError::Timeout)
        } else {
            Some(FetchError::Protocol)
        }
    }
}

/// Batch adaptation: below the ceiling, a response well
/// under the time budget strictly grows the batch, and the batch never
/// exceeds the ceiling; an only-timeout error list at any batch above one
/// collapses the batch to exactly one and retries rather than fails.
pub proof fn lemma_batch_adaptation(batch: i64, max_batch: i64, elapsed_ms: u64, msgs: Seq<String>)
    requires
        1 <= batch <= max_batch <= MAX_BATCH,
        elapsed_ms < FAST_RESPONSE_MILLIS,
    ensures
        batch < max_batch ==> grown_batch(batch, max_batch, elapsed_ms) > batch,
        grown_batch(batch, max_batch, elapsed_ms) <= max_batch,
        all_timeouts(msgs) && batch > 1 ==> throttle_decision(batch, msgs) == (
            1int as i64,
            None::<FetchError>,
        ),
{
}

/// Pagination state of one query: the variables the next request carries.
pub struct QueryVariables {
    pub owner: String,
    pub name: String,
    pub label: String,
    pub after: Option<String>,
    pub since: Option<DateTime>,
    pub batch: i64,
}

/// Page envelope: whether more pages follow, and where they start.
pub struct PageInfo {
    pub has_next_page: bool,
    pub end_cursor: Option<String>,
}

/// One issue as the upstream reports it.
pub struct IssueNode {
    pub id: String,
    pub title: String,
    pub closed: bool,
    pub body_html: String,
    pub updated_at: DateTime,
    pub url: String,
}

/// One pull request as the upstream reports it.
pub struct PullNode {
    pub id: String,
    pub title: String,
    pub closed: bool,
    pub merged: bool,
    pub body_html: String,
    pub updated_at: DateTime,
    pub url: String,
    pub base_ref_name: String,
    pub merge_commit: Option<String>,
}

/// A page of issues; every level the upstream schema leaves nullable is
/// optional here.
pub struct IssuesPage {
    pub edges: Option<Vec<Option<IssueNode>>>,
    pub page_info: PageInfo,
}

/// A page of pull requests.
pub struct PullsPage {
    pub edges: Option<Vec<Option<PullNode>>>,
    pub page_info: PageInfo,
}

/// The data payload of an issues response.
pub struct IssuesResponse {
    pub repository: Option<IssuesPage>,
}

/// The data payload of a pulls response.
pub struct PullsResponse {
    pub repository: Option<PullsPage>,
}

/// The snapshot an upstream issue node denotes.
pub open spec fn issue_of_node(n: IssueNode) -> Issue {
    Issue {
        id: n.id,
        title: n.title,
        is_open: !n.closed,
        body: n.body_html,
        last_update: n.updated_at,
        url: n.url,
    }
}

/// The snapshot an upstream pull node denotes; nothing has landed yet as far
/// as a fetch is concerned.
pub open spec fn pull_of_node(n: PullNode, landed_in: StringSet) -> PullRequest {
    PullRequest {
        id: n.id,
        title: n.title,
        is_open: !n.closed,
        is_merged: n.merged,
        body: n.body_html,
        last_update: n.updated_at,
        url: n.url,
        base_ref: n.base_ref_name,
        merge_commit: n.merge_commit,
        landed_in,
    }
}

/// The nodes present in a nullable edge list: nulls are dropped, never
/// failed.
pub open spec fn present_nodes<T>(edges: Option<Seq<Option<T>>>) -> Seq<T> {
    match edges {
        None => Seq::empty(),
        Some(s) => s.filter(|e: Option<T>| e is Some).map_values(|e: Option<T>| e->0),
    }
}

/// The cursor a page hands to the next request: the end cursor while more
/// pages follow, nothing otherwise.
pub open spec fn next_cursor(p: PageInfo) -> Option<String> {
    if p.has_next_page {
        p.end_cursor
    } else {
        None
    }
}

/// The issues query kind.
pub struct IssuesQuery;

/// The pulls query kind; it remembers the watermark bound it was asked for,
/// which lets it stop paginating once a page ends below that bound.
pub struct PullsQuery {
    pub since: Option<DateTime>,
}

impl IssuesQuery {
    /// The next request starts after `after`; everything else is kept.
    pub fn change_after(&self, v: QueryVariables, after: Option<String>) -> (r: QueryVariables)
        ensures
            r == (QueryVariables { after, ..v }),
    {
        QueryVariables { after, ..v }
    }

    /// The next request asks for `batch` items; everything else is kept.
    pub fn set_batch(&self, batch: i64, v: QueryVariables) -> (r: QueryVariables)
        ensures
            r == (QueryVariables { batch, ..v }),
    {
        QueryVariables { batch, ..v }
    }

    /// Extracts one page: the issues present in the edge list and the cursor
    /// to continue from.  Fails exactly when the response carries no
    /// repository.
    pub fn process(&self, d: IssuesResponse) -> (r: Result<
        (Vec<Issue>, Option<String>),
        FetchError,
    >)
        ensures
            match r {
                Ok(p) => d.repository is Some && p.0@ == present_nodes(
                    match d.repository->0.edges {
                        None => None,
                        Some(v) => Some(v@),
                    },
                ).map_values(|n: IssueNode| issue_of_node(n)) && p.1 == next_cursor(
                    d.repository->0.page_info,
                ),
                Err(e) => d.repository is None && e == FetchError::MissingData,
            },
    {
        let page = match d.repository {
            Some(p) => p,
            None => {
                return Err(FetchError::MissingData);
            },
        };
        let mut items: Vec<Issue> = Vec::new();
        match page.edges {
            None => {
                proof {
                    assert(items@ =~= present_nodes(None::<Seq<Option<IssueNode>>>).map_values(
                        |n: IssueNode| issue_of_node(n),
                    ));
                }
            },
            Some(edges) => {
                let ghost all: Seq<Option<IssueNode>> = edges@;
                let mut edges = edges;
                let ghost mut k: int = 0;
                while edges.len() > 0
                    invariant
                        0 <= k <= all.len(),
                        edges@ == all.skip(k),
                        items@ == all.take(k).filter(|e: Option<IssueNode>| e is Some).map_values(
                            |e: Option<IssueNode>| e->0,
                        ).map_values(|n: IssueNode| issue_of_node(n)),
                    decreases edges@.len(),
                {
                    let e = edges.remove(0);
                    proof {
                        assert(e == all[k]);
                        assert(edges@ =~= all.skip(k + 1));
                        reveal(Seq::filter);
                        assert(all.take(k + 1).drop_last() =~= all.take(k));
                        assert(all.take(k + 1).last() == all[k]);
                    }
                    let ghost items_old: Seq<Issue> = items@;
                    match e {
                        Some(n) => {
                            items.push(Issue {
                                id: n.id,
                                title: n.title,
                                is_open: !n.closed,
                                body: n.body_html,
                                last_update: n.updated_at,
                                url: n.url,
                            });
                        },
                        None => {},
                    }
                    proof {
                        k = k + 1;
                        let f = all.take(k).filter(|e: Option<IssueNode>| e is Some);
                        let fpre = all.take(k - 1).filter(|e: Option<IssueNode>| e is Some);
                        if all[k - 1] is Some {
                            assert(f == fpre.push(all[k - 1]));
                            assert(items@ =~= f.map_values(|e: Option<IssueNode>| e->0).map_values(
                                |n: IssueNode| issue_of_node(n),
                            ));
                        } else {
                            assert(f == fpre);
                            assert(items@ =~= f.map_values(|e: Option<IssueNode>| e->0).map_values(
                                |n: IssueNode| issue_of_node(n),
                            ));
                        }
                    }
                }
                proof {
                    assert(all.take(all.len() as int) =~= all);
                }
            },
        }
        let cursor: Option<String> = if page.page_info.has_next_page {
            page.page_info.end_cursor
        } else {
            None
        };
        Ok((items, cursor))
    }
}

impl PullsQuery {
    /// The next request starts after `after`; everything else is kept.
    pub fn change_after(&self, v: QueryVariables, after: Option<String>) -> (r: QueryVariables)
        ensures
            r == (QueryVariables { after, ..v }),
    {
        QueryVariables { after, ..v }
    }

    /// The next request asks for `batch` items; everything else is kept.
    pub fn set_batch(&self, batch: i64, v: QueryVariables) -> (r: QueryVariables)
        ensures
            r == (QueryVariables { batch, ..v }),
    {
        QueryVariables { batch, ..v }
    }

    /// Extracts one page of pull requests.  Pagination stops early when the
    /// page's last item is already older than the `since` bound this query
    /// was asked for; otherwise the page decides, as for issues.
    pub fn process(&self, d: PullsResponse) -> (r: Result<
        (Vec<PullRequest>, Option<String>),
        FetchError,
    >)
        ensures
            match r {
                Ok(p) => {
                    let items = present_nodes(
                        match d.repository->0.edges {
                            None => None,
                            Some(v) => Some(v@),
                        },
                    );
                    &&& d.repository is Some
                    &&& p.0@.len() == items.len()
                    &&& forall|i: int|
                        0 <= i < items.len() ==> #[trigger] p.0@[i] == pull_of_node(
                            items[i],
                            p.0@[i].landed_in,
                        ) && p.0@[i].landed_in@ == Set::<Seq<char>>::empty()
                    &&& p.1 == ({
                        let past_since = match (self.since, items.len()) {
                            (Some(since), n) => n > 0 && items[n - 1].updated_at.spec_lt(since),
                            _ => false,
                        };
                        if past_since {
                            None::<String>
                        } else {
                            next_cursor(d.repository->0.page_info)
                        }
                    })
                },
                Err(e) => d.repository is None && e == FetchError::MissingData,
            },
    {
        let page = match d.repository {
            Some(p) => p,
            None => {
                return Err(FetchError::MissingData);
            },
        };
        let mut items: Vec<PullRequest> = Vec::new();
        let ghost all_present: Seq<PullNode> = present_nodes(
            match page.edges {
                None => None,
                Some(ref v) => Some(v@),
            },
        );
        match page.edges {
            None => {},
            Some(edges) => {
                let ghost all: Seq<Option<PullNode>> = edges@;
                let mut edges = edges;
                let ghost mut k: int = 0;
                while edges.len() > 0
                    invariant
                        0 <= k <= all.len(),
                        edges@ == all.skip(k),
                        all_present == all.filter(|e: Option<PullNode>| e is Some).map_values(
                            |e: Option<PullNode>| e->0,
                        ),
                        ({
                            let pres = all.take(k).filter(|e: Option<PullNode>| e is Some)
                                .map_values(|e: Option<PullNode>| e->0);
                            items@.len() == pres.len() && forall|i: int|
                                0 <= i < pres.len() ==> #[trigger] items@[i] == pull_of_node(
                                    pres[i],
                                    items@[i].landed_in,
                                ) && items@[i].landed_in@ == Set::<Seq<char>>::empty()
                        }),
                    decreases edges@.len(),
                {
                    let e = edges.remove(0);
                    proof {
                        assert(e == all[k]);
                        assert(edges@ =~= all.skip(k + 1));
                        reveal(Seq::filter);
                        assert(all.take(k + 1).drop_last() =~= all.take(k));
                        assert(all.take(k + 1).last() == all[k]);
                    }
                    match e {
                        Some(n) => {
                            items.push(PullRequest {
                                id: n.id,
                                title: n.title,
                                is_open: !n.closed,
                                is_merged: n.merged,
                                body: n.body_html,
                                last_update: n.updated_at,
                                url: n.url,
                                base_ref: n.base_ref_name,
                                merge_commit: n.merge_commit,
                                landed_in: StringSet::new(),
                            });
                        },
                        None => {},
                    }
                    proof {
                        k = k + 1;
                    }
                }
                proof {
                    assert(all.take(all.len() as int) =~= all);
                }
            },
        }
        let past_since: bool = match (&self.since, items.len()) {
            (Some(since), n) if n > 0 => items[n - 1].last_update.lt(since),
            _ => false,
        };
        proof {
            if items@.len() > 0 {
                assert(items@[items@.len() - 1].last_update == all_present[all_present.len()
                    - 1].updated_at);
            }
        }
        let cursor: Option<String> = if past_since {
            None
        } else if page.page_info.has_next_page {
            page.page_info.end_cursor
        } else {
            None
        };
        Ok((items, cursor))
    }
}

} // verus!
