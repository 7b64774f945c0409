//! Reconciliation: merging freshly fetched snapshots into the stored entity
//! set while deriving the transition history between the two.
//!
//! Each fetched item is keyed by its identifier.  An item absent from the
//! snapshot map is inserted and yields a "created" event whose tag depends on
//! whether the item is already in a terminal state at first sight; a present
//! item yields a transition event exactly when its status fields changed,
//! timestamped with the item's upstream `last_update`, and the stored fields
//! are then overwritten.  A pull request's locally owned `landed_in` set is
//! never clobbered by a fetch.

use vstd::prelude::*;

use crate::types::{
    distinct_keys, Event, Issue, IssueAction, Keyed, PullAction, PullRequest, EntityMap,
};

verus! {

/// The event tag for an issue that is open/closed, seen for the first time or
/// not.  A closed issue seen for the first time yields the combined tag.
pub open spec fn issue_action_of(is_open: bool, is_new: bool) -> IssueAction {
    if is_open {
        IssueAction::New
    } else if is_new {
        IssueAction::NewClosed
    } else {
        IssueAction::Closed
    }
}

/// Computes [`issue_action_of`].
pub fn issue_action(is_open: bool, is_new: bool) -> (r: IssueAction)
    ensures
        r == issue_action_of(is_open, is_new),
{
    match (is_open, is_new) {
        (true, _) => IssueAction::New,
        (false, true) => IssueAction::NewClosed,
        (false, false) => IssueAction::Closed,
    }
}

/// The event tag for a pull request with the given status fields.
pub open spec fn pull_action_of(is_open: bool, is_merged: bool, is_new: bool) -> PullAction {
    if is_merged {
        if is_new {
            PullAction::NewMerged
        } else {
            PullAction::Merged
        }
    } else if is_open {
        PullAction::New
    } else if is_new {
        PullAction::NewClosed
    } else {
        PullAction::Closed
    }
}

/// Computes [`pull_action_of`].
pub fn pull_action(is_open: bool, is_merged: bool, is_new: bool) -> (r: PullAction)
    ensures
        r == pull_action_of(is_open, is_merged, is_new),
{
    match (is_open, is_merged, is_new) {
        (false, false, true) => PullAction::NewClosed,
        (false, false, false) => PullAction::Closed,
        (true, false, _) => PullAction::New,
        (_, true, true) => PullAction::NewMerged,
        (_, true, false) => PullAction::Merged,
    }
}

/// One fetched issue applied to the snapshot map: the updated map and the
/// events emitted (at most one).
pub open spec fn issue_step(m: Map<Seq<char>, Issue>, f: Issue) -> (
    Map<Seq<char>, Issue>,
    Seq<Event<IssueAction>>,
) {
    if !m.dom().contains(f.id@) {
        (m.insert(f.id@, f), seq![(f.last_update, f.id, issue_action_of(f.is_open, true))])
    } else if m[f.id@].is_open != f.is_open {
        (m.insert(f.id@, f), seq![(f.last_update, f.id, issue_action_of(f.is_open, false))])
    } else {
        (m.insert(f.id@, f), Seq::empty())
    }
}

/// A whole fetched list of issues applied in order.
pub open spec fn reconcile_issues_spec(m: Map<Seq<char>, Issue>, fetched: Seq<Issue>) -> (
    Map<Seq<char>, Issue>,
    Seq<Event<IssueAction>>,
)
    decreases fetched.len(),
{
    if fetched.len() == 0 {
        (m, Seq::empty())
    } else {
        let prev = reconcile_issues_spec(m, fetched.drop_last());
        let step = issue_step(prev.0, fetched.last());
        (step.0, prev.1 + step.1)
    }
}

/// The stored pull request after an overwrite: upstream fields from `f`,
/// `landed_in` kept.
pub open spec fn pull_overwrite(stored: PullRequest, f: PullRequest) -> PullRequest {
    PullRequest { landed_in: stored.landed_in, ..f }
}

/// One fetched pull request applied to the snapshot map.
pub open spec fn pull_step(m: Map<Seq<char>, PullRequest>, f: PullRequest) -> (
    Map<Seq<char>, PullRequest>,
    Seq<Event<PullAction>>,
) {
    if !m.dom().contains(f.id@) {
        (
            m.insert(f.id@, f),
            seq![(f.last_update, f.id, pull_action_of(f.is_open, f.is_merged, true))],
        )
    } else {
        let stored = m[f.id@];
        let merged = pull_overwrite(stored, f);
        if stored.is_open != f.is_open || stored.is_merged != f.is_merged {
            (
                m.insert(f.id@, merged),
                seq![(f.last_update, f.id, pull_action_of(f.is_open, f.is_merged, false))],
            )
        } else {
            (m.insert(f.id@, merged), Seq::empty())
        }
    }
}

/// A whole fetched list of pull requests applied in order.
pub open spec fn reconcile_pulls_spec(m: Map<Seq<char>, PullRequest>, fetched: Seq<PullRequest>)
    -> (Map<Seq<char>, PullRequest>, Seq<Event<PullAction>>)
    decreases fetched.len(),
{
    if fetched.len() == 0 {
        (m, Seq::empty())
    } else {
        let prev = reconcile_pulls_spec(m, fetched.drop_last());
        let step = pull_step(prev.0, fetched.last());
        (step.0, prev.1 + step.1)
    }
}

/// Merges fetched issue snapshots into the snapshot map and returns the
/// transition events, unsorted.
pub fn reconcile_issues(issues: &mut EntityMap<Issue>, fetched: Vec<Issue>) -> (events: Vec<
    Event<IssueAction>,
>)
    requires
        old(issues).wf(),
    ensures
        final(issues).wf(),
        final(issues)@ == reconcile_issues_spec(old(issues)@, fetched@).0,
        events@ == reconcile_issues_spec(old(issues)@, fetched@).1,
{
    let ghost orig: Seq<Issue> = fetched@;
    let ghost m0: Map<Seq<char>, Issue> = issues@;
    let mut fetched = fetched;
    let mut events: Vec<Event<IssueAction>> = Vec::new();
    let ghost mut k: int = 0;
    while fetched.len() > 0
        invariant
            issues.wf(),
            0 <= k <= orig.len(),
            fetched@ == orig.skip(k),
            issues@ == reconcile_issues_spec(m0, orig.take(k)).0,
            events@ == reconcile_issues_spec(m0, orig.take(k)).1,
        decreases fetched@.len(),
    {
        let f = fetched.remove(0);
        proof {
            assert(f == orig[k]);
            assert(fetched@ =~= orig.skip(k + 1));
        }
        let ghost m1: Map<Seq<char>, Issue> = issues@;
        let ghost events_before: Seq<Event<IssueAction>> = events@;
        let is_new: bool;
        let changed: bool;
        match issues.get(f.id.as_str()) {
            None => {
                is_new = true;
                changed = true;
            },
            Some(stored) => {
                is_new = false;
                changed = stored.is_open != f.is_open;
            },
        }
        if changed {
            let act = issue_action(f.is_open, is_new);
            events.push((f.last_update, f.id.clone(), act));
        }
        proof {
            assert(f.key_spec() == f.id@);
        }
        issues.insert(f);
        proof {
            k = k + 1;
            assert(orig.take(k).drop_last() =~= orig.take(k - 1));
            assert(orig.take(k).last() == orig[k - 1]);
            assert(issues@ == issue_step(m1, orig[k - 1]).0);
            assert(events@ =~= events_before + issue_step(m1, orig[k - 1]).1);
        }
    }
    proof {
        assert(orig.take(orig.len() as int) =~= orig);
    }
    events
}

/// Merges fetched pull request snapshots into the snapshot map and returns
/// the transition events, unsorted.  Upstream fields are overwritten; each
/// stored `landed_in` is preserved.
pub fn reconcile_pulls(prs: &mut EntityMap<PullRequest>, fetched: Vec<PullRequest>) -> (events:
    Vec<Event<PullAction>>)
    requires
        old(prs).wf(),
    ensures
        final(prs).wf(),
        final(prs)@ == reconcile_pulls_spec(old(prs)@, fetched@).0,
        events@ == reconcile_pulls_spec(old(prs)@, fetched@).1,
{
    let ghost orig: Seq<PullRequest> = fetched@;
    let ghost m0: Map<Seq<char>, PullRequest> = prs@;
    let mut fetched = fetched;
    let mut events: Vec<Event<PullAction>> = Vec::new();
    let ghost mut k: int = 0;
    while fetched.len() > 0
        invariant
            prs.wf(),
            0 <= k <= orig.len(),
            fetched@ == orig.skip(k),
            prs@ == reconcile_pulls_spec(m0, orig.take(k)).0,
            events@ == reconcile_pulls_spec(m0, orig.take(k)).1,
        decreases fetched@.len(),
    {
        let f = fetched.remove(0);
        proof {
            assert(f == orig[k]);
            assert(fetched@ =~= orig.skip(k + 1));
        }
        let ghost m1: Map<Seq<char>, PullRequest> = prs@;
        let ghost events_before: Seq<Event<PullAction>> = events@;
        let idx = prs.index_of(f.id.as_str());
        match idx {
            None => {
                proof {
                    prs.lemma_entries();
                    if m1.dom().contains(f.id@) {
                        let j = choose|j: int|
                            0 <= j < prs.entries_seq().len()
                                && #[trigger] prs.entries_seq()[j].key_spec() == f.id@;
                    }
                }
                let act = pull_action(f.is_open, f.is_merged, true);
                events.push((f.last_update, f.id.clone(), act));
                prs.insert(f);
            },
            Some(i) => {
                proof {
                    prs.lemma_entries();
                }
                let mut stored = prs.remove_at(i);
                proof {
                    assert(m1[f.id@] == stored);
                }
                let changed = stored.is_open != f.is_open || stored.is_merged != f.is_merged;
                if changed {
                    let act = pull_action(f.is_open, f.is_merged, false);
                    events.push((f.last_update, f.id.clone(), act));
                }
                stored.update(f);
                prs.insert(stored);
                proof {
                    assert(prs@ =~= pull_step(m1, orig[k]).0);
                }
            },
        }
        proof {
            k = k + 1;
            assert(orig.take(k).drop_last() =~= orig.take(k - 1));
            assert(orig.take(k).last() == orig[k - 1]);
            assert(prs@ == pull_step(m1, orig[k - 1]).0);
            assert(events@ =~= events_before + pull_step(m1, orig[k - 1]).1);
        }
    }
    proof {
        assert(orig.take(orig.len() as int) =~= orig);
    }
    events
}

/// After reconciling, the map stores exactly the fetched items (for their
/// identifiers); other identifiers are untouched.
proof fn lemma_reconcile_issues_stores(m: Map<Seq<char>, Issue>, fetched: Seq<Issue>)
    requires
        distinct_keys(fetched),
    ensures
        forall|i: int|
            0 <= i < fetched.len() ==> {
                let r = reconcile_issues_spec(m, fetched).0;
                r.dom().contains(#[trigger] fetched[i].id@) && r[fetched[i].id@] == fetched[i]
            },
    decreases fetched.len(),
{
    if fetched.len() > 0 {
        let pre = fetched.drop_last();
        lemma_reconcile_issues_stores(m, pre);
        assert forall|i: int| 0 <= i < fetched.len() implies {
            let r = reconcile_issues_spec(m, fetched).0;
            r.dom().contains(#[trigger] fetched[i].id@) && r[fetched[i].id@] == fetched[i]
        } by {
            if i < fetched.len() - 1 {
                assert(pre[i] == fetched[i]);
                assert(fetched.last().id@ != fetched[i].id@);
            }
        }
    }
}

/// An identifier no fetched issue carries is left exactly as it was.
pub proof fn lemma_reconcile_issues_untouched(
    m: Map<Seq<char>, Issue>,
    fetched: Seq<Issue>,
    k: Seq<char>,
)
    requires
        forall|i: int| 0 <= i < fetched.len() ==> #[trigger] fetched[i].id@ != k,
    ensures
        reconcile_issues_spec(m, fetched).0.dom().contains(k) == m.dom().contains(k),
        m.dom().contains(k) ==> reconcile_issues_spec(m, fetched).0[k] == m[k],
    decreases fetched.len(),
{
    if fetched.len() > 0 {
        let pre = fetched.drop_last();
        assert forall|i: int| 0 <= i < pre.len() implies #[trigger] pre[i].id@ != k by {
            assert(fetched[i].id@ != k);
        }
        lemma_reconcile_issues_untouched(m, pre, k);
        assert(fetched[fetched.len() - 1].id@ != k);
    }
}

/// Idempotence of issue reconciliation: when the map
/// already stores every fetched item, reconciling emits nothing and changes
/// nothing.
proof fn lemma_reconcile_issues_stable(m: Map<Seq<char>, Issue>, fetched: Seq<Issue>)
    requires
        forall|i: int|
            0 <= i < fetched.len() ==> m.dom().contains(#[trigger] fetched[i].id@)
                && m[fetched[i].id@] == fetched[i],
    ensures
        reconcile_issues_spec(m, fetched).0 == m,
        reconcile_issues_spec(m, fetched).1 == Seq::<Event<IssueAction>>::empty(),
    decreases fetched.len(),
{
    if fetched.len() > 0 {
        let pre = fetched.drop_last();
        assert forall|i: int| 0 <= i < pre.len() implies m.dom().contains(
            #[trigger] pre[i].id@,
        ) && m[pre[i].id@] == pre[i] by {
            assert(pre[i] == fetched[i]);
        }
        lemma_reconcile_issues_stable(m, pre);
        let f = fetched.last();
        assert(m.dom().contains(f.id@) && m[f.id@] == f);
        assert(m.insert(f.id@, f) =~= m);
        assert(reconcile_issues_spec(m, fetched).1 =~= Seq::<Event<IssueAction>>::empty());
    }
}

/// Reconciling the same fetched issues twice yields no events the second
/// time, and the map stays as the first pass left it.  Requires fetched
/// identifiers to be distinct, as one upstream page cannot report the same
/// entity twice with different statuses.
pub proof fn lemma_reconcile_issues_idempotent(m: Map<Seq<char>, Issue>, fetched: Seq<Issue>)
    requires
        distinct_keys(fetched),
    ensures
        reconcile_issues_spec(reconcile_issues_spec(m, fetched).0, fetched).0
            == reconcile_issues_spec(m, fetched).0,
        reconcile_issues_spec(reconcile_issues_spec(m, fetched).0, fetched).1 == Seq::<
            Event<IssueAction>,
        >::empty(),
{
    lemma_reconcile_issues_stores(m, fetched);
    lemma_reconcile_issues_stable(reconcile_issues_spec(m, fetched).0, fetched);
}

/// Companion facts for pull requests: after reconciling, the map stores the
/// overwrite of each fetched item over what was there.
proof fn lemma_reconcile_pulls_stores(m: Map<Seq<char>, PullRequest>, fetched: Seq<PullRequest>)
    requires
        distinct_keys(fetched),
    ensures
        forall|i: int|
            0 <= i < fetched.len() ==> {
                let r = reconcile_pulls_spec(m, fetched).0;
                r.dom().contains(#[trigger] fetched[i].id@) && r[fetched[i].id@].is_open
                    == fetched[i].is_open && r[fetched[i].id@].is_merged == fetched[i].is_merged
            },
    decreases fetched.len(),
{
    if fetched.len() > 0 {
        let pre = fetched.drop_last();
        lemma_reconcile_pulls_stores(m, pre);
        assert forall|i: int| 0 <= i < fetched.len() implies {
            let r = reconcile_pulls_spec(m, fetched).0;
            r.dom().contains(#[trigger] fetched[i].id@) && r[fetched[i].id@].is_open
                == fetched[i].is_open && r[fetched[i].id@].is_merged == fetched[i].is_merged
        } by {
            if i < fetched.len() - 1 {
                assert(pre[i] == fetched[i]);
                assert(fetched.last().id@ != fetched[i].id@);
            }
        }
    }
}

/// When the map already reflects every fetched pull request's status, a pass
/// emits nothing and leaves every entry's fields — `landed_in` included —
/// unchanged.
proof fn lemma_reconcile_pulls_stable(m: Map<Seq<char>, PullRequest>, fetched: Seq<PullRequest>)
    requires
        forall|i: int|
            0 <= i < fetched.len() ==> m.dom().contains(#[trigger] fetched[i].id@)
                && m[fetched[i].id@] == pull_overwrite(m[fetched[i].id@], fetched[i]),
    ensures
        reconcile_pulls_spec(m, fetched).0 == m,
        reconcile_pulls_spec(m, fetched).1 == Seq::<Event<PullAction>>::empty(),
    decreases fetched.len(),
{
    if fetched.len() > 0 {
        let pre = fetched.drop_last();
        assert forall|i: int| 0 <= i < pre.len() implies m.dom().contains(
            #[trigger] pre[i].id@,
        ) && m[pre[i].id@] == pull_overwrite(m[pre[i].id@], pre[i]) by {
            assert(pre[i] == fetched[i]);
        }
        lemma_reconcile_pulls_stable(m, pre);
        let f = fetched.last();
        assert(m[f.id@].is_open == f.is_open && m[f.id@].is_merged == f.is_merged);
        assert(m.insert(f.id@, pull_overwrite(m[f.id@], f)) =~= m);
        assert(reconcile_pulls_spec(m, fetched).1 =~= Seq::<Event<PullAction>>::empty());
    }
}

/// Reconciling the same fetched pull requests twice yields no events the
/// second time and leaves the map — `landed_in` sets included — unchanged.
pub proof fn lemma_reconcile_pulls_idempotent(
    m: Map<Seq<char>, PullRequest>,
    fetched: Seq<PullRequest>,
)
    requires
        distinct_keys(fetched),
    ensures
        reconcile_pulls_spec(reconcile_pulls_spec(m, fetched).0, fetched).0
            == reconcile_pulls_spec(m, fetched).0,
        reconcile_pulls_spec(reconcile_pulls_spec(m, fetched).0, fetched).1 == Seq::<
            Event<PullAction>,
        >::empty(),
{
    let r = reconcile_pulls_spec(m, fetched).0;
    lemma_reconcile_pulls_stores(m, fetched);
    assert forall|i: int| 0 <= i < fetched.len() implies r.dom().contains(
        #[trigger] fetched[i].id@,
    ) && r[fetched[i].id@] == pull_overwrite(r[fetched[i].id@], fetched[i]) by {
        lemma_reconcile_pulls_overwrite(m, fetched, i);
    }
    lemma_reconcile_pulls_stable(r, fetched);
}

/// The stored entry for a fetched pull request is the overwrite of the
/// fetched item over something, so overwriting it again changes nothing.
proof fn lemma_reconcile_pulls_overwrite(
    m: Map<Seq<char>, PullRequest>,
    fetched: Seq<PullRequest>,
    i: int,
)
    requires
        distinct_keys(fetched),
        0 <= i < fetched.len(),
    ensures
        ({
            let r = reconcile_pulls_spec(m, fetched).0;
            r.dom().contains(fetched[i].id@) && r[fetched[i].id@] == pull_overwrite(
                r[fetched[i].id@],
                fetched[i],
            )
        }),
    decreases fetched.len(),
{
    let pre = fetched.drop_last();
    let r = reconcile_pulls_spec(m, fetched).0;
    let rpre = reconcile_pulls_spec(m, pre).0;
    let f = fetched.last();
    if i == fetched.len() - 1 {
        if !rpre.dom().contains(f.id@) {
            assert(r[f.id@] == f);
            assert(pull_overwrite(f, f) == f);
        } else {
            let merged = pull_overwrite(rpre[f.id@], f);
            assert(r[f.id@] == merged);
            assert(pull_overwrite(merged, f) == merged);
        }
    } else {
        assert forall|a: int, b: int| 0 <= a < b < pre.len() implies pre[a].id@ != pre[b].id@ by {
            assert(fetched[a].id@ != fetched[b].id@);
        }
        lemma_reconcile_pulls_overwrite(m, pre, i);
        assert(pre[i] == fetched[i]);
        assert(f.id@ != fetched[i].id@);
        assert(r[fetched[i].id@] == rpre[fetched[i].id@]);
    }
}

/// First-sight terminal state: an issue fetched for the
/// first time already closed yields exactly one combined created-and-closed
/// event, never a created event followed by a closed one.
pub proof fn lemma_first_sight_closed(m: Map<Seq<char>, Issue>, f: Issue)
    requires
        !m.dom().contains(f.id@),
        !f.is_open,
    ensures
        reconcile_issues_spec(m, seq![f]).1 == seq![
            (f.last_update, f.id, IssueAction::NewClosed),
        ],
{
    let s = seq![f];
    assert(s.len() == 1);
    assert(s.drop_last() =~= Seq::<Issue>::empty());
    assert(s.last() == f);
    assert(reconcile_issues_spec(m, s.drop_last()).1 == Seq::<Event<IssueAction>>::empty());
    assert(reconcile_issues_spec(m, s.drop_last()).0 == m);
    assert(issue_step(m, f).1 == seq![(f.last_update, f.id, IssueAction::NewClosed)]);
    assert(reconcile_issues_spec(m, s).1 =~= seq![
        (f.last_update, f.id, IssueAction::NewClosed),
    ]);
}

/// Pull-request reconciliation never shrinks a stored `landed_in` set: a
/// fetched snapshot overwrites upstream fields only.
pub proof fn lemma_reconcile_pulls_landed_monotone(
    m: Map<Seq<char>, PullRequest>,
    fetched: Seq<PullRequest>,
    k: Seq<char>,
)
    requires
        m.dom().contains(k),
    ensures
        reconcile_pulls_spec(m, fetched).0.dom().contains(k),
        reconcile_pulls_spec(m, fetched).0[k].landed_in == m[k].landed_in,
    decreases fetched.len(),
{
    if fetched.len() > 0 {
        lemma_reconcile_pulls_landed_monotone(m, fetched.drop_last(), k);
    }
}

} // verus!
