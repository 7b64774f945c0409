//! The append-only history log: event ordering, sorting of a run's new
//! events, and the per-kind watermark.
//!
//! Events produced by one run are sorted by (timestamp, entity id, action
//! rank) before they are appended; the watermark then advances to the latest
//! event timestamp seen, never regressing.

use vstd::prelude::*;

use crate::text::{lemma_lex_le_total, lex_lt, str_eq, str_lex_lt};
use crate::time::DateTime;
use crate::types::{Event, Issue, IssueAction, PullAction, State};
use crate::reconcile::{reconcile_issues, reconcile_issues_spec};

verus! {

/// An action's place in the tiebreak order of simultaneous events on one
/// entity.
pub trait ActionRank {
    /// The rank.
    spec fn rank_spec(&self) -> int;

    /// Computes the rank.
    fn rank(&self) -> (r: u64)
        ensures
            r as int == self.rank_spec(),
    ;
}

impl ActionRank for IssueAction {
    open spec fn rank_spec(&self) -> int {
        match *self {
            IssueAction::New => 0,
            IssueAction::Closed => 1,
            IssueAction::NewClosed => 2,
        }
    }

    fn rank(&self) -> (r: u64) {
        match *self {
            IssueAction::New => 0,
            IssueAction::Closed => 1,
            IssueAction::NewClosed => 2,
        }
    }
}

impl ActionRank for PullAction {
    open spec fn rank_spec(&self) -> int {
        match *self {
            PullAction::New => 0,
            PullAction::Closed => 1,
            PullAction::NewClosed => 2,
            PullAction::Merged => 3,
            PullAction::NewMerged => 4,
            PullAction::Landed(_) => 5,
        }
    }

    fn rank(&self) -> (r: u64) {
        match *self {
            PullAction::New => 0,
            PullAction::Closed => 1,
            PullAction::NewClosed => 2,
            PullAction::Merged => 3,
            PullAction::NewMerged => 4,
            PullAction::Landed(_) => 5,
        }
    }
}

/// History order: ascending by timestamp, then entity identifier, then
/// action rank.
pub open spec fn event_le<A: ActionRank>(a: Event<A>, b: Event<A>) -> bool {
    a.0.secs < b.0.secs || (a.0.secs == b.0.secs && lex_lt(a.1@, b.1@)) || (a.0.secs == b.0.secs
        && a.1@ == b.1@ && a.2.rank_spec() <= b.2.rank_spec())
}

/// Decides [`event_le`].
fn event_le_exec<A: ActionRank>(a: &Event<A>, b: &Event<A>) -> (r: bool)
    ensures
        r == event_le(*a, *b),
{
    if a.0.secs < b.0.secs {
        true
    } else if a.0.secs > b.0.secs {
        false
    } else if str_lex_lt(a.1.as_str(), b.1.as_str()) {
        true
    } else if str_eq(a.1.as_str(), b.1.as_str()) {
        a.2.rank() <= b.2.rank()
    } else {
        false
    }
}

/// `e` inserted after every element that is at or below it: the insertion
/// step of a stable insertion sort.
pub open spec fn insort_one<A: ActionRank>(e: Event<A>, s: Seq<Event<A>>) -> Seq<Event<A>>
    decreases s.len(),
{
    if s.len() > 0 && event_le(s[0], e) {
        seq![s[0]] + insort_one(e, s.drop_first())
    } else {
        seq![e] + s
    }
}

/// Stable insertion sort by [`event_le`].
pub open spec fn insort<A: ActionRank>(s: Seq<Event<A>>) -> Seq<Event<A>>
    decreases s.len(),
{
    if s.len() == 0 {
        Seq::empty()
    } else {
        insort_one(s.last(), insort(s.drop_last()))
    }
}

/// Where the scan stopped is where `insort_one` places the element.
proof fn lemma_insort_one_at<A: ActionRank>(e: Event<A>, s: Seq<Event<A>>, j: int)
    requires
        0 <= j <= s.len(),
        forall|i: int| 0 <= i < j ==> event_le(#[trigger] s[i], e),
        j < s.len() ==> !event_le(s[j], e),
    ensures
        insort_one(e, s) == s.take(j) + seq![e] + s.skip(j),
    decreases j,
{
    if j == 0 {
        assert(insort_one(e, s) == seq![e] + s);
        assert(s.take(0) + seq![e] + s.skip(0) =~= seq![e] + s);
    } else {
        assert(event_le(s[0], e));
        let rest = s.drop_first();
        assert forall|i: int| 0 <= i < j - 1 implies event_le(#[trigger] rest[i], e) by {
            assert(rest[i] == s[i + 1]);
        }
        if j - 1 < rest.len() {
            assert(rest[j - 1] == s[j]);
        }
        lemma_insort_one_at(e, rest, j - 1);
        assert(seq![s[0]] + (rest.take(j - 1) + seq![e] + rest.skip(j - 1)) =~= s.take(j)
            + seq![e] + s.skip(j));
    }
}

/// Sorts a run's events by (timestamp, identifier, action rank); equal keys
/// keep their order.
pub fn sort_events<A: ActionRank>(events: Vec<Event<A>>) -> (r: Vec<Event<A>>)
    ensures
        r@ == insort(events@),
{
    let ghost orig: Seq<Event<A>> = events@;
    let mut events = events;
    let mut r: Vec<Event<A>> = Vec::new();
    let ghost mut k: int = 0;
    while events.len() > 0
        invariant
            0 <= k <= orig.len(),
            events@ == orig.skip(k),
            r@ == insort(orig.take(k)),
        decreases events@.len(),
    {
        let e = events.remove(0);
        proof {
            assert(e == orig[k]);
            assert(events@ =~= orig.skip(k + 1));
        }
        let ghost r_before: Seq<Event<A>> = r@;
        let mut j: usize = 0;
        while j < r.len() && event_le_exec(&r[j], &e)
            invariant
                0 <= j <= r@.len(),
                r@ == r_before,
                forall|i: int| 0 <= i < j ==> event_le(#[trigger] r@[i], e),
            decreases r@.len() - j,
        {
            j = j + 1;
        }
        proof {
            lemma_insort_one_at(e, r@, j as int);
        }
        r.insert(j, e);
        proof {
            k = k + 1;
            assert(r@ =~= r_before.take(j as int) + seq![e] + r_before.skip(j as int));
            assert(orig.take(k).drop_last() =~= orig.take(k - 1));
            assert(orig.take(k).last() == orig[k - 1]);
        }
    }
    proof {
        assert(orig.take(orig.len() as int) =~= orig);
    }
    r
}

/// Ascending by the history order.
pub open spec fn events_sorted<A: ActionRank>(s: Seq<Event<A>>) -> bool {
    forall|i: int, j: int| 0 <= i < j < s.len() ==> event_le(#[trigger] s[i], #[trigger] s[j])
}

/// The history order relates every pair of events one way or the other.
proof fn lemma_event_le_total<A: ActionRank>(a: Event<A>, b: Event<A>)
    ensures
        event_le(a, b) || event_le(b, a),
{
    if a.0.secs == b.0.secs {
        lemma_lex_le_total(a.1@, b.1@);
        if a.1@ == b.1@ {
        } else if crate::text::lex_le(a.1@, b.1@) {
            assert(lex_lt(a.1@, b.1@));
        } else {
            assert(lex_lt(b.1@, a.1@));
        }
    }
}

/// The history order is transitive.
proof fn lemma_event_le_transitive<A: ActionRank>(a: Event<A>, b: Event<A>, c: Event<A>)
    requires
        event_le(a, b),
        event_le(b, c),
    ensures
        event_le(a, c),
{
    if a.0.secs == b.0.secs && b.0.secs == c.0.secs {
        if lex_lt(a.1@, b.1@) && lex_lt(b.1@, c.1@) {
            crate::text::lemma_lex_lt_transitive(a.1@, b.1@, c.1@);
        }
    }
}

/// Everything in an insertion step's output is the inserted event or one of
/// the sequence's own.
proof fn lemma_insort_one_members<A: ActionRank>(e: Event<A>, s: Seq<Event<A>>, i: int)
    requires
        0 <= i < insort_one(e, s).len(),
    ensures
        insort_one(e, s)[i] == e || s.contains(insort_one(e, s)[i]),
    decreases s.len(),
{
    if s.len() > 0 && event_le(s[0], e) {
        let r = insort_one(e, s);
        assert(r == seq![s[0]] + insort_one(e, s.drop_first()));
        if i == 0 {
            assert(s.contains(s[0]));
        } else {
            lemma_insort_one_members(e, s.drop_first(), i - 1);
            if s.drop_first().contains(r[i]) {
                let w = choose|w: int|
                    0 <= w < s.drop_first().len() && s.drop_first()[w] == r[i];
                assert(s[w + 1] == r[i]);
            }
        }
    } else {
        if i > 0 {
            assert(insort_one(e, s)[i] == s[i - 1]);
        }
    }
}

/// Inserting into a sorted sequence keeps it sorted.
proof fn lemma_insort_one_sorted<A: ActionRank>(e: Event<A>, s: Seq<Event<A>>)
    requires
        events_sorted(s),
    ensures
        events_sorted(insort_one(e, s)),
    decreases s.len(),
{
    let r = insort_one(e, s);
    if s.len() > 0 && event_le(s[0], e) {
        let rest = s.drop_first();
        assert forall|a: int, b: int| 0 <= a < b < rest.len() implies event_le(
            #[trigger] rest[a],
            #[trigger] rest[b],
        ) by {
            assert(event_le(s[a + 1], s[b + 1]));
        }
        lemma_insort_one_sorted(e, rest);
        assert forall|a: int, b: int| 0 <= a < b < r.len() implies event_le(
            #[trigger] r[a],
            #[trigger] r[b],
        ) by {
            if a == 0 {
                lemma_insort_one_members(e, rest, b - 1);
                if r[b] == e {
                } else {
                    let w = choose|w: int| 0 <= w < rest.len() && rest[w] == r[b];
                    assert(event_le(s[0], s[w + 1]));
                }
            } else {
                assert(event_le(insort_one(e, rest)[a - 1], insort_one(e, rest)[b - 1]));
            }
        }
    } else {
        lemma_event_le_total(e, if s.len() > 0 {
            s[0]
        } else {
            e
        });
        assert forall|a: int, b: int| 0 <= a < b < r.len() implies event_le(
            #[trigger] r[a],
            #[trigger] r[b],
        ) by {
            if a == 0 {
                assert(r[b] == s[b - 1]);
                if b - 1 > 0 {
                    assert(event_le(s[0], s[b - 1]));
                    lemma_event_le_transitive(e, s[0], s[b - 1]);
                }
            } else {
                assert(event_le(s[a - 1], s[b - 1]));
            }
        }
    }
}

/// History order: a run's new events are appended in
/// ascending (timestamp, identifier, action rank) order.
pub proof fn lemma_insort_sorted<A: ActionRank>(s: Seq<Event<A>>)
    ensures
        events_sorted(insort(s)),
    decreases s.len(),
{
    if s.len() > 0 {
        lemma_insort_sorted(s.drop_last());
        lemma_insort_one_sorted(s.last(), insort(s.drop_last()));
    }
}

/// The watermark after appending a sorted batch: the batch's last (latest)
/// timestamp, except that the watermark never regresses — on an empty batch
/// it is untouched.
pub open spec fn advanced_watermark<A>(w: Option<DateTime>, sorted: Seq<Event<A>>) -> Option<
    DateTime,
> {
    if sorted.len() == 0 {
        w
    } else {
        match w {
            None => Some(sorted.last().0),
            Some(d) => Some(
                if d.secs >= sorted.last().0.secs {
                    d
                } else {
                    sorted.last().0
                },
            ),
        }
    }
}

/// Watermark monotonicity: however a run went, the
/// advanced watermark is never earlier than the old one.
pub proof fn lemma_watermark_monotone<A>(w: Option<DateTime>, sorted: Seq<Event<A>>)
    ensures
        w is Some ==> advanced_watermark(w, sorted) is Some && w.unwrap().spec_le(
            advanced_watermark(w, sorted).unwrap(),
        ),
{
}

/// Computes [`advanced_watermark`] for a sorted batch.
fn advance_watermark<A: ActionRank>(w: Option<DateTime>, sorted: &Vec<Event<A>>) -> (r: Option<
    DateTime,
>)
    ensures
        r == advanced_watermark(w, sorted@),
{
    if sorted.len() == 0 {
        w
    } else {
        let at = sorted[sorted.len() - 1].0;
        match w {
            None => Some(at),
            Some(d) => Some(d.max(at)),
        }
    }
}

/// Synchronizes the issue side of the state against one fetched snapshot
/// list: reconcile, sort the new events, append them to the history, and
/// advance the watermark.  Nothing else in the state is touched.
pub fn sync_issues(state: &mut State, fetched: Vec<Issue>)
    requires
        old(state).wf(),
    ensures
        final(state).wf(),
        final(state).issues@ == reconcile_issues_spec(old(state).issues@, fetched@).0,
        final(state).issue_history@ == old(state).issue_history@ + insort(
            reconcile_issues_spec(old(state).issues@, fetched@).1,
        ),
        final(state).issues_updated == advanced_watermark(
            old(state).issues_updated,
            insort(reconcile_issues_spec(old(state).issues@, fetched@).1),
        ),
        final(state).pull_requests == old(state).pull_requests,
        final(state).pull_history == old(state).pull_history,
        final(state).pull_requests_updated == old(state).pull_requests_updated,
        final(state).version == old(state).version,
        final(state).owner == old(state).owner,
        final(state).repo == old(state).repo,
        final(state).label == old(state).label,
{
    let events = reconcile_issues(&mut state.issues, fetched);
    let mut sorted = sort_events(events);
    state.issues_updated = advance_watermark(state.issues_updated, &sorted);
    state.issue_history.append(&mut sorted);
}

/// Finishes a pull-request run: sorts the accumulated events (reconciliation
/// and landing detection both feed this), appends them to the history, and
/// advances the watermark.  The snapshot maps are not touched.
pub fn finish_pull_sync(state: &mut State, events: Vec<Event<PullAction>>)
    requires
        old(state).wf(),
    ensures
        final(state).wf(),
        final(state).pull_history@ == old(state).pull_history@ + insort(events@),
        final(state).pull_requests_updated == advanced_watermark(
            old(state).pull_requests_updated,
            insort(events@),
        ),
        final(state).issues == old(state).issues,
        final(state).issue_history == old(state).issue_history,
        final(state).issues_updated == old(state).issues_updated,
        final(state).pull_requests == old(state).pull_requests,
        final(state).version == old(state).version,
        final(state).owner == old(state).owner,
        final(state).repo == old(state).repo,
        final(state).label == old(state).label,
{
    let mut sorted = sort_events(events);
    state.pull_requests_updated = advance_watermark(state.pull_requests_updated, &sorted);
    state.pull_history.append(&mut sorted);
}

} // verus!
