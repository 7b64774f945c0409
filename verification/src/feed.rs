//! The feed surface: windowed reads over the history, rendered to plain
//! feed entries with stable deduplication keys.
//!
//! A windowed read restricts the history to events at or after a cutoff and
//! lists them most-recent-first.  Each entry looks up the entity's current
//! snapshot; an event whose entity is missing from the snapshot map is a
//! fatal corruption signal, never silently skipped.  The deduplication key of
//! an entry is (timestamp, entity id, action-specific suffix): the suffix is
//! empty except for landings, which append the channels, so repeated reads
//! over unchanged history yield identical keys.

use vstd::prelude::*;

use crate::time::DateTime;
use crate::types::{Event, Issue, IssueAction, PullAction, PullRequest, State};

verus! {

/// The events of `history` at or after `cutoff`, most-recent-first.
pub open spec fn window_spec<A>(history: Seq<Event<A>>, cutoff: DateTime) -> Seq<Event<A>> {
    history.filter(|e: Event<A>| cutoff.spec_le(e.0)).reverse()
}

/// A history event referencing an entity the snapshot map does not know:
/// a data-integrity fault, fatal to the read.
#[derive(Debug)]
pub struct CorruptHistory {
    pub id: String,
}

/// One feed entry, ready for rendering: a headline, the entity's link and
/// body, and the parts of the deduplication key.
#[derive(Debug)]
pub struct FeedItem {
    pub headline: String,
    pub link: String,
    pub body: String,
    pub at: DateTime,
    pub key_id: String,
    pub key_suffix: String,
}

/// The headline tag of an issue event.
pub open spec fn issue_tag(a: IssueAction) -> Seq<char> {
    match a {
        IssueAction::New => "[NEW]"@,
        IssueAction::Closed => "[CLOSED]"@,
        IssueAction::NewClosed => "[NEW][CLOSED]"@,
    }
}

/// The headline tag of a pull request event.
pub open spec fn pull_tag(a: PullAction) -> Seq<char> {
    match a {
        PullAction::New => "[NEW]"@,
        PullAction::Closed => "[CLOSED]"@,
        PullAction::NewClosed => "[NEW][CLOSED]"@,
        PullAction::Merged => "[MERGED]"@,
        PullAction::NewMerged => "[NEW][MERGED]"@,
        PullAction::Landed(_) => "[LANDED]"@,
    }
}

/// The strings of `parts` joined with `sep` between consecutive ones.
pub open spec fn joined(parts: Seq<String>, sep: Seq<char>) -> Seq<char>
    decreases parts.len(),
{
    if parts.len() == 0 {
        Seq::empty()
    } else if parts.len() == 1 {
        parts[0]@
    } else {
        joined(parts.drop_last(), sep) + sep + parts.last()@
    }
}

/// Joins strings with a separator.
pub fn join_strings(parts: &Vec<String>, sep: &str) -> (r: String)
    ensures
        r@ == joined(parts@, sep@),
{
    let mut r = String::new();
    let mut i: usize = 0;
    proof {
        assert(r@ =~= joined(parts@.take(0), sep@));
    }
    while i < parts.len()
        invariant
            0 <= i <= parts@.len(),
            r@ == joined(parts@.take(i as int), sep@),
        decreases parts@.len() - i,
    {
        if i > 0 {
            r.append(sep);
        }
        r.append(parts[i].as_str());
        proof {
            assert(parts@.take(i + 1).drop_last() =~= parts@.take(i as int));
            assert(parts@.take(i + 1).last() == parts@[i as int]);
            if i == 0 {
                assert(r@ =~= joined(parts@.take(1), sep@));
            } else {
                assert(r@ =~= joined(parts@.take(i + 1), sep@));
            }
        }
        i = i + 1;
    }
    proof {
        assert(parts@.take(parts@.len() as int) =~= parts@);
    }
    r
}

/// The references shown beside a pull request's tag: the channels for a
/// landing, the base branch otherwise.
pub open spec fn pull_refs(a: PullAction, base_ref: String) -> Seq<char> {
    match a {
        PullAction::Landed(l) => joined(l@, " "@),
        _ => base_ref@,
    }
}

/// The deduplication-key suffix of a pull request event: empty except for
/// landings, which name the channels.
pub open spec fn pull_suffix(a: PullAction) -> Seq<char> {
    match a {
        PullAction::Landed(l) => "/landed/"@ + joined(l@, "/"@),
        _ => Seq::empty(),
    }
}

/// The feed entry an issue event and its current snapshot denote.
pub open spec fn issue_feed_item(e: Event<IssueAction>, it: Issue, f: FeedItem) -> bool {
    &&& f.headline@ == issue_tag(e.2) + " "@ + it.title@
    &&& f.link@ == it.url@
    &&& f.body@ == it.body@
    &&& f.at == e.0
    &&& f.key_id@ == e.1@
    &&& f.key_suffix@ == Seq::<char>::empty()
}

/// The feed entry a pull request event and its current snapshot denote.
pub open spec fn pull_feed_item(e: Event<PullAction>, it: PullRequest, f: FeedItem) -> bool {
    &&& f.headline@ == pull_tag(e.2) + "("@ + pull_refs(e.2, it.base_ref) + ") "@ + it.title@
    &&& f.link@ == it.url@
    &&& f.body@ == it.body@
    &&& f.at == e.0
    &&& f.key_id@ == e.1@
    &&& f.key_suffix@ == pull_suffix(e.2)
}

/// The windowed issue feed: one entry per issue event at or after `cutoff`,
/// most-recent-first, each rendered against the issue's current snapshot.
/// Fails exactly when some event in the window references an unknown issue.
pub fn emit_issues(state: &State, cutoff: DateTime) -> (r: Result<Vec<FeedItem>, CorruptHistory>)
    requires
        state.wf(),
    ensures
        match r {
            Ok(items) => {
                let w = window_spec(state.issue_history@, cutoff);
                &&& items@.len() == w.len()
                &&& forall|i: int|
                    0 <= i < w.len() ==> state.issues@.dom().contains(#[trigger] w[i].1@)
                        && issue_feed_item(w[i], state.issues@[w[i].1@], items@[i])
            },
            Err(e) => exists|i: int|
                0 <= i < window_spec(state.issue_history@, cutoff).len() && #[trigger] window_spec(
                    state.issue_history@,
                    cutoff,
                )[i].1@ == e.id@ && !state.issues@.dom().contains(e.id@),
        },
{
    let history = &state.issue_history;
    let ghost filtered: Seq<Event<IssueAction>> = state.issue_history@.filter(
        |e: Event<IssueAction>| cutoff.spec_le(e.0),
    );
    let mut fwd: Vec<FeedItem> = Vec::new();
    let mut j: usize = 0;
    let ghost mut kept: Seq<Event<IssueAction>> = Seq::empty();
    proof {
        reveal(Seq::filter);
        assert(kept =~= state.issue_history@.take(0).filter(
            |e: Event<IssueAction>| cutoff.spec_le(e.0),
        ));
    }
    while j < history.len()
        invariant
            state.wf(),
            history == &state.issue_history,
            0 <= j <= history@.len(),
            filtered == state.issue_history@.filter(
                |e: Event<IssueAction>| cutoff.spec_le(e.0),
            ),
            kept == state.issue_history@.take(j as int).filter(
                |e: Event<IssueAction>| cutoff.spec_le(e.0),
            ),
            fwd@.len() == kept.len(),
            forall|i: int|
                0 <= i < kept.len() ==> state.issues@.dom().contains(#[trigger] kept[i].1@)
                    && issue_feed_item(kept[i], state.issues@[kept[i].1@], fwd@[i]),
        decreases history@.len() - j,
    {
        let e = &history[j];
        let keep = cutoff.le(&e.0);
        proof {
            reveal(Seq::filter);
            assert(state.issue_history@.take(j + 1).drop_last() =~= state.issue_history@.take(
                j as int,
            ));
            assert(state.issue_history@.take(j + 1).last() == state.issue_history@[j as int]);
        }
        if keep {
            match state.issues.get(e.1.as_str()) {
                None => {
                    proof {
                        lemma_filter_take_subset(
                            state.issue_history@,
                            |e: Event<IssueAction>| cutoff.spec_le(e.0),
                            j as int,
                        );
                        let p = choose|p: int|
                            0 <= p < filtered.len() && #[trigger] filtered[p]
                                == state.issue_history@[j as int];
                        let w = window_spec(state.issue_history@, cutoff);
                        assert(w == filtered.reverse());
                        assert(window_spec(state.issue_history@, cutoff)[w.len() - 1 - p]
                            == filtered[p]);
                    }
                    return Err(CorruptHistory { id: crate::string_set::clone_string(&e.1) });
                },
                Some(entity) => {
                    let tag: &str = match e.2 {
                        IssueAction::New => "[NEW]",
                        IssueAction::Closed => "[CLOSED]",
                        IssueAction::NewClosed => "[NEW][CLOSED]",
                    };
                    let mut headline = String::new();
                    headline.append(tag);
                    headline.append(" ");
                    headline.append(entity.title.as_str());
                    let item = FeedItem {
                        headline,
                        link: crate::string_set::clone_string(&entity.url),
                        body: crate::string_set::clone_string(&entity.body),
                        at: e.0,
                        key_id: crate::string_set::clone_string(&e.1),
                        key_suffix: String::new(),
                    };
                    proof {
                        assert(issue_feed_item(
                            state.issue_history@[j as int],
                            state.issues@[state.issue_history@[j as int].1@],
                            item,
                        ));
                        kept = kept.push(state.issue_history@[j as int]);
                    }
                    fwd.push(item);
                },
            }
        }
        j = j + 1;
    }
    proof {
        assert(state.issue_history@.take(state.issue_history@.len() as int)
            =~= state.issue_history@);
    }
    let items = reverse_items(fwd);
    proof {
        let w = window_spec(state.issue_history@, cutoff);
        assert(w.len() == kept.len());
        assert forall|i: int| 0 <= i < w.len() implies state.issues@.dom().contains(
            #[trigger] w[i].1@,
        ) && issue_feed_item(w[i], state.issues@[w[i].1@], items@[i]) by {
            assert(w[i] == kept[kept.len() - 1 - i]);
            assert(items@[i] == fwd@[fwd@.len() - 1 - i]);
        }
    }
    Ok(items)
}

/// The windowed pull request feed, like the issue feed; the entry for a
/// landing names the channels both in the headline and in the key suffix.
pub fn emit_prs(state: &State, cutoff: DateTime) -> (r: Result<Vec<FeedItem>, CorruptHistory>)
    requires
        state.wf(),
    ensures
        match r {
            Ok(items) => {
                let w = window_spec(state.pull_history@, cutoff);
                &&& items@.len() == w.len()
                &&& forall|i: int|
                    0 <= i < w.len() ==> state.pull_requests@.dom().contains(#[trigger] w[i].1@)
                        && pull_feed_item(w[i], state.pull_requests@[w[i].1@], items@[i])
            },
            Err(e) => exists|i: int|
                0 <= i < window_spec(state.pull_history@, cutoff).len() && #[trigger] window_spec(
                    state.pull_history@,
                    cutoff,
                )[i].1@ == e.id@ && !state.pull_requests@.dom().contains(e.id@),
        },
{
    let history = &state.pull_history;
    let ghost filtered: Seq<Event<PullAction>> = state.pull_history@.filter(
        |e: Event<PullAction>| cutoff.spec_le(e.0),
    );
    let mut fwd: Vec<FeedItem> = Vec::new();
    let mut j: usize = 0;
    let ghost mut kept: Seq<Event<PullAction>> = Seq::empty();
    proof {
        reveal(Seq::filter);
        assert(kept =~= state.pull_history@.take(0).filter(
            |e: Event<PullAction>| cutoff.spec_le(e.0),
        ));
    }
    while j < history.len()
        invariant
            state.wf(),
            history == &state.pull_history,
            0 <= j <= history@.len(),
            filtered == state.pull_history@.filter(
                |e: Event<PullAction>| cutoff.spec_le(e.0),
            ),
            kept == state.pull_history@.take(j as int).filter(
                |e: Event<PullAction>| cutoff.spec_le(e.0),
            ),
            fwd@.len() == kept.len(),
            forall|i: int|
                0 <= i < kept.len() ==> state.pull_requests@.dom().contains(#[trigger] kept[i].1@)
                    && pull_feed_item(kept[i], state.pull_requests@[kept[i].1@], fwd@[i]),
        decreases history@.len() - j,
    {
        let e = &history[j];
        let keep = cutoff.le(&e.0);
        proof {
            reveal(Seq::filter);
            assert(state.pull_history@.take(j + 1).drop_last() =~= state.pull_history@.take(
                j as int,
            ));
            assert(state.pull_history@.take(j + 1).last() == state.pull_history@[j as int]);
        }
        if keep {
            match state.pull_requests.get(e.1.as_str()) {
                None => {
                    proof {
                        lemma_filter_take_subset(
                            state.pull_history@,
                            |e: Event<PullAction>| cutoff.spec_le(e.0),
                            j as int,
                        );
                        let p = choose|p: int|
                            0 <= p < filtered.len() && #[trigger] filtered[p]
                                == state.pull_history@[j as int];
                        let w = window_spec(state.pull_history@, cutoff);
                        assert(w == filtered.reverse());
                        assert(window_spec(state.pull_history@, cutoff)[w.len() - 1 - p]
                            == filtered[p]);
                    }
                    return Err(CorruptHistory { id: crate::string_set::clone_string(&e.1) });
                },
                Some(entity) => {
                    let tag: &str = match &e.2 {
                        PullAction::New => "[NEW]",
                        PullAction::Closed => "[CLOSED]",
                        PullAction::NewClosed => "[NEW][CLOSED]",
                        PullAction::Merged => "[MERGED]",
                        PullAction::NewMerged => "[NEW][MERGED]",
                        PullAction::Landed(_) => "[LANDED]",
                    };
                    let refs: String = match &e.2 {
                        PullAction::Landed(l) => join_strings(l, " "),
                        _ => crate::string_set::clone_string(&entity.base_ref),
                    };
                    let suffix: String = match &e.2 {
                        PullAction::Landed(l) => {
                            let mut s = String::new();
                            s.append("/landed/");
                            let joined_channels = join_strings(l, "/");
                            s.append(joined_channels.as_str());
                            s
                        },
                        _ => String::new(),
                    };
                    let mut headline = String::new();
                    headline.append(tag);
                    headline.append("(");
                    headline.append(refs.as_str());
                    headline.append(") ");
                    headline.append(entity.title.as_str());
                    let item = FeedItem {
                        headline,
                        link: crate::string_set::clone_string(&entity.url),
                        body: crate::string_set::clone_string(&entity.body),
                        at: e.0,
                        key_id: crate::string_set::clone_string(&e.1),
                        key_suffix: suffix,
                    };
                    proof {
                        assert(pull_feed_item(
                            state.pull_history@[j as int],
                            state.pull_requests@[state.pull_history@[j as int].1@],
                            item,
                        ));
                        kept = kept.push(state.pull_history@[j as int]);
                    }
                    fwd.push(item);
                },
            }
        }
        j = j + 1;
    }
    proof {
        assert(state.pull_history@.take(state.pull_history@.len() as int) =~= state.pull_history@);
    }
    let items = reverse_items(fwd);
    proof {
        let w = window_spec(state.pull_history@, cutoff);
        assert(w.len() == kept.len());
        assert forall|i: int| 0 <= i < w.len() implies state.pull_requests@.dom().contains(
            #[trigger] w[i].1@,
        ) && pull_feed_item(w[i], state.pull_requests@[w[i].1@], items@[i]) by {
            assert(w[i] == kept[kept.len() - 1 - i]);
            assert(items@[i] == fwd@[fwd@.len() - 1 - i]);
        }
    }
    Ok(items)
}

/// An element kept by a filtered prefix is kept by the whole filter.
proof fn lemma_filter_take_subset<A>(s: Seq<A>, pred: spec_fn(A) -> bool, j: int)
    requires
        0 <= j < s.len(),
        pred(s[j]),
    ensures
        exists|p: int| 0 <= p < s.filter(pred).len() && #[trigger] s.filter(pred)[p] == s[j],
    decreases s.len(),
{
    reveal(Seq::filter);
    if s.len() > 0 {
        if j == s.len() - 1 {
            assert(s.filter(pred).last() == s[j]);
            assert(s.filter(pred)[s.filter(pred).len() - 1] == s[j]);
        } else {
            lemma_filter_take_subset(s.drop_last(), pred, j);
            let p = choose|p: int|
                0 <= p < s.drop_last().filter(pred).len() && #[trigger] s.drop_last().filter(pred)[p]
                    == s.drop_last()[j];
            assert(s.filter(pred)[p] == s[j]);
        }
    }
}

/// Reverses a vector of feed items.
fn reverse_items(v: Vec<FeedItem>) -> (r: Vec<FeedItem>)
    ensures
        r@ == v@.reverse(),
{
    let ghost orig: Seq<FeedItem> = v@;
    let mut v = v;
    let mut r: Vec<FeedItem> = Vec::new();
    proof {
        assert(orig.take(orig.len() as int) =~= orig);
        assert(orig.skip(orig.len() as int).reverse() =~= Seq::<FeedItem>::empty());
    }
    while v.len() > 0
        invariant
            v@.len() <= orig.len(),
            v@ == orig.take(v@.len() as int),
            r@ == orig.skip(v@.len() as int).reverse(),
        decreases v@.len(),
    {
        let ghost k: int = v@.len() as int;
        let x = v.pop().unwrap();
        proof {
            let n = v@.len() as int;
            assert(n == k - 1);
            assert(x == orig.take(k)[k - 1]);
            assert(x == orig[n]);
            assert(v@ =~= orig.take(n));
            assert(orig.skip(n).reverse() =~= orig.skip(n + 1).reverse().push(orig[n]));
        }
        r.push(x);
    }
    proof {
        assert(orig.skip(0) =~= orig);
        assert(orig.take(orig.len() as int) =~= orig);
    }
    r
}

} // verus!
