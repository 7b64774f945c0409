//! The point-lookup surface: which channels a pull request has landed in.
//!
//! A lookup must distinguish an unknown pull request from a known one that
//! has not landed anywhere, and a number too large for the store from both.

use vstd::prelude::*;

use crate::store::{landings_of, Db, ForPrError, Landing, PrNumber, PrNumberTooLarge};

verus! {

/// A channel name, as served to lookup clients.
#[derive(PartialEq, Eq, Debug)]
pub struct Channel(pub String);

impl Channel {
    /// A channel with this name.
    pub fn new(s: &str) -> (r: Channel)
        ensures
            r.0@ == s@,
    {
        Channel(s.to_owned())
    }
}

/// The channels a pull request has landed in; possibly none.
#[derive(PartialEq, Eq, Debug)]
pub struct LandedIn {
    pub channels: Vec<Channel>,
}

/// Why a lookup failed.
#[derive(Clone, Copy, PartialEq, Eq, Structural, Debug)]
pub enum LandedError {
    PrNumberTooLarge,
    ForPr(ForPrError),
}

/// Looks up the channels the pull request numbered `pr` has landed in: one
/// per recorded landing, in recording order, named after the landing's
/// branch.  A number that does not fit the store is refused; so is one the
/// store does not know.
pub fn landed(db: &Db, pr: u32) -> (r: Result<LandedIn, LandedError>)
    requires
        db.wf(),
    ensures
        match r {
            Ok(l) => pr <= i32::MAX && (exists|i: int|
                0 <= i < db.prs_seq().len() && (#[trigger] db.prs_seq()[i]).number == PrNumber(
                    pr as i32,
                )) && l.channels@.len() == landings_of(
                db.landings_seq(),
                PrNumber(pr as i32),
            ).len() && forall|j: int|
                #![trigger l.channels@[j]]
                0 <= j < l.channels@.len() ==> l.channels@[j].0@ == db.branches_seq()[
                    landings_of(db.landings_seq(), PrNumber(pr as i32))[j].branch_id.0 - 1
                ].spec_name(),
            Err(LandedError::PrNumberTooLarge) => pr > i32::MAX,
            Err(LandedError::ForPr(e)) => pr <= i32::MAX && e == ForPrError::PrNotFound && forall|
                i: int,
            |
                0 <= i < db.prs_seq().len() ==> (#[trigger] db.prs_seq()[i]).number != PrNumber(
                    pr as i32,
                ),
        },
{
    let num = match PrNumber::try_from(pr) {
        Ok(n) => n,
        Err(_) => {
            return Err(LandedError::PrNumberTooLarge);
        },
    };
    let branches = match Landing::for_pr(db, num) {
        Ok(b) => b,
        Err(e) => {
            return Err(LandedError::ForPr(e));
        },
    };
    let mut channels: Vec<Channel> = Vec::new();
    let mut i: usize = 0;
    let ghost lgs = landings_of(db.landings_seq(), num);
    proof {
        assert(num == PrNumber(pr as i32));
        assert(branches@.len() == lgs.len());
    }
    while i < branches.len()
        invariant
            db.wf(),
            lgs == landings_of(db.landings_seq(), num),
            0 <= i <= branches@.len(),
            branches@.len() == lgs.len(),
            forall|j: int|
                0 <= j < branches@.len() ==> #[trigger] branches@[j] == db.branches_seq()[
                    lgs[j].branch_id.0 - 1
                ],
            channels@.len() == i,
            forall|j: int|
                #![trigger channels@[j]]
                0 <= j < i ==> channels@[j].0@ == db.branches_seq()[
                    lgs[j].branch_id.0 - 1
                ].spec_name(),
        decreases branches@.len() - i,
    {
        let c = Channel::new(branches[i].name());
        channels.push(c);
        proof {
            assert(channels@[i as int].0@ == db.branches_seq()[
                lgs[i as int].branch_id.0 - 1
            ].spec_name());
        }
        i = i + 1;
    }
    proof {
        assert(landings_of(db.landings_seq(), PrNumber(pr as i32)) == lgs);
    }
    Ok(LandedIn { channels })
}

} // verus!
